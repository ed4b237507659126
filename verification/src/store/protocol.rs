//! Committing, one operation at a time.
//!
//! Every new file is written under a transient name, made safe, and renamed; the
//! directory is made safe; the manifest is written, made safe and renamed over
//! the current one, which is the commit; the directory is made safe again; what
//! nothing refers to any more is removed. A failure before the commit undoes what
//! was done; behind it nothing is undone, and a failure is passed over.

use vstd::prelude::*;

use super::commit::{Commit, NewFile};
use super::update::file_views;
use super::{tmp_name, MANIFEST, MANIFEST_TMP};
use crate::text::views;

verus! {

/// What a commit does, by value.
#[verifier::ext_equal]
pub ghost struct Plan {
    /// The names and bytes of the files to write.
    pub files: Seq<(Seq<char>, Seq<u8>)>,
    /// The bytes of the manifest.
    pub manifest: Seq<u8>,
    /// The files to remove behind the commit.
    pub retired: Seq<Seq<char>>,
}

/// Where a commit stands: what it does next.
#[derive(Debug, Clone, Copy, PartialEq, Eq, Structural)]
pub enum Stage {
    /// Write a file under its transient name.
    Put(usize),
    /// Make it safe.
    Sync(usize),
    /// Rename it.
    Rename(usize),
    /// Make the directory safe.
    SyncFiles,
    /// Write the manifest under its transient name.
    PutManifest,
    SyncManifest,
    /// Rename it: the commit.
    RenameManifest,
    SyncCommit,
    /// Remove a file that nothing refers to any more.
    Retire(usize),
    /// Behind a failure: remove a file under its transient name.
    DropTransient(usize),
    /// Behind a failure: remove a file under its name.
    DropFile(usize),
    /// Nothing more.
    Over,
}

/// An operation on the index directory.
pub ghost enum Op {
    /// Creates the file, or cuts it to nothing, and writes the bytes.
    Put(Seq<char>, Seq<u8>),
    /// Makes the bytes of a file safe.
    Sync(Seq<char>),
    Rename(Seq<char>, Seq<char>),
    /// Makes the names in the directory safe.
    SyncDir,
    Remove(Seq<char>),
}

/// A commit under way, by value.
#[verifier::ext_equal]
pub ghost struct RunView {
    pub plan: Plan,
    pub stage: Stage,
    /// How many files are to be dropped behind a failure.
    pub touched: int,
    /// Whether the last of them may have its name already.
    pub named: bool,
    /// Why the commit failed, if it did.
    pub why: Option<Seq<char>>,
}

/// The transient name of a file.
pub open spec fn transient(name: Seq<char>) -> Seq<char> {
    name + ".tmp"@
}

/// The operation of a stage.
pub open spec fn op_of(r: RunView) -> Option<Op> {
    let fs = r.plan.files;
    match r.stage {
        Stage::Put(i) => Some(Op::Put(transient(fs[i as int].0), fs[i as int].1)),
        Stage::Sync(i) => Some(Op::Sync(transient(fs[i as int].0))),
        Stage::Rename(i) => Some(Op::Rename(transient(fs[i as int].0), fs[i as int].0)),
        Stage::SyncFiles | Stage::SyncCommit => Some(Op::SyncDir),
        Stage::PutManifest => Some(Op::Put(MANIFEST_TMP@, r.plan.manifest)),
        Stage::SyncManifest => Some(Op::Sync(MANIFEST_TMP@)),
        Stage::RenameManifest => Some(Op::Rename(MANIFEST_TMP@, MANIFEST@)),
        Stage::Retire(j) => Some(Op::Remove(r.plan.retired[j as int])),
        Stage::DropTransient(i) => Some(Op::Remove(transient(fs[i as int].0))),
        Stage::DropFile(i) => Some(Op::Remove(fs[i as int].0)),
        Stage::Over => None,
    }
}

/// The stage is one before the commit.
pub open spec fn before_commit(s: Stage) -> bool {
    match s {
        Stage::Put(_) | Stage::Sync(_) | Stage::Rename(_) | Stage::SyncFiles | Stage::PutManifest
        | Stage::SyncManifest | Stage::RenameManifest => true,
        _ => false,
    }
}

/// The stage that starts file `i`, or the one behind all files.
pub open spec fn file_stage(n: nat, i: int) -> Stage {
    if i < n {
        Stage::Put(i as usize)
    } else {
        Stage::SyncFiles
    }
}

/// The stage that removes retired file `j`, or the end.
pub open spec fn retire_stage(n: nat, j: int) -> Stage {
    if j < n {
        Stage::Retire(j as usize)
    } else {
        Stage::Over
    }
}

/// How many files a failure at this stage leaves to be dropped, and whether the
/// last of them may have its name already.
pub open spec fn leftovers(s: Stage, n: nat) -> (int, bool) {
    match s {
        Stage::Put(i) | Stage::Sync(i) => (i + 1, false),
        Stage::Rename(i) => (i + 1, true),
        _ => (n as int, true),
    }
}

/// The commit behind the operation of its stage, which went well or failed for
/// a reason.
pub open spec fn stepped(r: RunView, failed: Option<Seq<char>>) -> RunView {
    let n = r.plan.files.len();
    if failed is Some && before_commit(r.stage) {
        let (touched, named) = leftovers(r.stage, n);
        RunView {
            stage: if touched > 0 {
                Stage::DropTransient(0)
            } else {
                Stage::Over
            },
            touched,
            named,
            why: failed,
            ..r
        }
    } else {
        RunView {
            stage: match r.stage {
                Stage::Put(i) => Stage::Sync(i),
                Stage::Sync(i) => Stage::Rename(i),
                Stage::Rename(i) => file_stage(n, i + 1),
                Stage::SyncFiles => Stage::PutManifest,
                Stage::PutManifest => Stage::SyncManifest,
                Stage::SyncManifest => Stage::RenameManifest,
                Stage::RenameManifest => Stage::SyncCommit,
                Stage::SyncCommit => retire_stage(r.plan.retired.len(), 0),
                Stage::Retire(j) => retire_stage(r.plan.retired.len(), j + 1),
                Stage::DropTransient(i) => if i + 1 < r.touched || r.named {
                    Stage::DropFile(i)
                } else {
                    Stage::Over
                },
                Stage::DropFile(i) => if i + 1 < r.touched {
                    Stage::DropTransient((i + 1) as usize)
                } else {
                    Stage::Over
                },
                Stage::Over => Stage::Over,
            },
            ..r
        }
    }
}

/// The commit before anything is done.
pub open spec fn begun(plan: Plan) -> RunView {
    RunView {
        plan,
        stage: file_stage(plan.files.len(), 0),
        touched: 0,
        named: false,
        why: None,
    }
}

/// What to do next.
#[derive(Debug)]
pub enum Action {
    /// Create the file and write these bytes: of a new file, or of the manifest.
    Put { name: String, file: Option<usize> },
    /// Make the file just written safe, and close it.
    Sync { name: String },
    Rename { from: String, to: String },
    /// Make the directory safe.
    SyncDir,
    Remove { name: String },
    /// The commit is complete.
    Committed,
    /// The commit failed and nothing has changed: why.
    Failed(String),
}

/// The action carries out the operation of a stage, or says how it ended.
pub open spec fn carries_out(a: Action, r: RunView) -> bool {
    match (a, op_of(r)) {
        (Action::Put { name, file }, Some(Op::Put(to, bytes))) => name@ == to && match file {
            Some(i) => i < r.plan.files.len() && r.plan.files[i as int].1 == bytes,
            None => r.plan.manifest == bytes,
        },
        (Action::Sync { name }, Some(Op::Sync(of))) => name@ == of,
        (Action::Rename { from, to }, Some(Op::Rename(a, b))) => from@ == a && to@ == b,
        (Action::SyncDir, Some(Op::SyncDir)) => true,
        (Action::Remove { name }, Some(Op::Remove(n))) => name@ == n,
        (Action::Committed, None) => r.why is None,
        (Action::Failed(why), None) => r.why == Some(why@),
        _ => false,
    }
}

/// A commit under way.
#[derive(Debug)]
pub struct CommitRun {
    files: Vec<NewFile>,
    manifest: Vec<u8>,
    retired: Vec<String>,
    stage: Stage,
    touched: usize,
    named: bool,
    why: Option<String>,
}

impl View for CommitRun {
    type V = RunView;

    closed spec fn view(&self) -> RunView {
        RunView {
            plan: Plan {
                files: file_views(self.files@),
                manifest: self.manifest@,
                retired: views(self.retired@),
            },
            stage: self.stage,
            touched: self.touched as int,
            named: self.named,
            why: match self.why {
                Some(why) => Some(why@),
                None => None,
            },
        }
    }
}

/// The places that a stage speaks of are there.
pub open spec fn in_range(r: RunView) -> bool {
    let n = r.plan.files.len() as int;
    &&& 0 <= r.touched <= n
    &&& match r.stage {
        Stage::Put(i) | Stage::Sync(i) | Stage::Rename(i) => i < n,
        Stage::Retire(j) => j < r.plan.retired.len(),
        Stage::DropTransient(i) | Stage::DropFile(i) => i < r.touched,
        _ => true,
    }
}

impl CommitRun {
    /// A commit before anything is done.
    pub fn new(commit: Commit) -> (r: Self)
        requires
            commit.manifest@.segments.len() <= u32::MAX,
        ensures
            r@ == begun(
                Plan {
                    files: file_views(commit.files@),
                    manifest: crate::format::manifest::encoded(commit.manifest@),
                    retired: views(commit.retired@),
                },
            ),
            in_range(r@),
    {
        let manifest = commit.manifest.encode();
        let stage = if commit.files.len() > 0 {
            Stage::Put(0)
        } else {
            Stage::SyncFiles
        };
        CommitRun {
            files: commit.files,
            manifest,
            retired: commit.retired,
            stage,
            touched: 0,
            named: false,
            why: None,
        }
    }

    /// What to do next.
    pub fn action(&self) -> (a: Action)
        requires
            in_range(self@),
        ensures
            carries_out(a, self@),
    {
        assert(file_views(self.files@).len() == self.files@.len());
        match self.stage {
            Stage::Put(i) => Action::Put {
                name: tmp_name(self.files[i].name.as_str()),
                file: Some(i),
            },
            Stage::Sync(i) => Action::Sync { name: tmp_name(self.files[i].name.as_str()) },
            Stage::Rename(i) => Action::Rename {
                from: tmp_name(self.files[i].name.as_str()),
                to: self.files[i].name.clone(),
            },
            Stage::SyncFiles => Action::SyncDir,
            Stage::PutManifest => Action::Put { name: MANIFEST_TMP.to_string(), file: None },
            Stage::SyncManifest => Action::Sync { name: MANIFEST_TMP.to_string() },
            Stage::RenameManifest => Action::Rename {
                from: MANIFEST_TMP.to_string(),
                to: MANIFEST.to_string(),
            },
            Stage::SyncCommit => Action::SyncDir,
            Stage::Retire(j) => Action::Remove { name: self.retired[j].clone() },
            Stage::DropTransient(i) => Action::Remove {
                name: tmp_name(self.files[i].name.as_str()),
            },
            Stage::DropFile(i) => Action::Remove { name: self.files[i].name.clone() },
            Stage::Over => match &self.why {
                Some(why) => Action::Failed(why.clone()),
                None => Action::Committed,
            },
        }
    }

    /// The bytes to write.
    pub fn bytes(&self, file: Option<usize>) -> (b: &[u8])
        requires
            file matches Some(i) ==> i < self@.plan.files.len(),
        ensures
            b@ == match file {
                Some(i) => self@.plan.files[i as int].1,
                None => self@.plan.manifest,
            },
    {
        match file {
            Some(i) => self.files[i].bytes.as_slice(),
            None => self.manifest.as_slice(),
        }
    }

    /// Takes in how the action went: `None` where it went well, else why not.
    pub fn step(&mut self, failed: Option<String>)
        requires
            in_range(old(self)@),
        ensures
            final(self)@ == stepped(
                old(self)@,
                match failed {
                    Some(why) => Some(why@),
                    None => None,
                },
            ),
            in_range(final(self)@),
    {
        let n: usize = self.files.len();
        let ghost fv = file_views(self.files@);
        assert(fv.len() == n);
        let early: bool = match self.stage {
            Stage::Put(_) | Stage::Sync(_) | Stage::Rename(_) | Stage::SyncFiles
            | Stage::PutManifest | Stage::SyncManifest | Stage::RenameManifest => true,
            _ => false,
        };
        if failed.is_some() && early {
            let (touched, named): (usize, bool) = match self.stage {
                Stage::Put(i) | Stage::Sync(i) => (i + 1, false),
                Stage::Rename(i) => (i + 1, true),
                _ => (n, true),
            };
            self.touched = touched;
            self.named = named;
            self.why = failed;
            self.stage = if touched > 0 {
                Stage::DropTransient(0)
            } else {
                Stage::Over
            };
            return;
        }
        let r: usize = self.retired.len();
        assert(views(self.retired@).len() == r);
        self.stage = match self.stage {
            Stage::Put(i) => Stage::Sync(i),
            Stage::Sync(i) => Stage::Rename(i),
            Stage::Rename(i) => if i + 1 < n {
                Stage::Put(i + 1)
            } else {
                Stage::SyncFiles
            },
            Stage::SyncFiles => Stage::PutManifest,
            Stage::PutManifest => Stage::SyncManifest,
            Stage::SyncManifest => Stage::RenameManifest,
            Stage::RenameManifest => Stage::SyncCommit,
            Stage::SyncCommit => if r > 0 {
                Stage::Retire(0)
            } else {
                Stage::Over
            },
            Stage::Retire(j) => if j + 1 < r {
                Stage::Retire(j + 1)
            } else {
                Stage::Over
            },
            Stage::DropTransient(i) => if i + 1 < self.touched || self.named {
                Stage::DropFile(i)
            } else {
                Stage::Over
            },
            Stage::DropFile(i) => if i + 1 < self.touched {
                Stage::DropTransient(i + 1)
            } else {
                Stage::Over
            },
            Stage::Over => Stage::Over,
        };
    }
}

} // verus!
