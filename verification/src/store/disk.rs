//! What a crash can leave of an index directory.
//!
//! The changes to a directory reach the disk in the order in which they were
//! made, some later than others: a crash leaves the directory as it was at some
//! moment since it was last made safe. The bytes of a file are on the disk for
//! sure only once the file was made safe; until then a crash can leave anything
//! in it.

use vstd::prelude::*;

use super::names::{is_transient, lemma_transient};
use super::protocol::{
    before_commit, begun, in_range, op_of, stepped, transient, Op, Plan, RunView, Stage,
};
use super::reader::{overlay_checked, manifest_read, IndexView};
use super::segment::{opened, FileView, SegmentView};
use super::{
    del_file, doc_file, files_of, idx_file, in_segments, joined, overlay_file, referenced, DIR_NAME,
    MANIFEST, MANIFEST_TMP,
};
use crate::error::ErrorView;
use crate::format::manifest::ManifestView;

verus! {

/// What a file holds, and whether that is on the disk for sure.
pub ghost struct Held {
    pub bytes: Seq<u8>,
    pub safe: bool,
}

/// A directory: the states in which a crash can leave it, in their order. The
/// last is the one that is seen now.
pub ghost struct Disk {
    pub kept: Seq<Map<Seq<char>, Held>>,
}

/// The directory with an operation carried out.
pub open spec fn applied(m: Map<Seq<char>, Held>, op: Op) -> Map<Seq<char>, Held> {
    match op {
        Op::Put(n, bytes) => m.insert(n, Held { bytes, safe: false }),
        Op::Sync(n) => if m.dom().contains(n) {
            m.insert(n, Held { safe: true, ..m[n] })
        } else {
            m
        },
        Op::Rename(a, b) => if m.dom().contains(a) {
            m.remove(a).insert(b, m[a])
        } else {
            m
        },
        Op::SyncDir => m,
        Op::Remove(n) => m.remove(n),
    }
}

impl Disk {
    /// The directory as it is seen now.
    pub open spec fn now(self) -> Map<Seq<char>, Held> {
        self.kept.last()
    }

    /// An operation went well.
    pub open spec fn done(self, op: Op) -> Disk {
        match op {
            Op::SyncDir => Disk { kept: seq![self.now()] },
            _ => Disk { kept: self.kept.push(applied(self.now(), op)) },
        }
    }

    /// An operation failed: a write may have changed the file, anything else has
    /// done nothing.
    pub open spec fn failed(self, op: Op) -> Disk {
        match op {
            Op::Put(..) => Disk { kept: self.kept.push(applied(self.now(), op)) },
            _ => self,
        }
    }

    /// A crash can leave the directory with these files.
    pub open spec fn can_leave(self, left: Map<Seq<char>, Seq<u8>>) -> bool {
        exists|k: int| 0 <= k < self.kept.len() && fits(#[trigger] self.kept[k], left)
    }
}

/// The files are those of the directory, those that are safe with their bytes.
pub open spec fn fits(m: Map<Seq<char>, Held>, left: Map<Seq<char>, Seq<u8>>) -> bool {
    &&& left.dom() == m.dom()
    &&& forall|n: Seq<char>| #[trigger]
        left.dom().contains(n) && m[n].safe ==> left[n] == m[n].bytes
}

/// A directory all of which is safe.
pub open spec fn all_safe(files: Map<Seq<char>, Seq<u8>>) -> Map<Seq<char>, Held> {
    files.map_values(|bytes: Seq<u8>| Held { bytes, safe: true })
}

/// A directory that was just made safe, with all its files.
pub open spec fn settled(files: Map<Seq<char>, Seq<u8>>) -> Disk {
    Disk { kept: seq![all_safe(files)] }
}

/// A commit and its directory, behind as many operations as there are outcomes:
/// each operation went well, or failed for a reason.
pub open spec fn after_ops(
    r: RunView,
    d: Disk,
    outcomes: Seq<Option<Seq<char>>>,
) -> (RunView, Disk)
    decreases outcomes.len(),
{
    if outcomes.len() == 0 {
        (r, d)
    } else {
        let (r1, d1) = after_ops(r, d, outcomes.drop_last());
        let o = outcomes.last();
        match op_of(r1) {
            None => (r1, d1),
            Some(op) => (
                stepped(r1, o),
                if o is Some {
                    d1.failed(op)
                } else {
                    d1.done(op)
                },
            ),
        }
    }
}

/// The manifest, if there is one, refers to the file.
pub open spec fn refers(m: Option<ManifestView>, name: Seq<char>) -> bool {
    m matches Some(m) && referenced(m, name)
}

/// The name is that of a new file.
pub open spec fn is_new(plan: Plan, name: Seq<char>) -> bool {
    exists|j: int| 0 <= j < plan.files.len() && (#[trigger] plan.files[j]).0 == name
}

/// What makes a commit safe: it writes no file that the manifest before it
/// refers to, the manifest behind it refers to new files and to files of the one
/// before, and it removes nothing that the manifest behind it refers to.
pub open spec fn sound(old: Option<ManifestView>, next: ManifestView, plan: Plan) -> bool {
    &&& forall|j: int|
        #![trigger plan.files[j]]
        0 <= j < plan.files.len() ==> {
            let n = plan.files[j].0;
            !refers(old, n) && referenced(next, n) && !is_transient(n) && n != MANIFEST@
        }
    &&& forall|i: int, j: int|
        0 <= i < j < plan.files.len() ==> (#[trigger] plan.files[i]).0 != (
        #[trigger] plan.files[j]).0
    &&& forall|n: Seq<char>| #[trigger]
        referenced(next, n) ==> is_new(plan, n) || refers(old, n)
    &&& forall|n: Seq<char>| #[trigger]
        refers(old, n) ==> !is_transient(n) && n != MANIFEST@
    &&& forall|j: int|
        #![trigger plan.retired[j]]
        0 <= j < plan.retired.len() ==> !referenced(next, plan.retired[j]) && plan.retired[j]
            != MANIFEST@
}

/// What the two directories hold under a name is the same.
pub open spec fn same_file(
    a: Map<Seq<char>, Held>,
    b: Map<Seq<char>, Held>,
    n: Seq<char>,
) -> bool {
    a.dom().contains(n) == b.dom().contains(n) && (a.dom().contains(n) ==> a[n] == b[n])
}

/// What the manifest before the commit reads is untouched.
spec fn untouched(
    h: Map<Seq<char>, Held>,
    was: Map<Seq<char>, Held>,
    old: Option<ManifestView>,
) -> bool {
    forall|n: Seq<char>|
        n == MANIFEST@ || refers(old, n) ==> #[trigger] same_file(h, was, n)
}

spec fn has(h: Map<Seq<char>, Held>, name: Seq<char>, bytes: Seq<u8>, safe: bool) -> bool {
    h.dom().contains(name) && h[name] == (Held { bytes, safe })
}

/// The first `i` new files are there.
spec fn has_files(h: Map<Seq<char>, Held>, plan: Plan, i: int) -> bool {
    forall|j: int|
        #![trigger plan.files[j]]
        0 <= j < i ==> has(h, plan.files[j].0, plan.files[j].1, true)
}

/// What the manifest behind the commit reads is there.
spec fn complete(
    h: Map<Seq<char>, Held>,
    was: Map<Seq<char>, Held>,
    next: ManifestView,
    plan: Plan,
) -> bool {
    &&& has(h, MANIFEST@, plan.manifest, true)
    &&& has_files(h, plan, plan.files.len() as int)
    &&& forall|n: Seq<char>|
        referenced(next, n) && !is_new(plan, n) ==> #[trigger] same_file(h, was, n)
}

spec fn each_kept(
    d: Disk,
    was: Map<Seq<char>, Held>,
    old: Option<ManifestView>,
    plan: Plan,
    i: int,
) -> bool {
    forall|k: int|
        #![trigger d.kept[k]]
        0 <= k < d.kept.len() ==> untouched(d.kept[k], was, old) && has_files(d.kept[k], plan, i)
}

spec fn each_either(
    d: Disk,
    was: Map<Seq<char>, Held>,
    old: Option<ManifestView>,
    next: ManifestView,
    plan: Plan,
) -> bool {
    forall|k: int|
        #![trigger d.kept[k]]
        0 <= k < d.kept.len() ==> untouched(d.kept[k], was, old) || complete(
            d.kept[k],
            was,
            next,
            plan,
        )
}

/// What holds at each stage of a commit.
spec fn holds(
    r: RunView,
    d: Disk,
    was: Map<Seq<char>, Held>,
    old: Option<ManifestView>,
    next: ManifestView,
    plan: Plan,
) -> bool {
    let n = plan.files.len() as int;
    let now = d.now();
    &&& r.plan == plan
    &&& in_range(r)
    &&& d.kept.len() > 0
    &&& match r.stage {
        Stage::Put(i) => each_kept(d, was, old, plan, 0) && has_files(now, plan, i as int),
        Stage::Sync(i) => each_kept(d, was, old, plan, 0) && has_files(now, plan, i as int) && has(
            now,
            transient(plan.files[i as int].0),
            plan.files[i as int].1,
            false,
        ),
        Stage::Rename(i) => each_kept(d, was, old, plan, 0) && has_files(now, plan, i as int)
            && has(now, transient(plan.files[i as int].0), plan.files[i as int].1, true),
        Stage::SyncFiles => each_kept(d, was, old, plan, 0) && has_files(now, plan, n),
        Stage::PutManifest => each_kept(d, was, old, plan, n),
        Stage::SyncManifest => each_kept(d, was, old, plan, n) && has(
            now,
            MANIFEST_TMP@,
            plan.manifest,
            false,
        ),
        Stage::RenameManifest => each_kept(d, was, old, plan, n) && has(
            now,
            MANIFEST_TMP@,
            plan.manifest,
            true,
        ),
        Stage::SyncCommit | Stage::Retire(_) => r.why is None && each_either(
            d,
            was,
            old,
            next,
            plan,
        ) && complete(now, was, next, plan),
        Stage::DropTransient(_) | Stage::DropFile(_) => r.why is Some && each_kept(
            d,
            was,
            old,
            plan,
            0,
        ),
        Stage::Over => if r.why is Some {
            each_kept(d, was, old, plan, 0)
        } else {
            each_either(d, was, old, next, plan) && complete(now, was, next, plan)
        },
    }
    &&& before_commit(r.stage) ==> r.why is None
}

proof fn lemma_manifest_names()
    ensures
        is_transient(MANIFEST_TMP@),
        MANIFEST_TMP@ != MANIFEST@,
        !is_transient(MANIFEST@),
{
    reveal_strlit("MANIFEST");
    reveal_strlit("MANIFEST.tmp");
    reveal_strlit(".tmp");
    lemma_transient(MANIFEST@);
    let t = MANIFEST_TMP@;
    assert(".tmp"@ =~= t.subrange(t.len() - 4, t.len() as int));
}

/// A change to a transient file touches nothing that a manifest reads and none of
/// the new files.
proof fn lemma_transient_change(
    h: Map<Seq<char>, Held>,
    g: Map<Seq<char>, Held>,
    name: Seq<char>,
    was: Map<Seq<char>, Held>,
    old: Option<ManifestView>,
    next: ManifestView,
    plan: Plan,
    i: int,
)
    requires
        sound(old, next, plan),
        is_transient(name),
        0 <= i <= plan.files.len(),
        forall|n: Seq<char>| n != name ==> #[trigger] same_file(g, h, n),
    ensures
        untouched(h, was, old) ==> untouched(g, was, old),
        has_files(h, plan, i) ==> has_files(g, plan, i),
{
    lemma_manifest_names();
    if untouched(h, was, old) {
        assert forall|n: Seq<char>| n == MANIFEST@ || refers(old, n) implies #[trigger] same_file(
            g,
            was,
            n,
        ) by {
            assert(n != name);
            assert(same_file(g, h, n));
            assert(same_file(h, was, n));
        }
    }
    if has_files(h, plan, i) {
        assert forall|j: int| #![trigger plan.files[j]] 0 <= j < i implies has(
            g,
            plan.files[j].0,
            plan.files[j].1,
            true,
        ) by {
            assert(same_file(g, h, plan.files[j].0));
        }
    }
}

/// One more state that is as good as the others.
proof fn lemma_kept_more(
    d: Disk,
    g: Map<Seq<char>, Held>,
    was: Map<Seq<char>, Held>,
    old: Option<ManifestView>,
    plan: Plan,
    i: int,
)
    requires
        each_kept(d, was, old, plan, i),
        untouched(g, was, old),
        has_files(g, plan, i),
    ensures
        each_kept(Disk { kept: d.kept.push(g) }, was, old, plan, i),
{
    let e = Disk { kept: d.kept.push(g) };
    assert forall|k: int| #![trigger e.kept[k]] 0 <= k < e.kept.len() implies untouched(
        e.kept[k],
        was,
        old,
    ) && has_files(e.kept[k], plan, i) by {
        if k < d.kept.len() {
            assert(e.kept[k] == d.kept[k]);
        }
    }
}

/// Fewer new files are there where more are.
proof fn lemma_kept_fewer(
    d: Disk,
    was: Map<Seq<char>, Held>,
    old: Option<ManifestView>,
    plan: Plan,
    i: int,
)
    requires
        each_kept(d, was, old, plan, i),
        i >= 0,
    ensures
        each_kept(d, was, old, plan, 0),
{
    assert forall|k: int| #![trigger d.kept[k]] 0 <= k < d.kept.len() implies untouched(
        d.kept[k],
        was,
        old,
    ) && has_files(d.kept[k], plan, 0) by {}
}

proof fn lemma_put(
    r: RunView,
    d: Disk,
    was: Map<Seq<char>, Held>,
    old: Option<ManifestView>,
    next: ManifestView,
    plan: Plan,
    o: Option<Seq<char>>,
)
    requires
        sound(old, next, plan),
        holds(r, d, was, old, next, plan),
        r.stage is Put || r.stage is Sync || r.stage is PutManifest || r.stage is SyncManifest,
    ensures
        holds(
            stepped(r, o),
            if o is Some {
                d.failed(op_of(r)->0)
            } else {
                d.done(op_of(r)->0)
            },
            was,
            old,
            next,
            plan,
        ),
{
    let n = plan.files.len() as int;
    let op = op_of(r)->0;
    let name = match r.stage {
        Stage::Put(i) | Stage::Sync(i) => transient(plan.files[i as int].0),
        _ => MANIFEST_TMP@,
    };
    lemma_manifest_names();
    match r.stage {
        Stage::Put(i) | Stage::Sync(i) => lemma_transient(plan.files[i as int].0),
        _ => {},
    }
    let count = match r.stage {
        Stage::Put(i) | Stage::Sync(i) => i as int,
        _ => n,
    };
    let all = match r.stage {
        Stage::Put(_) | Stage::Sync(_) => 0int,
        _ => n,
    };
    let g = applied(d.now(), op);
    assert forall|m: Seq<char>| m != name implies #[trigger] same_file(g, d.now(), m) by {}
    assert(d.kept[d.kept.len() - 1] == d.now());
    lemma_transient_change(d.now(), g, name, was, old, next, plan, count);
    lemma_transient_change(d.now(), g, name, was, old, next, plan, all);
    lemma_kept_more(d, g, was, old, plan, all);
    let e = Disk { kept: d.kept.push(g) };
    assert(e.now() == g);
    if o is Some {
        lemma_kept_fewer(e, was, old, plan, all);
        lemma_kept_fewer(d, was, old, plan, all);
    }
}

proof fn lemma_rename_file(
    r: RunView,
    d: Disk,
    was: Map<Seq<char>, Held>,
    old: Option<ManifestView>,
    next: ManifestView,
    plan: Plan,
    o: Option<Seq<char>>,
)
    requires
        sound(old, next, plan),
        holds(r, d, was, old, next, plan),
        r.stage is Rename || r.stage is SyncFiles,
    ensures
        holds(
            stepped(r, o),
            if o is Some {
                d.failed(op_of(r)->0)
            } else {
                d.done(op_of(r)->0)
            },
            was,
            old,
            next,
            plan,
        ),
{
    let n = plan.files.len() as int;
    assert(d.kept[d.kept.len() - 1] == d.now());
    match r.stage {
        Stage::Rename(at) => {
            let i = at as int;
            let (name, bytes) = plan.files[i];
            let tmp = transient(name);
            lemma_transient(name);
            lemma_manifest_names();
            let g = applied(d.now(), op_of(r)->0);
            assert(untouched(g, was, old)) by {
                assert forall|m: Seq<char>| m == MANIFEST@ || refers(old, m) implies #[trigger] same_file(
                    g,
                    was,
                    m,
                ) by {
                    assert(same_file(d.now(), was, m));
                    assert(m != tmp && m != name);
                }
            }
            assert(has_files(g, plan, i + 1)) by {
                assert forall|j: int| #![trigger plan.files[j]] 0 <= j < i + 1 implies has(
                    g,
                    plan.files[j].0,
                    plan.files[j].1,
                    true,
                ) by {
                    if j < i {
                        assert(has(d.now(), plan.files[j].0, plan.files[j].1, true));
                        assert(plan.files[j].0 != plan.files[i].0);
                    }
                }
            }
            if o is None {
                lemma_kept_more(d, g, was, old, plan, 0);
                assert(Disk { kept: d.kept.push(g) }.now() == g);
            }
        },
        _ => {
            let e = Disk { kept: seq![d.now()] };
            if o is None {
                assert forall|k: int| #![trigger e.kept[k]] 0 <= k < e.kept.len() implies untouched(
                    e.kept[k],
                    was,
                    old,
                ) && has_files(e.kept[k], plan, n) by {
                    assert(e.kept[k] == d.now());
                    assert(untouched(d.kept[d.kept.len() - 1], was, old));
                }
            }
        },
    }
}

proof fn lemma_commit_point(
    r: RunView,
    d: Disk,
    was: Map<Seq<char>, Held>,
    old: Option<ManifestView>,
    next: ManifestView,
    plan: Plan,
    o: Option<Seq<char>>,
)
    requires
        sound(old, next, plan),
        holds(r, d, was, old, next, plan),
        r.stage is RenameManifest,
    ensures
        holds(
            stepped(r, o),
            if o is Some {
                d.failed(op_of(r)->0)
            } else {
                d.done(op_of(r)->0)
            },
            was,
            old,
            next,
            plan,
        ),
{
    let n = plan.files.len() as int;
    assert(d.kept[d.kept.len() - 1] == d.now());
    lemma_manifest_names();
    if o is Some {
        lemma_kept_fewer(d, was, old, plan, n);
    } else {
        let g = applied(d.now(), op_of(r)->0);
        let e = Disk { kept: d.kept.push(g) };
        assert(has_files(g, plan, n)) by {
            assert forall|j: int| #![trigger plan.files[j]] 0 <= j < n implies has(
                g,
                plan.files[j].0,
                plan.files[j].1,
                true,
            ) by {
                assert(has(d.now(), plan.files[j].0, plan.files[j].1, true));
            }
        }
        assert forall|m: Seq<char>| referenced(next, m) && !is_new(plan, m) implies #[trigger] same_file(
            g,
            was,
            m,
        ) by {
            assert(refers(old, m));
            assert(same_file(d.now(), was, m));
        }
        assert(complete(g, was, next, plan));
        assert forall|k: int| #![trigger e.kept[k]] 0 <= k < e.kept.len() implies untouched(
            e.kept[k],
            was,
            old,
        ) || complete(e.kept[k], was, next, plan) by {
            if k < d.kept.len() {
                assert(e.kept[k] == d.kept[k]);
            }
        }
        assert(e.now() == g);
    }
}

proof fn lemma_behind_commit(
    r: RunView,
    d: Disk,
    was: Map<Seq<char>, Held>,
    old: Option<ManifestView>,
    next: ManifestView,
    plan: Plan,
    o: Option<Seq<char>>,
)
    requires
        sound(old, next, plan),
        holds(r, d, was, old, next, plan),
        r.stage is SyncCommit || r.stage is Retire,
    ensures
        holds(
            stepped(r, o),
            if o is Some {
                d.failed(op_of(r)->0)
            } else {
                d.done(op_of(r)->0)
            },
            was,
            old,
            next,
            plan,
        ),
{
    if o is None {
        match r.stage {
            Stage::Retire(j) => {
                let gone = plan.retired[j as int];
                let g = d.now().remove(gone);
                let e = Disk { kept: d.kept.push(g) };
                assert(complete(g, was, next, plan)) by {
                    assert forall|i: int| #![trigger plan.files[i]] 0 <= i
                        < plan.files.len() implies has(
                        g,
                        plan.files[i].0,
                        plan.files[i].1,
                        true,
                    ) by {
                        assert(has(d.now(), plan.files[i].0, plan.files[i].1, true));
                    }
                    assert forall|m: Seq<char>|
                        referenced(next, m) && !is_new(plan, m) implies #[trigger] same_file(
                        g,
                        was,
                        m,
                    ) by {
                        assert(same_file(d.now(), was, m));
                    }
                }
                assert forall|k: int| #![trigger e.kept[k]] 0 <= k
                    < e.kept.len() implies untouched(e.kept[k], was, old) || complete(
                    e.kept[k],
                    was,
                    next,
                    plan,
                ) by {
                    if k < d.kept.len() {
                        assert(e.kept[k] == d.kept[k]);
                    }
                }
                assert(e.now() == g);
            },
            _ => {
                let e = Disk { kept: seq![d.now()] };
                assert(e.now() == d.now());
                assert forall|k: int| #![trigger e.kept[k]] 0 <= k
                    < e.kept.len() implies untouched(e.kept[k], was, old) || complete(
                    e.kept[k],
                    was,
                    next,
                    plan,
                ) by {
                    assert(e.kept[k] == d.now());
                }
            },
        }
    }
}

proof fn lemma_undo(
    r: RunView,
    d: Disk,
    was: Map<Seq<char>, Held>,
    old: Option<ManifestView>,
    next: ManifestView,
    plan: Plan,
    o: Option<Seq<char>>,
)
    requires
        sound(old, next, plan),
        holds(r, d, was, old, next, plan),
        r.stage is DropTransient || r.stage is DropFile,
    ensures
        holds(
            stepped(r, o),
            if o is Some {
                d.failed(op_of(r)->0)
            } else {
                d.done(op_of(r)->0)
            },
            was,
            old,
            next,
            plan,
        ),
{
    if o is None {
        assert(d.kept[d.kept.len() - 1] == d.now());
        lemma_manifest_names();
        let name = match r.stage {
            Stage::DropTransient(i) => transient(plan.files[i as int].0),
            Stage::DropFile(i) => plan.files[i as int].0,
            _ => Seq::empty(),
        };
        match r.stage {
            Stage::DropTransient(i) => lemma_transient(plan.files[i as int].0),
            _ => {},
        }
        let g = d.now().remove(name);
        assert(untouched(g, was, old)) by {
            assert forall|m: Seq<char>| m == MANIFEST@ || refers(old, m) implies #[trigger] same_file(
                g,
                was,
                m,
            ) by {
                assert(same_file(d.now(), was, m));
            }
        }
        lemma_kept_more(d, g, was, old, plan, 0);
    }
}

proof fn lemma_holds(
    was: Map<Seq<char>, Held>,
    old: Option<ManifestView>,
    next: ManifestView,
    plan: Plan,
    outcomes: Seq<Option<Seq<char>>>,
)
    requires
        sound(old, next, plan),
        plan.files.len() <= usize::MAX,
    ensures
        ({
            let (r, d) = after_ops(begun(plan), Disk { kept: seq![was] }, outcomes);
            holds(r, d, was, old, next, plan)
        }),
    decreases outcomes.len(),
{
    let d0 = Disk { kept: seq![was] };
    if outcomes.len() == 0 {
        assert forall|k: int| #![trigger d0.kept[k]] 0 <= k < d0.kept.len() implies untouched(
            d0.kept[k],
            was,
            old,
        ) && has_files(d0.kept[k], plan, 0) by {
            assert(d0.kept[k] == was);
            assert forall|n: Seq<char>| n == MANIFEST@ || refers(old, n) implies #[trigger] same_file(
                was,
                was,
                n,
            ) by {}
        }
    } else {
        lemma_holds(was, old, next, plan, outcomes.drop_last());
        let (r, d) = after_ops(begun(plan), d0, outcomes.drop_last());
        let o = outcomes.last();
        match r.stage {
            Stage::Put(_) | Stage::Sync(_) | Stage::PutManifest | Stage::SyncManifest => lemma_put(
                r,
                d,
                was,
                old,
                next,
                plan,
                o,
            ),
            Stage::Rename(_) | Stage::SyncFiles => lemma_rename_file(
                r,
                d,
                was,
                old,
                next,
                plan,
                o,
            ),
            Stage::RenameManifest => lemma_commit_point(r, d, was, old, next, plan, o),
            Stage::SyncCommit | Stage::Retire(_) => lemma_behind_commit(
                r,
                d,
                was,
                old,
                next,
                plan,
                o,
            ),
            Stage::DropTransient(_) | Stage::DropFile(_) => lemma_undo(
                r,
                d,
                was,
                old,
                next,
                plan,
                o,
            ),
            Stage::Over => {},
        }
    }
}

/// The directory with the first `n` new files.
pub open spec fn with_files(
    files: Map<Seq<char>, Seq<u8>>,
    plan: Plan,
    n: int,
) -> Map<Seq<char>, Seq<u8>>
    decreases n,
{
    if n <= 0 {
        files
    } else {
        with_files(files, plan, n - 1).insert(plan.files[n - 1].0, plan.files[n - 1].1)
    }
}

/// The directory behind a commit, but for what it removes.
pub open spec fn committed(
    files: Map<Seq<char>, Seq<u8>>,
    plan: Plan,
) -> Map<Seq<char>, Seq<u8>> {
    with_files(files, plan, plan.files.len() as int).insert(MANIFEST@, plan.manifest)
}

/// Both directories hold the same under a name.
pub open spec fn same_bytes(
    a: Map<Seq<char>, Seq<u8>>,
    b: Map<Seq<char>, Seq<u8>>,
    n: Seq<char>,
) -> bool {
    a.dom().contains(n) == b.dom().contains(n) && (a.dom().contains(n) ==> a[n] == b[n])
}

/// Of both directories a reader sees the same: the manifest, and every file that
/// it refers to.
pub open spec fn shows(
    left: Map<Seq<char>, Seq<u8>>,
    files: Map<Seq<char>, Seq<u8>>,
    m: Option<ManifestView>,
) -> bool {
    forall|n: Seq<char>|
        n == MANIFEST@ || refers(m, n) ==> #[trigger] same_bytes(left, files, n)
}

/// Behind the new files the directory holds them, and all else as before.
pub proof fn lemma_with_files(files: Map<Seq<char>, Seq<u8>>, plan: Plan, n: int)
    requires
        0 <= n <= plan.files.len(),
        forall|i: int, j: int|
            0 <= i < j < plan.files.len() ==> (#[trigger] plan.files[i]).0 != (
            #[trigger] plan.files[j]).0,
    ensures
        forall|j: int|
            #![trigger plan.files[j]]
            0 <= j < n ==> with_files(files, plan, n).dom().contains(plan.files[j].0)
                && with_files(files, plan, n)[plan.files[j].0] == plan.files[j].1,
        forall|m: Seq<char>|
            (forall|j: int| 0 <= j < n ==> (#[trigger] plan.files[j]).0 != m)
                ==> #[trigger] same_bytes(with_files(files, plan, n), files, m),
    decreases n,
{
    if n > 0 {
        lemma_with_files(files, plan, n - 1);
        let before = with_files(files, plan, n - 1);
        let w = with_files(files, plan, n);
        assert forall|m: Seq<char>| (forall|j: int|
            0 <= j < n ==> (#[trigger] plan.files[j]).0 != m) implies #[trigger] same_bytes(
            w,
            files,
            m,
        ) by {
            assert(plan.files[n - 1].0 != m);
            assert(same_bytes(before, files, m));
        }
    }
}

proof fn lemma_left_untouched(
    h: Map<Seq<char>, Held>,
    files: Map<Seq<char>, Seq<u8>>,
    old: Option<ManifestView>,
    left: Map<Seq<char>, Seq<u8>>,
)
    requires
        fits(h, left),
        untouched(h, all_safe(files), old),
    ensures
        shows(left, files, old),
{
    let was = all_safe(files);
    assert forall|n: Seq<char>| n == MANIFEST@ || refers(old, n) implies #[trigger] same_bytes(
        left,
        files,
        n,
    ) by {
        assert(same_file(h, was, n));
        assert(was.dom() =~= files.dom());
        if left.dom().contains(n) {
            assert(was[n] == (Held { bytes: files[n], safe: true }));
        }
    }
}

proof fn lemma_left_complete(
    h: Map<Seq<char>, Held>,
    files: Map<Seq<char>, Seq<u8>>,
    old: Option<ManifestView>,
    next: ManifestView,
    plan: Plan,
    left: Map<Seq<char>, Seq<u8>>,
)
    requires
        sound(old, next, plan),
        fits(h, left),
        complete(h, all_safe(files), next, plan),
    ensures
        shows(left, committed(files, plan), Some(next)),
{
    let was = all_safe(files);
    let n = plan.files.len() as int;
    let w = with_files(files, plan, n);
    let c = committed(files, plan);
    lemma_with_files(files, plan, n);
    assert forall|m: Seq<char>| m == MANIFEST@ || refers(Some(next), m) implies #[trigger] same_bytes(
        left,
        c,
        m,
    ) by {
        if m == MANIFEST@ {
            assert(left.dom().contains(m));
        } else if is_new(plan, m) {
            let j = choose|j: int| 0 <= j < plan.files.len() && (#[trigger] plan.files[j]).0 == m;
            assert(has(h, plan.files[j].0, plan.files[j].1, true));
            assert(left.dom().contains(m));
        } else {
            assert(refers(old, m));
            assert(same_file(h, was, m));
            assert(same_bytes(w, files, m)) by {
                assert forall|j: int| 0 <= j < n implies (#[trigger] plan.files[j]).0 != m by {}
            }
            assert(was.dom() =~= files.dom());
            if left.dom().contains(m) {
                assert(was[m] == (Held { bytes: files[m], safe: true }));
            }
        }
    }
}

/// A crash in the middle of a commit, with any of its operations failing, leaves
/// what a reader saw before or what a reader sees behind it, and nothing between:
/// before, as long as the commit was not made, and for good where it failed.
pub proof fn lemma_all_or_nothing(
    files: Map<Seq<char>, Seq<u8>>,
    old: Option<ManifestView>,
    next: ManifestView,
    plan: Plan,
    outcomes: Seq<Option<Seq<char>>>,
    left: Map<Seq<char>, Seq<u8>>,
)
    requires
        sound(old, next, plan),
        plan.files.len() <= usize::MAX,
        after_ops(begun(plan), settled(files), outcomes).1.can_leave(left),
    ensures
        shows(left, files, old) || shows(left, committed(files, plan), Some(next)),
        ({
            let r = after_ops(begun(plan), settled(files), outcomes).0;
            before_commit(r.stage) || r.why is Some
        }) ==> shows(left, files, old),
{
    let was = all_safe(files);
    lemma_holds(was, old, next, plan, outcomes);
    let (r, d) = after_ops(begun(plan), settled(files), outcomes);
    let k = choose|k: int| 0 <= k < d.kept.len() && fits(#[trigger] d.kept[k], left);
    let h = d.kept[k];
    if before_commit(r.stage) || r.why is Some {
        assert(untouched(h, was, old));
    }
    if untouched(h, was, old) {
        lemma_left_untouched(h, files, old, left);
    } else {
        lemma_left_complete(h, files, old, next, plan, left);
    }
}

spec fn each_complete(
    d: Disk,
    was: Map<Seq<char>, Held>,
    next: ManifestView,
    plan: Plan,
) -> bool {
    forall|k: int|
        #![trigger d.kept[k]]
        0 <= k < d.kept.len() ==> complete(d.kept[k], was, next, plan)
}

proof fn lemma_clean(
    was: Map<Seq<char>, Held>,
    old: Option<ManifestView>,
    next: ManifestView,
    plan: Plan,
    outcomes: Seq<Option<Seq<char>>>,
)
    requires
        sound(old, next, plan),
        plan.files.len() <= usize::MAX,
        forall|i: int| 0 <= i < outcomes.len() ==> (#[trigger] outcomes[i]) is None,
    ensures
        ({
            let (r, d) = after_ops(begun(plan), Disk { kept: seq![was] }, outcomes);
            &&& r.why is None
            &&& r.stage is Retire || r.stage is Over ==> each_complete(d, was, next, plan)
        }),
    decreases outcomes.len(),
{
    if outcomes.len() > 0 {
        let front = outcomes.drop_last();
        assert forall|i: int| 0 <= i < front.len() implies (#[trigger] front[i]) is None by {
            assert(outcomes[i] is None);
        }
        assert(outcomes[outcomes.len() - 1] is None);
        lemma_clean(was, old, next, plan, front);
        lemma_holds(was, old, next, plan, front);
        lemma_holds(was, old, next, plan, outcomes);
        let (r, d) = after_ops(begun(plan), Disk { kept: seq![was] }, front);
        let (r2, d2) = after_ops(begun(plan), Disk { kept: seq![was] }, outcomes);
        if r2.stage is Retire || r2.stage is Over {
            assert forall|k: int| #![trigger d2.kept[k]] 0 <= k < d2.kept.len() implies complete(
                d2.kept[k],
                was,
                next,
                plan,
            ) by {
                match r.stage {
                    Stage::SyncCommit => {
                        assert(d2.kept[k] == d.now());
                    },
                    Stage::Retire(_) => {
                        if k < d.kept.len() {
                            assert(d2.kept[k] == d.kept[k]);
                        } else {
                            assert(d2.kept[k] == d2.now());
                        }
                    },
                    _ => {
                        assert(r.stage is Over);
                    },
                }
            }
        }
    }
}

/// A commit that went well is there for good: whatever crash follows, a reader
/// sees what it committed.
pub proof fn lemma_durable(
    files: Map<Seq<char>, Seq<u8>>,
    old: Option<ManifestView>,
    next: ManifestView,
    plan: Plan,
    outcomes: Seq<Option<Seq<char>>>,
    left: Map<Seq<char>, Seq<u8>>,
)
    requires
        sound(old, next, plan),
        plan.files.len() <= usize::MAX,
        forall|i: int| 0 <= i < outcomes.len() ==> (#[trigger] outcomes[i]) is None,
        after_ops(begun(plan), settled(files), outcomes).0.stage is Over,
        after_ops(begun(plan), settled(files), outcomes).1.can_leave(left),
    ensures
        shows(left, committed(files, plan), Some(next)),
{
    let was = all_safe(files);
    lemma_clean(was, old, next, plan, outcomes);
    let (r, d) = after_ops(begun(plan), settled(files), outcomes);
    let k = choose|k: int| 0 <= k < d.kept.len() && fits(#[trigger] d.kept[k], left);
    lemma_left_complete(d.kept[k], files, old, next, plan, left);
}

/// What is read of a file of a directory.
pub open spec fn file_in(files: Map<Seq<char>, Seq<u8>>, name: Seq<char>) -> FileView {
    if files.dom().contains(name) {
        FileView::Bytes(files[name])
    } else {
        FileView::Missing
    }
}

/// What is read of the deletions of a segment: nothing where it has none.
pub open spec fn deletions_in(
    files: Map<Seq<char>, Seq<u8>>,
    e: crate::format::manifest::SegmentEntry,
) -> FileView {
    if e.del_gen > 0 {
        file_in(files, del_file(e.segment_id, e.del_gen))
    } else {
        FileView::Missing
    }
}

/// The first `n` segments of a manifest in a directory.
pub open spec fn segments_in(
    dir: Seq<char>,
    m: ManifestView,
    files: Map<Seq<char>, Seq<u8>>,
    verify: bool,
    n: int,
) -> core::result::Result<Seq<SegmentView>, ErrorView>
    decreases n,
{
    if n <= 0 {
        Ok(Seq::empty())
    } else {
        match segments_in(dir, m, files, verify, n - 1) {
            Err(f) => Err(f),
            Ok(before) => match opened(
                dir,
                m.segments[n - 1],
                file_in(files, idx_file(m.segments[n - 1].segment_id)),
                file_in(files, doc_file(m.segments[n - 1].segment_id)),
                deletions_in(files, m.segments[n - 1]),
                verify,
            ) {
                Err(f) => Err(f),
                Ok(s) => Ok(before.push(s)),
            },
        }
    }
}

/// What opening the index of a directory gives: nothing where there is no usable
/// manifest.
pub open spec fn index_in(
    root: Seq<char>,
    files: Map<Seq<char>, Seq<u8>>,
    verify: bool,
) -> core::result::Result<Option<IndexView>, ErrorView> {
    let dir = joined(root, DIR_NAME@);
    match manifest_read(joined(dir, MANIFEST@), file_in(files, MANIFEST@)) {
        Err(f) => Err(f),
        Ok(None) => Ok(None),
        Ok(Some(m)) => match segments_in(dir, m, files, verify, m.segments.len() as int) {
            Err(f) => Err(f),
            Ok(segments) => match overlay_checked(
                dir,
                m,
                if m.state_gen > 0 {
                    file_in(files, overlay_file(m.state_gen))
                } else {
                    FileView::Missing
                },
            ) {
                Err(f) => Err(f),
                Ok(overlay) => Ok(Some(IndexView { root, manifest: m, segments, overlay })),
            },
        },
    }
}

/// The manifest of a directory, if it has a usable one.
pub open spec fn manifest_in_dir(root: Seq<char>, files: Map<Seq<char>, Seq<u8>>) -> Option<
    ManifestView,
> {
    match manifest_read(joined(joined(root, DIR_NAME@), MANIFEST@), file_in(files, MANIFEST@)) {
        Ok(m) => m,
        Err(_) => None,
    }
}

proof fn lemma_same_segments(
    dir: Seq<char>,
    m: ManifestView,
    a: Map<Seq<char>, Seq<u8>>,
    b: Map<Seq<char>, Seq<u8>>,
    verify: bool,
    n: int,
)
    requires
        shows(a, b, Some(m)),
        0 <= n <= m.segments.len(),
    ensures
        segments_in(dir, m, a, verify, n) == segments_in(dir, m, b, verify, n),
    decreases n,
{
    if n > 0 {
        lemma_same_segments(dir, m, a, b, verify, n - 1);
        let e = m.segments[n - 1];
        let own = files_of(e);
        let total = m.segments.len() as int;
        assert(own[0] == idx_file(e.segment_id));
        assert(own[1] == doc_file(e.segment_id));
        assert(files_of(m.segments[n - 1]).contains(own[0]));
        assert(files_of(m.segments[n - 1]).contains(own[1]));
        assert(in_segments(m.segments, total, idx_file(e.segment_id)));
        assert(in_segments(m.segments, total, doc_file(e.segment_id)));
        assert(same_bytes(a, b, idx_file(e.segment_id)));
        assert(same_bytes(a, b, doc_file(e.segment_id)));
        if e.del_gen > 0 {
            assert(own[2] == del_file(e.segment_id, e.del_gen));
            assert(files_of(m.segments[n - 1]).contains(own[2]));
            assert(in_segments(m.segments, total, del_file(e.segment_id, e.del_gen)));
            assert(same_bytes(a, b, del_file(e.segment_id, e.del_gen)));
        }
    }
}

/// Directories of which a reader sees the same open to the same index.
pub proof fn lemma_shown_opens(
    root: Seq<char>,
    left: Map<Seq<char>, Seq<u8>>,
    files: Map<Seq<char>, Seq<u8>>,
    verify: bool,
)
    requires
        shows(left, files, manifest_in_dir(root, files)),
    ensures
        index_in(root, left, verify) == index_in(root, files, verify),
{
    let dir = joined(root, DIR_NAME@);
    assert(same_bytes(left, files, MANIFEST@));
    if let Some(m) = manifest_in_dir(root, files) {
        lemma_same_segments(dir, m, left, files, verify, m.segments.len() as int);
        if m.state_gen > 0 {
            assert(same_bytes(left, files, overlay_file(m.state_gen)));
        }
    }
}

/// After a crash in the middle of a commit the index opens as it did before, or
/// as it does behind the commit: never to anything else, whatever operation
/// failed or was lost.
pub proof fn lemma_recovers(
    root: Seq<char>,
    files: Map<Seq<char>, Seq<u8>>,
    next: ManifestView,
    plan: Plan,
    outcomes: Seq<Option<Seq<char>>>,
    left: Map<Seq<char>, Seq<u8>>,
    verify: bool,
)
    requires
        sound(manifest_in_dir(root, files), next, plan),
        crate::format::manifest::valid(next),
        plan.manifest == crate::format::manifest::encoded(next),
        plan.files.len() <= usize::MAX,
        after_ops(begun(plan), settled(files), outcomes).1.can_leave(left),
    ensures
        index_in(root, left, verify) == index_in(root, files, verify) || index_in(
            root,
            left,
            verify,
        ) == index_in(root, committed(files, plan), verify),
{
    let old = manifest_in_dir(root, files);
    lemma_all_or_nothing(files, old, next, plan, outcomes, left);
    crate::format::manifest::lemma_roundtrip(next);
    let c = committed(files, plan);
    assert(manifest_in_dir(root, c) == Some(next));
    if shows(left, files, old) {
        lemma_shown_opens(root, left, files, verify);
    } else {
        lemma_shown_opens(root, left, c, verify);
    }
}

} // verus!
