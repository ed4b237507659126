//! Faults on demand, for exercising the commit protocol.
//!
//! A plan names the write or the sync to fail, the write whose bytes to lose, or
//! the operation at which everything stops as if the process were gone. Every
//! operation is logged.

use vstd::prelude::*;

use crate::text::{is_among, lemma_push_contains, views};

verus! {

/// What to break. Counters start at one and count since the last reset;
/// `crash_at_op` counts every operation.
#[derive(Debug, Clone, Copy, PartialEq, Eq, Structural)]
pub struct FaultPlan {
    pub fail_write: Option<u64>,
    pub fail_sync: Option<u64>,
    pub discard_write: Option<u64>,
    pub crash_at_op: Option<u64>,
}

impl Default for FaultPlan {
    fn default() -> (p: Self)
        ensures
            p == (FaultPlan {
                fail_write: None,
                fail_sync: None,
                discard_write: None,
                crash_at_op: None,
            }),
    {
        FaultPlan { fail_write: None, fail_sync: None, discard_write: None, crash_at_op: None }
    }
}

/// Why an operation fails.
#[derive(Debug, Clone, Copy, PartialEq, Eq, Structural)]
pub enum Fault {
    Dead,
    Crash,
    Write,
    Sync,
    DirSync,
    Writeback,
}

/// What is told of a fault.
pub open spec fn fault_text(f: Fault) -> Seq<char> {
    match f {
        Fault::Dead => "injected fault: process is dead"@,
        Fault::Crash => "injected fault: crash"@,
        Fault::Write => "injected fault: write failed"@,
        Fault::Sync => "injected fault: sync failed"@,
        Fault::DirSync => "injected fault: dir sync failed"@,
        Fault::Writeback => "injected fault: writeback failed (EIO)"@,
    }
}

impl Fault {
    /// What is told of the fault.
    pub fn message(&self) -> (r: &'static str)
        ensures
            r@ == fault_text(*self),
    {
        match self {
            Fault::Dead => "injected fault: process is dead",
            Fault::Crash => "injected fault: crash",
            Fault::Write => "injected fault: write failed",
            Fault::Sync => "injected fault: sync failed",
            Fault::DirSync => "injected fault: dir sync failed",
            Fault::Writeback => "injected fault: writeback failed (EIO)",
        }
    }
}

/// A file system with faults: what it lets each operation do.
#[derive(Debug)]
pub struct FaultFs {
    pub plan: FaultPlan,
    pub ops: u64,
    pub writes: u64,
    pub syncs: u64,
    pub crashed: bool,
    /// Files that lost a write; their syncs fail.
    pub poisoned: Vec<String>,
    pub log: Vec<String>,
}

/// A [`FaultFs`] by value.
#[verifier::ext_equal]
pub ghost struct FaultView {
    pub plan: FaultPlan,
    pub ops: u64,
    pub writes: u64,
    pub syncs: u64,
    pub crashed: bool,
    pub poisoned: Seq<Seq<char>>,
    pub log: Seq<Seq<char>>,
}

impl View for FaultFs {
    type V = FaultView;

    open spec fn view(&self) -> FaultView {
        FaultView {
            plan: self.plan,
            ops: self.ops,
            writes: self.writes,
            syncs: self.syncs,
            crashed: self.crashed,
            poisoned: views(self.poisoned@),
            log: views(self.log@),
        }
    }
}

/// A state before any operation.
pub open spec fn fresh(plan: FaultPlan) -> FaultView {
    FaultView {
        plan,
        ops: 0,
        writes: 0,
        syncs: 0,
        crashed: false,
        poisoned: Seq::empty(),
        log: Seq::empty(),
    }
}

/// What an operation does to the state, and whether it goes ahead.
pub open spec fn operated(s: FaultView, desc: Seq<char>) -> (FaultView, Option<Fault>) {
    if s.crashed {
        (s, Some(Fault::Dead))
    } else if s.plan.crash_at_op == Some((s.ops + 1) as u64) {
        (
            FaultView {
                ops: (s.ops + 1) as u64,
                crashed: true,
                log: s.log.push("CRASH before: "@ + desc),
                ..s
            },
            Some(Fault::Crash),
        )
    } else {
        (FaultView { ops: (s.ops + 1) as u64, log: s.log.push(desc), ..s }, None)
    }
}

/// What writing to a file does: fails, loses the bytes, or writes them.
pub open spec fn wrote(s: FaultView, path: Seq<char>, name: Seq<char>) -> (
    FaultView,
    core::result::Result<bool, Fault>,
) {
    let (t, fault) = operated(s, "write "@ + name);
    match fault {
        Some(f) => (t, Err(f)),
        None => {
            let n = (t.writes + 1) as u64;
            if t.plan.fail_write == Some(n) {
                (FaultView { writes: n, ..t }, Err(Fault::Write))
            } else if t.plan.discard_write == Some(n) {
                (
                    FaultView {
                        writes: n,
                        poisoned: if t.poisoned.contains(path) {
                            t.poisoned
                        } else {
                            t.poisoned.push(path)
                        },
                        ..t
                    },
                    Ok(false),
                )
            } else {
                (FaultView { writes: n, ..t }, Ok(true))
            }
        },
    }
}

/// What syncing a file does.
pub open spec fn synced(s: FaultView, path: Seq<char>, name: Seq<char>) -> (
    FaultView,
    Option<Fault>,
) {
    let (t, fault) = operated(s, "sync "@ + name);
    match fault {
        Some(f) => (t, Some(f)),
        None => {
            let n = (t.syncs + 1) as u64;
            let u = FaultView { syncs: n, ..t };
            if t.plan.fail_sync == Some(n) {
                (u, Some(Fault::Sync))
            } else if t.poisoned.contains(path) {
                (u, Some(Fault::Writeback))
            } else {
                (u, None)
            }
        },
    }
}

/// What syncing a directory does. It counts with the syncs of files.
pub open spec fn dir_synced(s: FaultView, name: Seq<char>) -> (FaultView, Option<Fault>) {
    let (t, fault) = operated(s, "sync_dir "@ + name);
    match fault {
        Some(f) => (t, Some(f)),
        None => {
            let n = (t.syncs + 1) as u64;
            (
                FaultView { syncs: n, ..t },
                if t.plan.fail_sync == Some(n) {
                    Some(Fault::DirSync)
                } else {
                    None
                },
            )
        },
    }
}

impl FaultFs {
    /// A state before any operation.
    pub fn new(plan: FaultPlan) -> (s: Self)
        ensures
            s@ == fresh(plan),
    {
        let s = FaultFs {
            plan,
            ops: 0,
            writes: 0,
            syncs: 0,
            crashed: false,
            poisoned: Vec::new(),
            log: Vec::new(),
        };
        assert(s@ =~= fresh(plan));
        s
    }

    /// Forgets everything but the plan.
    pub fn reset(&mut self)
        ensures
            final(self)@ == fresh(old(self).plan),
    {
        let plan: FaultPlan = self.plan;
        *self = FaultFs::new(plan);
    }

    /// Has other faults from now on.
    pub fn set_plan(&mut self, plan: FaultPlan)
        ensures
            final(self)@ == (FaultView { plan, ..old(self)@ }),
    {
        self.plan = plan;
    }

    /// Every operation so far.
    pub fn log(&self) -> (r: &Vec<String>)
        ensures
            views(r@) == self@.log,
    {
        &self.log
    }

    /// How many operations there were.
    pub fn op_count(&self) -> (n: u64)
        ensures
            n == self@.ops,
    {
        self.ops
    }

    /// How many writes there were.
    pub fn write_count(&self) -> (n: u64)
        ensures
            n == self@.writes,
    {
        self.writes
    }

    /// How many syncs there were, of files and of the directory.
    pub fn sync_count(&self) -> (n: u64)
        ensures
            n == self@.syncs,
    {
        self.syncs
    }

    /// Logs an operation; fails where the plan has it crash, and ever after.
    pub fn op(&mut self, desc: &str) -> (r: Option<Fault>)
        requires
            old(self).ops < u64::MAX,
        ensures
            (final(self)@, r) == operated(old(self)@, desc@),
    {
        let ghost was = self@;
        if self.crashed {
            return Some(Fault::Dead);
        }
        self.ops = self.ops + 1;
        let crash: bool = match self.plan.crash_at_op {
            Some(n) => n == self.ops,
            None => false,
        };
        if crash {
            self.crashed = true;
            let mut line: String = "CRASH before: ".to_string();
            line.push_str(desc);
            self.log.push(line);
            assert(views(self.log@) =~= was.log.push("CRASH before: "@ + desc@));
            return Some(Fault::Crash);
        }
        self.log.push(desc.to_string());
        assert(views(self.log@) =~= was.log.push(desc@));
        None
    }

    /// A write to the file `path`, which the log calls `name`. `Ok(false)`: its
    /// bytes are to be lost.
    pub fn write(&mut self, path: &str, name: &str) -> (r: core::result::Result<bool, Fault>)
        requires
            old(self).ops < u64::MAX,
            old(self).writes < u64::MAX,
        ensures
            (final(self)@, r) == wrote(old(self)@, path@, name@),
    {
        let mut desc: String = "write ".to_string();
        desc.push_str(name);
        match self.op(desc.as_str()) {
            Some(f) => {
                return Err(f);
            },
            None => {},
        }
        let ghost mid = self@;
        self.writes = self.writes + 1;
        let fail: bool = match self.plan.fail_write {
            Some(n) => n == self.writes,
            None => false,
        };
        if fail {
            return Err(Fault::Write);
        }
        let lose: bool = match self.plan.discard_write {
            Some(n) => n == self.writes,
            None => false,
        };
        if lose {
            if !is_among(&self.poisoned, path) {
                self.poisoned.push(path.to_string());
                assert(views(self.poisoned@) =~= mid.poisoned.push(path@));
            }
            return Ok(false);
        }
        Ok(true)
    }

    /// A sync of the file `path`, which the log calls `name`.
    pub fn sync(&mut self, path: &str, name: &str) -> (r: Option<Fault>)
        requires
            old(self).ops < u64::MAX,
            old(self).syncs < u64::MAX,
        ensures
            (final(self)@, r) == synced(old(self)@, path@, name@),
    {
        let mut desc: String = "sync ".to_string();
        desc.push_str(name);
        match self.op(desc.as_str()) {
            Some(f) => {
                return Some(f);
            },
            None => {},
        }
        self.syncs = self.syncs + 1;
        let fail: bool = match self.plan.fail_sync {
            Some(n) => n == self.syncs,
            None => false,
        };
        if fail {
            return Some(Fault::Sync);
        }
        if is_among(&self.poisoned, path) {
            return Some(Fault::Writeback);
        }
        None
    }
}

impl FaultFs {
    /// A sync of the directory, which the log calls `name`.
    pub fn sync_dir(&mut self, name: &str) -> (r: Option<Fault>)
        requires
            old(self).ops < u64::MAX,
            old(self).syncs < u64::MAX,
        ensures
            (final(self)@, r) == dir_synced(old(self)@, name@),
    {
        let mut desc: String = "sync_dir ".to_string();
        desc.push_str(name);
        match self.op(desc.as_str()) {
            Some(f) => {
                return Some(f);
            },
            None => {},
        }
        self.syncs = self.syncs + 1;
        let fail: bool = match self.plan.fail_sync {
            Some(n) => n == self.syncs,
            None => false,
        };
        if fail {
            return Some(Fault::DirSync);
        }
        None
    }
}

/// After a crash every operation fails and changes nothing.
pub proof fn lemma_dead_stays_dead(s: FaultView, path: Seq<char>, name: Seq<char>)
    requires
        s.crashed,
    ensures
        operated(s, name) == (s, Some(Fault::Dead)),
        wrote(s, path, name) == (s, Err::<bool, Fault>(Fault::Dead)),
        synced(s, path, name) == (s, Some(Fault::Dead)),
        dir_synced(s, name) == (s, Some(Fault::Dead)),
{
}

/// A file that lost a write fails its next sync, unless that sync was to fail
/// or crash anyway.
pub proof fn lemma_lost_write_shows(s: FaultView, path: Seq<char>, name: Seq<char>)
    requires
        wrote(s, path, name).1 == Ok::<bool, Fault>(false),
    ensures
        synced(wrote(s, path, name).0, path, name).1 is Some,
{
    let t = wrote(s, path, name).0;
    let mid = operated(s, "write "@ + name).0;
    if !mid.poisoned.contains(path) {
        assert(t.poisoned[t.poisoned.len() - 1] == path);
    }
    assert(t.poisoned.contains(path));
}

/// An operation is counted and noted, and crashes where the plan says so and nowhere else.
pub proof fn lemma_operation_is_counted(s: FaultView, desc: Seq<char>)
    requires
        !s.crashed,
        s.ops < u64::MAX,
    ensures
        ({
            let (t, f) = operated(s, desc);
            let crashes = s.plan.crash_at_op is Some && s.plan.crash_at_op->0 == s.ops + 1;
            &&& t.ops == s.ops + 1
            &&& t.crashed <==> crashes
            &&& f == if crashes {
                Some(Fault::Crash)
            } else {
                None
            }
            &&& t.log.len() == s.log.len() + 1
            &&& t.log.drop_last() == s.log
            &&& !crashes ==> t.log.last() == desc
            &&& crashes ==> t.log.last() == "CRASH before: "@ + desc
            &&& t.plan == s.plan && t.writes == s.writes && t.syncs == s.syncs && t.poisoned
                == s.poisoned
        }),
{
    let (t, f) = operated(s, desc);
    assert(t.log.drop_last() =~= s.log);
}

/// A write is counted; the one that the plan names fails or is lost, and no other.
pub proof fn lemma_write_is_counted(s: FaultView, path: Seq<char>, name: Seq<char>, p: Seq<char>)
    requires
        operated(s, "write "@ + name).1 is None,
        s.ops < u64::MAX,
        s.writes < u64::MAX,
    ensures
        ({
            let (t, r) = wrote(s, path, name);
            let fails = s.plan.fail_write is Some && s.plan.fail_write->0 == s.writes + 1;
            let lost = s.plan.discard_write is Some && s.plan.discard_write->0 == s.writes + 1;
            &&& t.writes == s.writes + 1
            &&& r == if fails {
                Err(Fault::Write)
            } else {
                Ok::<bool, Fault>(!lost)
            }
            &&& t.poisoned.contains(p) <==> s.poisoned.contains(p) || lost && !fails && p == path
            &&& t.ops == s.ops + 1 && t.syncs == s.syncs && t.plan == s.plan && !t.crashed
        }),
{
    let (t, r) = wrote(s, path, name);
    lemma_push_contains(s.poisoned, path, p);
}

/// A sync is counted, of a file or of a directory; the one that the plan names fails, and that of
/// a file which lost a write.
pub proof fn lemma_sync_is_counted(s: FaultView, path: Seq<char>, name: Seq<char>)
    requires
        !s.crashed,
        s.ops < u64::MAX,
        s.plan.crash_at_op is Some ==> s.plan.crash_at_op->0 != s.ops + 1,
        s.syncs < u64::MAX,
    ensures
        ({
            let (t, f) = synced(s, path, name);
            let (u, g) = dir_synced(s, name);
            let fails = s.plan.fail_sync is Some && s.plan.fail_sync->0 == s.syncs + 1;
            &&& t.syncs == s.syncs + 1 && u.syncs == s.syncs + 1
            &&& f == if fails {
                Some(Fault::Sync)
            } else if s.poisoned.contains(path) {
                Some(Fault::Writeback)
            } else {
                None
            }
            &&& g == if fails {
                Some(Fault::DirSync)
            } else {
                None
            }
            &&& t.poisoned == s.poisoned && u.poisoned == s.poisoned
            &&& t.ops == s.ops + 1 && u.ops == s.ops + 1
            &&& t.writes == s.writes && u.writes == s.writes
            &&& !t.crashed && !u.crashed
        }),
{
}

} // verus!
