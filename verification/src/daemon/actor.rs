//! What the daemon keeps for one root. Every change to a root goes through one
//! place: reconciles one after the other, and one merge in the background at a
//! time.

use vstd::prelude::*;

use crate::daemon::protocol::text_view;
use crate::format::manifest::SegmentEntry;
use crate::store::governor::{idle_time, throttled, Governor};
use crate::store::segment::Moment;
use crate::text::{decimal, push_decimal};

verus! {

/// What came of a reconcile.
#[derive(Debug)]
pub struct ReconcileOutcome {
    pub generation: u64,
    pub docs: usize,
    pub segments: u32,
    pub changed: bool,
    pub elapsed_ms: u64,
}

/// Whether a merge was started, and why not.
#[derive(Debug)]
pub struct MergeStarted {
    pub started: bool,
    pub reason: Option<String>,
}

/// The state of a root. Times are in milliseconds, moments since 1970.
#[derive(Debug)]
pub struct RootStatus {
    pub root: String,
    pub docs: usize,
    pub docs_indexed: u32,
    pub segments: u32,
    pub on_disk_bytes: u64,
    pub generation: u64,
    pub last_reconcile_unix_ms: Option<u64>,
    pub last_reconcile_ms: Option<u64>,
    pub last_reconcile_error: Option<String>,
    pub merge_running: bool,
    pub last_merge_unix_ms: Option<u64>,
    pub last_merge_result: Option<String>,
    pub watcher_healthy: bool,
}

/// What a snapshot of the root's index shows.
#[derive(Debug, Clone, Copy, PartialEq, Eq, Structural)]
pub struct Seen {
    pub generation: u64,
    pub docs: u32,
    pub docs_indexed: u32,
    pub segments: u32,
    pub on_disk_bytes: u64,
}

/// The last reconcile.
#[derive(Debug)]
pub struct LastReconcile {
    pub unix_ms: u64,
    pub elapsed_ms: u64,
    pub error: Option<String>,
}

/// The last merge.
#[derive(Debug)]
pub struct LastMerge {
    pub unix_ms: u64,
    pub result: String,
}

/// What the daemon keeps for one root.
#[derive(Debug)]
pub struct RootActor {
    pub merging: bool,
    pub last_reconcile: Option<LastReconcile>,
    pub last_merge: Option<LastMerge>,
    pub watcher_healthy: bool,
}

/// How a merge in the background ended.
#[derive(Debug)]
pub enum MergeEnd {
    /// It could not be prepared or committed: why.
    Failed(String),
    /// There was nothing to merge.
    Nothing,
    /// So many groups were merged.
    Merged(usize),
}

/// What is told of the end of a merge.
pub open spec fn merge_result(end: MergeEnd) -> Seq<char> {
    match end {
        MergeEnd::Failed(why) => "error: "@ + why@,
        MergeEnd::Nothing => "nothing to merge (planned 0 groups, prepared 0)"@,
        MergeEnd::Merged(n) => "merged "@ + decimal(n as nat) + " group(s)"@,
    }
}

/// Milliseconds since 1970 as far as they fit in 64 bits, or zero for an earlier
/// moment.
pub open spec fn unix_ms(t: Moment) -> u64 {
    if t.before_epoch && t.distance() > 0 {
        0
    } else {
        ((t.secs * 1000 + t.nanos / 1_000_000) as u128) as u64
    }
}

/// Milliseconds since 1970, or zero for an earlier moment.
pub fn to_unix_ms(t: Moment) -> (ms: u64)
    ensures
        ms == unix_ms(t),
{
    if t.before_epoch && (t.secs > 0 || t.nanos > 0) {
        0
    } else {
        #[verifier::truncate]
        ((t.secs as u128 * 1000 + t.nanos as u128 / 1_000_000) as u64)
    }
}

/// A merge was asked for, and answered with `r`: it starts unless one is running.
pub open spec fn merge_asked(was: RootActor, after: RootActor, r: MergeStarted) -> bool {
    &&& r.started == !was.merging
    &&& text_view(r.reason) == if was.merging {
        Some("a merge is already running for this root"@)
    } else {
        None
    }
    &&& after == (RootActor { merging: true, ..was })
}

/// The merge ended: none is running, and how it ended is kept.
pub open spec fn merge_ended(was: RootActor, after: RootActor, end: MergeEnd, now: Moment) -> bool {
    &&& !after.merging
    &&& after.last_reconcile == was.last_reconcile
    &&& after.watcher_healthy == was.watcher_healthy
    &&& after.last_merge matches Some(last) && {
        &&& last.unix_ms == unix_ms(now)
        &&& last.result@ == merge_result(end)
    }
}

impl RootActor {
    /// For a root about which nothing is known yet.
    pub fn new() -> (a: Self)
        ensures
            !a.merging,
            a.last_reconcile is None,
            a.last_merge is None,
            a.watcher_healthy,
    {
        RootActor { merging: false, last_reconcile: None, last_merge: None, watcher_healthy: true }
    }

    /// Takes in what came of a reconcile: what a fresh snapshot shows, or why it
    /// failed. `before` is the generation from before.
    pub fn reconciled(
        &mut self,
        before: u64,
        result: Result<Seen, String>,
        elapsed_ms: u64,
        now: Moment,
    ) -> (r: Result<ReconcileOutcome, String>)
        ensures
            final(self).merging == old(self).merging,
            final(self).last_merge == old(self).last_merge,
            final(self).watcher_healthy == old(self).watcher_healthy,
            final(self).last_reconcile matches Some(last) && {
                &&& last.unix_ms == unix_ms(now)
                &&& last.elapsed_ms == elapsed_ms
                &&& text_view(last.error) == match result {
                    Ok(_) => None::<Seq<char>>,
                    Err(why) => Some(why@),
                }
            },
            match (result, r) {
                (Ok(seen), Ok(o)) => {
                    &&& o.generation == seen.generation
                    &&& o.docs == seen.docs
                    &&& o.segments == seen.segments
                    &&& o.changed == (seen.generation != before)
                    &&& o.elapsed_ms == elapsed_ms
                },
                (Err(why), Err(e)) => e == why,
                _ => false,
            },
    {
        let unix_ms: u64 = to_unix_ms(now);
        match result {
            Ok(seen) => {
                self.last_reconcile = Some(LastReconcile { unix_ms, elapsed_ms, error: None });
                Ok(
                    ReconcileOutcome {
                        generation: seen.generation,
                        docs: seen.docs as usize,
                        segments: seen.segments,
                        changed: seen.generation != before,
                        elapsed_ms,
                    },
                )
            },
            Err(why) => {
                self.last_reconcile = Some(
                    LastReconcile { unix_ms, elapsed_ms, error: Some(why.clone()) },
                );
                Err(why)
            },
        }
    }

    /// Starts a merge unless one is running: a second one is refused, not
    /// queued.
    pub fn start_merge(&mut self) -> (r: MergeStarted)
        ensures
            merge_asked(*old(self), *final(self), r),
    {
        if self.merging {
            return MergeStarted {
                started: false,
                reason: Some("a merge is already running for this root".to_string()),
            };
        }
        self.merging = true;
        MergeStarted { started: true, reason: None }
    }

    /// Takes in how the merge in the background ended.
    pub fn finish_merge(&mut self, end: MergeEnd, now: Moment)
        ensures
            merge_ended(*old(self), *final(self), end, now),
    {
        self.merging = false;
        let result = match &end {
            MergeEnd::Failed(why) => {
                let mut r: String = "error: ".to_string();
                r.push_str(why.as_str());
                r
            },
            MergeEnd::Nothing => "nothing to merge (planned 0 groups, prepared 0)".to_string(),
            MergeEnd::Merged(n) => {
                let mut r: String = "merged ".to_string();
                push_decimal(&mut r, *n as u64);
                r.push_str(" group(s)");
                r
            },
        };
        self.last_merge = Some(LastMerge { unix_ms: to_unix_ms(now), result });
    }

    /// Takes in whether the watcher works.
    pub fn set_watcher_healthy(&mut self, healthy: bool)
        ensures
            *final(self) == (RootActor { watcher_healthy: healthy, ..*old(self) }),
    {
        self.watcher_healthy = healthy;
    }

    /// The state of the root.
    pub fn status(&self, root: &str, seen: &Seen) -> (s: RootStatus)
        ensures
            s.root@ == root@,
            s.docs == seen.docs,
            s.docs_indexed == seen.docs_indexed,
            s.segments == seen.segments,
            s.on_disk_bytes == seen.on_disk_bytes,
            s.generation == seen.generation,
            s.merge_running == self.merging,
            s.watcher_healthy == self.watcher_healthy,
            match self.last_reconcile {
                Some(last) => {
                    &&& s.last_reconcile_unix_ms == Some(last.unix_ms)
                    &&& s.last_reconcile_ms == Some(last.elapsed_ms)
                    &&& text_view(s.last_reconcile_error) == text_view(last.error)
                },
                None => {
                    &&& s.last_reconcile_unix_ms is None
                    &&& s.last_reconcile_ms is None
                    &&& s.last_reconcile_error is None
                },
            },
            match self.last_merge {
                Some(last) => s.last_merge_unix_ms == Some(last.unix_ms) && text_view(
                    s.last_merge_result,
                ) == Some(last.result@),
                None => s.last_merge_unix_ms is None && s.last_merge_result is None,
            },
    {
        let (reconcile_unix_ms, reconcile_ms, reconcile_error) = match &self.last_reconcile {
            Some(last) => {
                let error = match &last.error {
                    Some(e) => Some(e.clone()),
                    None => None,
                };
                (Some(last.unix_ms), Some(last.elapsed_ms), error)
            },
            None => (None, None, None),
        };
        let (merge_unix_ms, merge_result) = match &self.last_merge {
            Some(last) => (Some(last.unix_ms), Some(last.result.clone())),
            None => (None, None),
        };
        RootStatus {
            root: root.to_string(),
            docs: seen.docs as usize,
            docs_indexed: seen.docs_indexed,
            segments: seen.segments,
            on_disk_bytes: seen.on_disk_bytes,
            generation: seen.generation,
            last_reconcile_unix_ms: reconcile_unix_ms,
            last_reconcile_ms: reconcile_ms,
            last_reconcile_error: reconcile_error,
            merge_running: self.merging,
            last_merge_unix_ms: merge_unix_ms,
            last_merge_result: merge_result,
            watcher_healthy: self.watcher_healthy,
        }
    }
}

/// The bytes of the first segment with this id among the first `n`.
pub open spec fn segment_bytes(segments: Seq<SegmentEntry>, id: u32, n: int) -> int
    decreases n,
{
    if n <= 0 {
        0
    } else if (exists|k: int| 0 <= k < n - 1 && (#[trigger] segments[k]).segment_id == id) {
        segment_bytes(segments, id, n - 1)
    } else if segments[n - 1].segment_id == id {
        segments[n - 1].bytes_total()
    } else {
        0
    }
}

/// The bytes of the segments with the first `n` of these ids.
pub open spec fn bytes_of(segments: Seq<SegmentEntry>, ids: Seq<u32>, n: int) -> int
    decreases n,
{
    if n <= 0 {
        0
    } else {
        bytes_of(segments, ids, n - 1) + segment_bytes(
            segments,
            ids[n - 1],
            segments.len() as int,
        )
    }
}

proof fn lemma_bytes_grow(segments: Seq<SegmentEntry>, ids: Seq<u32>, n: int, m: int)
    requires
        0 <= n <= m <= ids.len(),
    ensures
        0 <= bytes_of(segments, ids, n) <= bytes_of(segments, ids, m),
    decreases m,
{
    if n < m {
        lemma_bytes_grow(segments, ids, n, m - 1);
        lemma_segment_bytes(segments, ids[m - 1], segments.len() as int);
    } else if m > 0 {
        lemma_bytes_grow(segments, ids, n - 1, m - 1);
        lemma_segment_bytes(segments, ids[m - 1], segments.len() as int);
    }
}

proof fn lemma_segment_bytes(segments: Seq<SegmentEntry>, id: u32, n: int)
    requires
        0 <= n <= segments.len(),
    ensures
        0 <= segment_bytes(segments, id, n),
    decreases n,
{
    if n > 0 {
        lemma_segment_bytes(segments, id, n - 1);
    }
}

proof fn lemma_found(segments: Seq<SegmentEntry>, id: u32, i: int, n: int)
    requires
        0 <= i < n <= segments.len(),
        segments[i].segment_id == id,
        forall|k: int| 0 <= k < i ==> (#[trigger] segments[k]).segment_id != id,
    ensures
        segment_bytes(segments, id, n) == segments[i].bytes_total(),
    decreases n,
{
    if n > i + 1 {
        assert(segments[i].segment_id == id);
        lemma_found(segments, id, i, n - 1);
    }
}

proof fn lemma_not_found(segments: Seq<SegmentEntry>, id: u32, n: int)
    requires
        0 <= n <= segments.len(),
        forall|k: int| 0 <= k < n ==> (#[trigger] segments[k]).segment_id != id,
    ensures
        segment_bytes(segments, id, n) == 0,
{
}

/// The bytes of a group of segments: what preparing their merge will read.
pub fn group_bytes(segments: &[SegmentEntry], group: &[u32]) -> (bytes: u64)
    requires
        bytes_of(segments@, group@, group@.len() as int) <= u64::MAX,
        forall|k: int|
            0 <= k < segments@.len() ==> (#[trigger] segments@[k]).bytes_total() <= u64::MAX,
    ensures
        bytes == bytes_of(segments@, group@, group@.len() as int),
{
    let mut bytes: u64 = 0;
    let mut g: usize = 0;
    while g < group.len()
        invariant
            g <= group@.len(),
            bytes == bytes_of(segments@, group@, g as int),
            bytes_of(segments@, group@, group@.len() as int) <= u64::MAX,
            forall|k: int|
                0 <= k < segments@.len() ==> (#[trigger] segments@[k]).bytes_total() <= u64::MAX,
        decreases group@.len() - g,
    {
        let id: u32 = group[g];
        proof {
            lemma_bytes_grow(segments@, group@, g + 1, group@.len() as int);
        }
        let mut i: usize = 0;
        while i < segments.len() && segments[i].segment_id != id
            invariant
                i <= segments@.len(),
                forall|k: int| 0 <= k < i ==> (#[trigger] segments@[k]).segment_id != id,
            decreases segments@.len() - i,
        {
            i = i + 1;
        }
        if i < segments.len() {
            proof {
                lemma_found(segments@, id, i as int, segments@.len() as int);
            }
            bytes = bytes + segments[i].total_bytes();
        } else {
            proof {
                lemma_not_found(segments@, id, segments@.len() as int);
            }
        }
        g = g + 1;
    }
    bytes
}

/// Where the preparation of a merge stands.
#[derive(Debug, Clone, Copy, PartialEq, Eq, Structural)]
pub enum MergeStage {
    /// About to see whether the next group may be worked on.
    Looking,
    /// Held back before a group.
    HeldBack,
    /// Preparing a group.
    Preparing,
    /// Idling behind a group.
    Resting,
    /// Over.
    Over,
}

/// The preparation of a merge, group by group, held back by a governor.
#[derive(Debug)]
pub struct MergeRun {
    pub governor: Governor,
    /// The bytes of each group.
    pub bytes: Vec<u64>,
    /// How many groups are prepared.
    pub prepared: usize,
    pub stage: MergeStage,
}

/// What happened.
#[derive(Debug)]
pub enum MergeStep {
    /// The power, the memory, and the time in milliseconds.
    Looked { on_battery: bool, memory_pressure: bool, now_ms: u64 },
    /// The wait is over.
    Waited,
    /// The group is prepared; so long it took.
    Prepared { spent_ms: u64 },
    /// The group could not be prepared: why.
    Failed(String),
}

/// What to do next.
#[derive(Debug)]
pub enum MergeWork {
    /// See how power, memory and time stand.
    Look,
    /// Wait so many milliseconds.
    Wait(u64),
    /// Prepare the group at this place.
    Prepare(usize),
    /// Every group is prepared: commit.
    Commit,
    /// Discard what is prepared: why.
    Discard(String),
}

/// The wait that is asked for.
pub open spec fn wait_of(work: MergeWork) -> u64 {
    match work {
        MergeWork::Wait(ms) => ms,
        _ => 0,
    }
}

impl MergeRun {
    pub open spec fn wf(&self) -> bool {
        &&& self.governor.wf()
        &&& self.prepared <= self.bytes@.len()
        &&& self.stage != MergeStage::Over && self.stage != MergeStage::Resting ==> self.prepared
            < self.bytes@.len()
    }

    /// The stage and the work once `prepared` groups are done.
    pub open spec fn goes_on(&self, prepared: int, stage: MergeStage, work: MergeWork) -> bool {
        if prepared < self.bytes@.len() {
            stage == MergeStage::Looking && work == MergeWork::Look
        } else {
            stage == MergeStage::Over && work == MergeWork::Commit
        }
    }

    /// For groups of so many bytes.
    pub fn new(governor: Governor, bytes: Vec<u64>) -> (r: (Self, MergeWork))
        requires
            governor.wf(),
        ensures
            r.0.wf(),
            r.0.governor == governor,
            r.0.bytes == bytes,
            r.0.prepared == 0,
            r.0.goes_on(0, r.0.stage, r.1),
    {
        let (stage, work) = if bytes.len() > 0 {
            (MergeStage::Looking, MergeWork::Look)
        } else {
            (MergeStage::Over, MergeWork::Commit)
        };
        (MergeRun { governor, bytes, prepared: 0, stage }, work)
    }

    fn next(&mut self) -> (work: MergeWork)
        requires
            old(self).prepared <= old(self).bytes@.len(),
        ensures
            *final(self) == (MergeRun { stage: final(self).stage, ..*old(self) }),
            final(self).goes_on(final(self).prepared as int, final(self).stage, work),
    {
        if self.prepared < self.bytes.len() {
            self.stage = MergeStage::Looking;
            MergeWork::Look
        } else {
            self.stage = MergeStage::Over;
            MergeWork::Commit
        }
    }

    /// Takes in what happened and says what to do next. The governor is asked
    /// before a group with its bytes, and behind a group with the time that it
    /// took. What does not fit the stage ends the run.
    pub fn step(&mut self, step: MergeStep) -> (work: MergeWork)
        requires
            old(self).wf(),
        ensures
            final(self).wf(),
            final(self).bytes == old(self).bytes,
            match (old(self).stage, step) {
                (
                    MergeStage::Looking,
                    MergeStep::Looked { on_battery, memory_pressure, now_ms },
                ) => {
                    &&& final(self).prepared == old(self).prepared
                    &&& throttled(
                        old(self).governor,
                        final(self).governor,
                        on_battery,
                        memory_pressure,
                        now_ms,
                        old(self).bytes@[old(self).prepared as int],
                        wait_of(work),
                    )
                    &&& if wait_of(work) > 0 {
                        final(self).stage == MergeStage::HeldBack
                    } else {
                        final(self).stage == MergeStage::Preparing && work == MergeWork::Prepare(
                            old(self).prepared,
                        )
                    }
                },
                (MergeStage::HeldBack, MergeStep::Waited) => {
                    &&& *final(self) == (MergeRun { stage: MergeStage::Preparing, ..*old(self) })
                    &&& work == MergeWork::Prepare(old(self).prepared)
                },
                (MergeStage::Preparing, MergeStep::Prepared { spent_ms }) => {
                    &&& final(self).governor == old(self).governor
                    &&& final(self).prepared == old(self).prepared + 1
                    &&& ({
                        let idle = idle_time(
                            old(self).governor.duty.ppm as int,
                            spent_ms as int,
                        );
                        if idle > 0 {
                            final(self).stage == MergeStage::Resting && work == MergeWork::Wait(
                                if idle <= u64::MAX {
                                    idle as u64
                                } else {
                                    u64::MAX
                                },
                            )
                        } else {
                            final(self).goes_on(
                                final(self).prepared as int,
                                final(self).stage,
                                work,
                            )
                        }
                    })
                },
                (MergeStage::Preparing, MergeStep::Failed(why)) => {
                    &&& *final(self) == (MergeRun { stage: MergeStage::Over, ..*old(self) })
                    &&& work == MergeWork::Discard(why)
                },
                (MergeStage::Resting, MergeStep::Waited) => {
                    &&& *final(self) == (MergeRun { stage: final(self).stage, ..*old(self) })
                    &&& final(self).goes_on(final(self).prepared as int, final(self).stage, work)
                },
                _ => {
                    &&& *final(self) == (MergeRun { stage: MergeStage::Over, ..*old(self) })
                    &&& work matches MergeWork::Discard(why) && why@ == "out of step"@
                },
            },
            work is Commit ==> final(self).prepared == final(self).bytes@.len(),
            work matches MergeWork::Prepare(i) ==> i == final(self).prepared,
    {
        match (self.stage, step) {
            (MergeStage::Looking, MergeStep::Looked { on_battery, memory_pressure, now_ms }) => {
                let bytes: u64 = self.bytes[self.prepared];
                let wait: u64 = self.governor.throttle(on_battery, memory_pressure, now_ms, bytes);
                if wait > 0 {
                    self.stage = MergeStage::HeldBack;
                    MergeWork::Wait(wait)
                } else {
                    self.stage = MergeStage::Preparing;
                    MergeWork::Prepare(self.prepared)
                }
            },
            (MergeStage::HeldBack, MergeStep::Waited) => {
                self.stage = MergeStage::Preparing;
                MergeWork::Prepare(self.prepared)
            },
            (MergeStage::Preparing, MergeStep::Prepared { spent_ms }) => {
                assert(self.bytes@.len() == self.bytes.len());
                self.prepared = self.prepared + 1;
                let idle: u64 = self.governor.after_cpu_work(spent_ms);
                if idle > 0 {
                    self.stage = MergeStage::Resting;
                    MergeWork::Wait(idle)
                } else {
                    self.next()
                }
            },
            (MergeStage::Preparing, MergeStep::Failed(why)) => {
                self.stage = MergeStage::Over;
                MergeWork::Discard(why)
            },
            (MergeStage::Resting, MergeStep::Waited) => self.next(),
            _ => {
                self.stage = MergeStage::Over;
                MergeWork::Discard("out of step".to_string())
            },
        }
    }
}

/// Hands out numbers that differ, from a counter.
pub fn next_id(counter: &mut u64) -> (id: u64)
    ensures
        id == *old(counter),
        *final(counter) == if id == u64::MAX {
            0
        } else {
            (id + 1) as u64
        },
{
    let id: u64 = *counter;
    *counter = id.wrapping_add(1);
    id
}

/// What happens to a root.
pub ghost enum RootEvent {
    /// A merge was asked for, and this was answered.
    Asked(MergeStarted),
    /// The merge that was running ended.
    Ended(MergeEnd, Moment),
    /// Anything else, which no merge depends on.
    Other,
}

/// The event leads from one state of the root to the other.
pub open spec fn leads(was: RootActor, e: RootEvent, after: RootActor) -> bool {
    match e {
        RootEvent::Asked(r) => merge_asked(was, after, r),
        RootEvent::Ended(end, now) => was.merging && merge_ended(was, after, end, now),
        RootEvent::Other => after.merging == was.merging,
    }
}

/// The states of a root from its start on, one behind each event.
pub open spec fn history(states: Seq<RootActor>, es: Seq<RootEvent>) -> bool {
    &&& states.len() == es.len() + 1
    &&& !states[0].merging
    &&& forall|i: int|
        #![trigger es[i]]
        0 <= i < es.len() ==> leads(states[i], es[i], states[i + 1])
}

/// How many merges were started.
pub open spec fn started(es: Seq<RootEvent>) -> nat
    decreases es.len(),
{
    if es.len() == 0 {
        0
    } else {
        started(es.drop_last()) + match es.last() {
            RootEvent::Asked(r) => if r.started {
                1nat
            } else {
                0
            },
            _ => 0,
        }
    }
}

/// How many merges ended.
pub open spec fn ended(es: Seq<RootEvent>) -> nat
    decreases es.len(),
{
    if es.len() == 0 {
        0
    } else {
        ended(es.drop_last()) + if es.last() is Ended {
            1nat
        } else {
            0
        }
    }
}

/// However often a merge is asked for, one at most is running: as many were started
/// as have ended, and one more exactly while the root says that one is running.
pub proof fn lemma_one_merge_at_a_time(states: Seq<RootActor>, es: Seq<RootEvent>)
    requires
        history(states, es),
    ensures
        started(es) == ended(es) + if states.last().merging {
            1nat
        } else {
            0
        },
    decreases es.len(),
{
    if es.len() > 0 {
        let front = es.drop_last();
        let before = states.drop_last();
        assert forall|i: int| #![trigger front[i]] 0 <= i < front.len() implies leads(
            before[i],
            front[i],
            before[i + 1],
        ) by {
            assert(es[i] == front[i]);
        }
        lemma_one_merge_at_a_time(before, front);
        assert(leads(states[es.len() - 1], es[es.len() - 1], states[es.len() as int]));
    }
}

} // verus!
