//! When the watcher reconciles.
//!
//! What the watcher reports is a hint, never the truth: queues overflow, events
//! merge, and nothing orders an event against the state of the files when it is
//! handled. Every hint, an overflow too, just schedules a reconcile, which
//! decides by itself what changed. The schedule gathers a burst of hints into
//! one trigger, and triggers from time to time whatever was reported.

use vstd::prelude::*;

verus! {

/// What came of waiting for an event.
#[derive(Debug, Clone, Copy, PartialEq, Eq, Structural)]
pub enum RecvOutcome {
    /// Something changed; what else was queued is gone with it.
    Hint,
    /// The watcher reported a problem: a reason to reconcile like any other.
    Overflow,
    /// No event in the time asked for.
    Timeout,
    /// There will be no event any more.
    Closed,
}

/// How triggers are spaced. Times are in milliseconds.
#[derive(Debug, Clone, Copy, PartialEq, Eq, Structural)]
pub struct WatchConfig {
    /// Hints within this quiet time of each other are one trigger. Default 500.
    pub debounce_ms: u64,
    /// At least this often there is a trigger even without hints: the bound on
    /// how long a lost event can leave the index wrong. Default ten minutes.
    pub periodic_reconcile_ms: u64,
}

impl Default for WatchConfig {
    fn default() -> (c: Self)
        ensures
            c.debounce_ms == 500,
            c.periodic_reconcile_ms == 10 * 60 * 1000,
    {
        WatchConfig { debounce_ms: 500, periodic_reconcile_ms: 10 * 60 * 1000 }
    }
}

/// Where the schedule stands.
#[derive(Debug, Clone, Copy, PartialEq, Eq, Structural)]
pub enum Phase {
    /// A trigger is being performed.
    Triggering,
    /// About to wait: asks whether to stop.
    Checking,
    /// Waiting for a hint until the periodic trigger is due.
    Waiting,
    /// A burst of hints has begun; waiting for it to settle.
    Settling,
    /// Over.
    Stopped,
}

/// What happened.
#[derive(Debug, Clone, Copy, PartialEq, Eq, Structural)]
pub enum Event {
    /// The trigger was performed; the time.
    Triggered(u64),
    /// Whether to stop; the time.
    Checked(bool, u64),
    /// What came of waiting.
    Received(RecvOutcome),
}

/// What to do next.
#[derive(Debug, Clone, Copy, PartialEq, Eq, Structural)]
pub enum Action {
    /// Reconcile, then tell the time.
    Trigger,
    /// See whether to stop, and tell the time.
    Check,
    /// Wait for an event for so long at most.
    Receive(u64),
    /// Nothing more.
    Stop,
}

/// The schedule of a watcher.
#[derive(Debug, Clone, Copy, PartialEq, Eq, Structural)]
pub struct Schedule {
    pub cfg: WatchConfig,
    pub phase: Phase,
    /// When the last trigger was.
    pub last_trigger: u64,
}

/// `a - b`, or zero.
pub open spec fn less(a: u64, b: u64) -> u64 {
    if a >= b {
        (a - b) as u64
    } else {
        0
    }
}

/// What a schedule does on an event. An event that does not fit its phase ends
/// it.
pub open spec fn stepped(s: Schedule, e: Event) -> (Schedule, Action) {
    match (s.phase, e) {
        (Phase::Triggering, Event::Triggered(now)) => (
            Schedule { phase: Phase::Checking, last_trigger: now, ..s },
            Action::Check,
        ),
        (Phase::Checking, Event::Checked(stop, now)) => if stop {
            (Schedule { phase: Phase::Stopped, ..s }, Action::Stop)
        } else {
            (
                Schedule { phase: Phase::Waiting, ..s },
                Action::Receive(less(s.cfg.periodic_reconcile_ms, less(now, s.last_trigger))),
            )
        },
        (Phase::Waiting, Event::Received(r)) => match r {
            RecvOutcome::Closed => (Schedule { phase: Phase::Stopped, ..s }, Action::Stop),
            RecvOutcome::Timeout => (Schedule { phase: Phase::Triggering, ..s }, Action::Trigger),
            _ => (
                Schedule { phase: Phase::Settling, ..s },
                Action::Receive(s.cfg.debounce_ms),
            ),
        },
        (Phase::Settling, Event::Received(r)) => match r {
            RecvOutcome::Hint | RecvOutcome::Overflow => (s, Action::Receive(s.cfg.debounce_ms)),
            _ => (Schedule { phase: Phase::Triggering, ..s }, Action::Trigger),
        },
        _ => (Schedule { phase: Phase::Stopped, ..s }, Action::Stop),
    }
}

impl Schedule {
    /// A schedule that triggers at once.
    pub fn new(cfg: &WatchConfig) -> (r: (Self, Action))
        ensures
            r.0 == (Schedule { cfg: *cfg, phase: Phase::Triggering, last_trigger: 0 }),
            r.1 == Action::Trigger,
    {
        (Schedule { cfg: *cfg, phase: Phase::Triggering, last_trigger: 0 }, Action::Trigger)
    }

    /// Takes in what happened and says what to do next.
    pub fn step(&mut self, event: Event) -> (action: Action)
        ensures
            (*final(self), action) == stepped(*old(self), event),
    {
        match (self.phase, event) {
            (Phase::Triggering, Event::Triggered(now)) => {
                self.last_trigger = now;
                self.phase = Phase::Checking;
                Action::Check
            },
            (Phase::Checking, Event::Checked(stop, now)) => {
                if stop {
                    self.phase = Phase::Stopped;
                    return Action::Stop;
                }
                self.phase = Phase::Waiting;
                let elapsed: u64 = now.saturating_sub(self.last_trigger);
                Action::Receive(self.cfg.periodic_reconcile_ms.saturating_sub(elapsed))
            },
            (Phase::Waiting, Event::Received(r)) => match r {
                RecvOutcome::Closed => {
                    self.phase = Phase::Stopped;
                    Action::Stop
                },
                RecvOutcome::Timeout => {
                    self.phase = Phase::Triggering;
                    Action::Trigger
                },
                _ => {
                    self.phase = Phase::Settling;
                    Action::Receive(self.cfg.debounce_ms)
                },
            },
            (Phase::Settling, Event::Received(r)) => match r {
                RecvOutcome::Hint | RecvOutcome::Overflow => Action::Receive(self.cfg.debounce_ms),
                _ => {
                    self.phase = Phase::Triggering;
                    Action::Trigger
                },
            },
            _ => {
                self.phase = Phase::Stopped;
                Action::Stop
            },
        }
    }
}

/// The schedule behind a sequence of events.
pub open spec fn after(s: Schedule, es: Seq<Event>) -> Schedule
    decreases es.len(),
{
    if es.len() == 0 {
        s
    } else {
        stepped(after(s, es.drop_last()), es.last()).0
    }
}

/// How many triggers a sequence of events causes.
pub open spec fn triggers(s: Schedule, es: Seq<Event>) -> nat
    decreases es.len(),
{
    if es.len() == 0 {
        0
    } else {
        triggers(s, es.drop_last()) + if stepped(after(s, es.drop_last()), es.last()).1
            == Action::Trigger {
            1nat
        } else {
            0
        }
    }
}

/// The event is a hint or an overflow.
pub open spec fn is_hint(e: Event) -> bool {
    e == Event::Received(RecvOutcome::Hint) || e == Event::Received(RecvOutcome::Overflow)
}

/// A burst of hints, however long, and an overflow counts as a hint, causes no
/// trigger before it settles, and one when it does.
pub proof fn lemma_burst_is_one_trigger(s: Schedule, burst: Seq<Event>, quiet: RecvOutcome)
    requires
        s.phase == Phase::Waiting,
        burst.len() > 0,
        forall|i: int| 0 <= i < burst.len() ==> is_hint(#[trigger] burst[i]),
        quiet == RecvOutcome::Timeout || quiet == RecvOutcome::Closed,
    ensures
        triggers(s, burst) == 0,
        triggers(s, burst.push(Event::Received(quiet))) == 1,
{
    lemma_settling(s, burst);
    let all = burst.push(Event::Received(quiet));
    assert(all.drop_last() =~= burst);
}

proof fn lemma_settling(s: Schedule, burst: Seq<Event>)
    requires
        s.phase == Phase::Waiting,
        burst.len() > 0,
        forall|i: int| 0 <= i < burst.len() ==> is_hint(#[trigger] burst[i]),
    ensures
        triggers(s, burst) == 0,
        after(s, burst) == (Schedule { phase: Phase::Settling, ..s }),
    decreases burst.len(),
{
    let front = burst.drop_last();
    assert(is_hint(burst[burst.len() - 1]));
    if front.len() > 0 {
        assert forall|i: int| 0 <= i < front.len() implies is_hint(#[trigger] front[i]) by {
            assert(front[i] == burst[i]);
        }
        lemma_settling(s, front);
    } else {
        assert(after(s, front) == s);
        assert(triggers(s, front) == 0);
    }
}

/// Where no event comes at all, there is still a trigger once the periodic time
/// has passed since the last one: the wait asked for never goes beyond it, and
/// its end triggers.
pub proof fn lemma_periodic_trigger(s: Schedule, now: u64)
    requires
        s.phase == Phase::Checking,
        now >= s.last_trigger,
    ensures
        ({
            let (waiting, action) = stepped(s, Event::Checked(false, now));
            &&& action matches Action::Receive(ms) && (now + ms <= s.last_trigger
                + s.cfg.periodic_reconcile_ms || ms == 0)
            &&& stepped(waiting, Event::Received(RecvOutcome::Timeout)).1 == Action::Trigger
        }),
{
}

} // verus!
