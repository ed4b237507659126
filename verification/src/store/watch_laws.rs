//! How long a watcher waits, and what ends it.

use vstd::prelude::*;

use super::watcher::{after, stepped, Action, Event, Phase, RecvOutcome, Schedule};

verus! {

/// Without an event the next trigger comes when the periodic time since the last one is over,
/// not before and not later: the wait ends just then, or at once where it is over already.
pub proof fn lemma_waits_just_long_enough(s: Schedule, now: u64)
    requires
        s.phase == Phase::Checking,
        now >= s.last_trigger,
    ensures
        stepped(s, Event::Checked(false, now)).1 matches Action::Receive(ms) && (if now
            - s.last_trigger <= s.cfg.periodic_reconcile_ms {
            now + ms == s.last_trigger + s.cfg.periodic_reconcile_ms
        } else {
            ms == 0
        }),
        stepped(s, Event::Checked(false, now)).0 == (Schedule { phase: Phase::Waiting, ..s }),
        stepped(s, Event::Checked(true, now)).1 == Action::Stop,
{
}

/// A hint is followed by a trigger once the quiet time passes without another: after each hint
/// the wait is that time, and its end triggers, though the watcher ends meanwhile.
pub proof fn lemma_hints_settle(s: Schedule, hint: RecvOutcome, quiet: RecvOutcome)
    requires
        s.phase == Phase::Waiting || s.phase == Phase::Settling,
        hint == RecvOutcome::Hint || hint == RecvOutcome::Overflow,
        quiet == RecvOutcome::Timeout || quiet == RecvOutcome::Closed,
    ensures
        ({
            let (settling, action) = stepped(s, Event::Received(hint));
            &&& action == Action::Receive(s.cfg.debounce_ms)
            &&& settling == (Schedule { phase: Phase::Settling, ..s })
            &&& stepped(settling, Event::Received(quiet)).1 == Action::Trigger
        }),
{
}

/// Behind a trigger the schedule knows when it was, and looks whether to stop before it waits
/// again.
pub proof fn lemma_trigger_is_kept(s: Schedule, now: u64)
    requires
        s.phase == Phase::Triggering,
    ensures
        stepped(s, Event::Triggered(now)) == (
            Schedule { cfg: s.cfg, phase: Phase::Checking, last_trigger: now },
            Action::Check,
        ),
{
}

/// A watcher that has ended does nothing more, whatever comes.
pub proof fn lemma_stopped_stays(s: Schedule, es: Seq<Event>)
    requires
        s.phase == Phase::Stopped,
    ensures
        after(s, es).phase == Phase::Stopped,
        forall|e: Event| (#[trigger] stepped(after(s, es), e)).1 == Action::Stop,
    decreases es.len(),
{
    if es.len() > 0 {
        lemma_stopped_stays(s, es.drop_last());
    }
}

/// Where the channel is closed while nothing is to be triggered, the watcher ends.
pub proof fn lemma_closed_ends(s: Schedule)
    requires
        s.phase == Phase::Waiting,
    ensures
        stepped(s, Event::Received(RecvOutcome::Closed)).1 == Action::Stop,
        stepped(s, Event::Received(RecvOutcome::Timeout)).1 == Action::Trigger,
{
}

} // verus!
