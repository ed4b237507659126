//! What a page of hits holds, what a connection answers, and what a merge reads.

use vstd::prelude::*;

use super::actor::{bytes_of, segment_bytes, unix_ms};
use super::client::{attempted, Attempt, Autostart, Start};
use super::protocol::{ClientMessage, Method, ServerMessageView, PROTOCOL_VERSION};
use super::run::{after_looks, ends_at_last, idle_from, IdleWatch, Look};
use super::server::{
    first_missing, heard, is_page, least, stage_after, sum_of, Asked, HitKey, Incoming, Stage, TurnView,
};
use crate::format::manifest::SegmentEntry;
use crate::sort::{comes_before, is_order, lemma_order_is_permutation};
use crate::store::segment::Moment;

verus! {

/// Hit `p` comes before hit `q`: it has the larger key, or the same and came earlier.
pub open spec fn precedes(keys: Seq<HitKey>, p: int, q: int) -> bool {
    keys[p].key > keys[q].key || keys[p].key == keys[q].key && p < q
}

/// The hits that come before hit `q`.
pub open spec fn preceding(keys: Seq<HitKey>, q: int) -> Set<int> {
    Set::new(|p: int| 0 <= p < keys.len() && precedes(keys, p, q))
}

proof fn lemma_preceding(keys: Seq<HitKey>, places: Seq<usize>, k: int)
    requires
        is_order(keys, places),
        keys.len() <= usize::MAX,
        0 <= k < places.len(),
    ensures
        preceding(keys, places[k] as int).finite(),
        preceding(keys, places[k] as int).len() == k,
{
    let q = places[k] as int;
    lemma_order_is_permutation(keys, places);
    let front = Seq::new(k as nat, |i: int| places[i] as int);
    assert forall|i: int, j: int| 0 <= i < j < front.len() implies front[i] != front[j] by {
        assert(places[i] != places[j]);
    }
    front.unique_seq_to_set();
    vstd::seq_lib::seq_to_set_is_finite(front);
    assert(preceding(keys, q) =~= front.to_set()) by {
        assert forall|p: int| preceding(keys, q).contains(p) implies front.contains(p) by {
            assert(places.contains(p as usize));
            let i = choose|i: int| 0 <= i < places.len() && places[i] == p as usize;
            if i > k {
                assert(comes_before(keys, places[k] as int, places[i] as int));
            }
            assert(i < k);
            assert(front[i] == p);
        }
        assert forall|p: int| front.contains(p) implies preceding(keys, q).contains(p) by {
            let i = choose|i: int| 0 <= i < front.len() && front[i] == p;
            assert(comes_before(keys, places[i] as int, places[k] as int));
            assert(places[i] < keys.len());
        }
    }
}

/// Hit `i` of a page is the hit with exactly `offset + i` before it, and the page has as many
/// hits as the limit lets or are left.
pub proof fn lemma_page(keys: Seq<HitKey>, offset: int, limit: int, page: Seq<usize>)
    requires
        is_page(keys, offset, limit, page),
        keys.len() <= usize::MAX,
        0 <= offset,
        0 <= limit,
    ensures
        page.len() <= limit,
        offset <= keys.len() ==> page.len() == limit || offset + page.len() == keys.len(),
        offset >= keys.len() ==> page.len() == 0,
        forall|i: int|
            0 <= i < page.len() ==> (#[trigger] page[i]) < keys.len() && preceding(
                keys,
                page[i] as int,
            ).len() == offset + i,
{
    let places = choose|places: Seq<usize>| #[trigger]
        is_order(keys, places) && page == places.subrange(
            least(offset, places.len() as int),
            least(offset + limit, places.len() as int),
        );
    assert forall|i: int| 0 <= i < page.len() implies (#[trigger] page[i]) < keys.len()
        && preceding(keys, page[i] as int).len() == offset + i by {
        assert(page[i] == places[offset + i]);
        lemma_preceding(keys, places, offset + i);
    }
}

/// The matches of all roots together are their sum.
pub proof fn lemma_sum_of(totals: Seq<usize>, n: int)
    requires
        0 <= n <= totals.len(),
    ensures
        sum_of(totals, n) == totals.take(n).fold_left(0int, |a: int, b: usize| a + b),
    decreases n,
{
    let plus = |a: int, b: usize| a + b;
    if n > 0 {
        lemma_sum_of(totals, n - 1);
        assert(totals.take(n).drop_last() =~= totals.take(n - 1));
        assert(totals.take(n).last() == totals[n - 1]);
    } else {
        assert(totals.take(n) =~= Seq::empty());
    }
}

/// The root that a request is refused with is the first that the daemon does not have.
pub proof fn lemma_first_missing(names: Seq<Seq<char>>, asked: Seq<Asked>)
    ensures
        match first_missing(names, asked) {
            Some(i) => {
                &&& 0 <= i < asked.len()
                &&& !names.contains(asked[i].key@)
                &&& forall|k: int| 0 <= k < i ==> names.contains((#[trigger] asked[k]).key@)
            },
            None => forall|k: int|
                0 <= k < asked.len() ==> names.contains((#[trigger] asked[k]).key@),
        },
    decreases asked.len(),
{
    if asked.len() > 0 {
        let f = asked.drop_last();
        lemma_first_missing(names, f);
        assert forall|k: int| 0 <= k < f.len() implies f[k] == #[trigger] asked[k] by {}
    }
}

/// The line ends a connection that serves.
pub open spec fn ends(line: Incoming) -> bool {
    line is Closed || line matches Incoming::Message(
        ClientMessage::Request { method: Method::Shutdown, .. },
    )
}

/// Once a client has said hello in this version, every request is handed on under its own id
/// until one ends the connection, whatever else comes between.
pub proof fn lemma_requests_are_served(lines: Seq<Incoming>, pid: u32)
    requires
        lines.len() > 0,
        lines[0] == Incoming::Message(ClientMessage::Hello { protocol: PROTOCOL_VERSION }),
        forall|i: int| 0 <= i < lines.len() ==> !ends(#[trigger] lines[i]),
    ensures
        stage_after(lines, pid) is Serving,
        lines.len() > 1 ==> match lines.last() {
            Incoming::Message(ClientMessage::Request { id, method }) => heard(
                stage_after(lines.drop_last(), pid),
                lines.last(),
                pid,
            ).1 == (TurnView::Serve { id, method }),
            Incoming::Refused { id, message } => heard(
                stage_after(lines.drop_last(), pid),
                lines.last(),
                pid,
            ).1 == TurnView::Send(ServerMessageView::Error { id, message: message@ }),
            _ => heard(stage_after(lines.drop_last(), pid), lines.last(), pid).1 is Send,
        },
    decreases lines.len(),
{
    let f = lines.drop_last();
    assert(!ends(lines[lines.len() - 1]));
    if lines.len() == 1 {
        assert(f =~= Seq::empty());
        assert(stage_after(f, pid) is Greeting);
    } else {
        assert forall|i: int| 0 <= i < f.len() implies !ends(#[trigger] f[i]) by {
            assert(f[i] == lines[i]);
        }
        lemma_requests_are_served(f, pid);
    }
}

/// Nothing comes after the end of a connection.
pub proof fn lemma_over_is_over(lines: Seq<Incoming>, more: Incoming, pid: u32)
    requires
        stage_after(lines, pid) is Over,
    ensures
        stage_after(lines.push(more), pid) is Over,
        heard(stage_after(lines, pid), more, pid).1 is Close,
{
    assert(lines.push(more).drop_last() =~= lines);
}

/// A daemon is greeted back by its own version and process, and another version is turned
/// away.
pub proof fn lemma_greeting(protocol: u32, pid: u32)
    ensures
        ({
            let (stage, turn) = heard(
                Stage::Greeting,
                Incoming::Message(ClientMessage::Hello { protocol }),
                pid,
            );
            if protocol == 1 {
                stage is Serving && turn == TurnView::Send(
                    ServerMessageView::HelloOk { protocol, pid },
                )
            } else {
                stage is Over && turn is Dismiss
            }
        }),
{
}

/// The bytes that a merge of these segments reads: those of all files of each.
pub proof fn lemma_bytes_of(segments: Seq<SegmentEntry>, ids: Seq<u32>, at: Seq<int>, n: int)
    requires
        at.len() == ids.len(),
        forall|k: int|
            0 <= k < at.len() ==> 0 <= (#[trigger] at[k]) < segments.len()
                && segments[at[k]].segment_id == ids[k],
        forall|i: int, j: int|
            0 <= i < j < segments.len() ==> (#[trigger] segments[i]).segment_id != (
            #[trigger] segments[j]).segment_id,
        0 <= n <= ids.len(),
    ensures
        bytes_of(segments, ids, n) == at.take(n).fold_left(
            0int,
            |a: int, i: int| a + segments[i].idx_len + segments[i].doc_len + segments[i].del_len,
        ),
    decreases n,
{
    let plus = |a: int, i: int|
        a + segments[i].idx_len + segments[i].doc_len + segments[i].del_len;
    if n > 0 {
        lemma_bytes_of(segments, ids, at, n - 1);
        assert(at.take(n).drop_last() =~= at.take(n - 1));
        assert(at.take(n).last() == at[n - 1]);
        lemma_bytes_at(segments, ids[n - 1], at[n - 1], segments.len() as int);
    } else {
        assert(at.take(n) =~= Seq::empty());
    }
}

proof fn lemma_bytes_at(segments: Seq<SegmentEntry>, id: u32, i: int, n: int)
    requires
        0 <= i < n <= segments.len(),
        segments[i].segment_id == id,
        forall|i: int, j: int|
            0 <= i < j < segments.len() ==> (#[trigger] segments[i]).segment_id != (
            #[trigger] segments[j]).segment_id,
    ensures
        segment_bytes(segments, id, n) == segments[i].idx_len + segments[i].doc_len
            + segments[i].del_len,
    decreases n,
{
    if i < n - 1 {
        lemma_bytes_at(segments, id, i, n - 1);
        assert(segments[i].segment_id == id);
    } else {
        assert forall|k: int| 0 <= k < n - 1 implies (#[trigger] segments[k]).segment_id != id by {
            assert(segments[k].segment_id != segments[i].segment_id);
        }
    }
}

proof fn lemma_since_first(timeout_ms: u64, looks: Seq<Look>, first: int)
    requires
        0 <= first < looks.len(),
        idle_from(looks, first),
        first == 0 || !looks[first - 1].idle,
    ensures
        after_looks(IdleWatch { timeout_ms, since: None }, looks) == (IdleWatch {
            timeout_ms,
            since: Some(looks[first].at),
        }),
    decreases looks.len(),
{
    let w = IdleWatch { timeout_ms, since: None };
    let f = looks.drop_last();
    assert(looks[looks.len() - 1].idle);
    if first < f.len() {
        assert forall|k: int| first <= k < f.len() implies (#[trigger] f[k]).idle by {
            assert(looks[k].idle);
        }
        lemma_since_first(timeout_ms, f, first);
    } else {
        lemma_timeout_stays(w, f);
        if first > 0 {
            assert(f.last() == looks[first - 1]);
            lemma_timeout_stays(w, f.drop_last());
        }
    }
}

proof fn lemma_timeout_stays(w: IdleWatch, looks: Seq<Look>)
    ensures
        after_looks(w, looks).timeout_ms == w.timeout_ms,
    decreases looks.len(),
{
    if looks.len() > 0 {
        lemma_timeout_stays(w, looks.drop_last());
    }
}

/// A daemon that has been idle since the look at `first` ends at the last look exactly where
/// that is the timeout or more ago.
pub proof fn lemma_ends_when_idle(timeout_ms: u64, looks: Seq<Look>, first: int)
    requires
        0 <= first < looks.len(),
        idle_from(looks, first),
        first == 0 || !looks[first - 1].idle,
    ensures
        ends_at_last(IdleWatch { timeout_ms, since: None }, looks) <==> looks.last().at
            - looks[first].at >= timeout_ms,
{
    let w = IdleWatch { timeout_ms, since: None };
    let f = looks.drop_last();
    assert(looks[looks.len() - 1].idle);
    if first < f.len() {
        assert forall|k: int| first <= k < f.len() implies (#[trigger] f[k]).idle by {
            assert(looks[k].idle);
        }
        lemma_since_first(timeout_ms, f, first);
    } else {
        lemma_timeout_stays(w, f);
        if first > 0 {
            assert(f.last() == looks[first - 1]);
        }
    }
}

/// A daemon that has a client or a root does not end.
pub proof fn lemma_busy_goes_on(timeout_ms: u64, looks: Seq<Look>)
    requires
        looks.len() > 0,
        !looks.last().idle,
    ensures
        !ends_at_last(IdleWatch { timeout_ms, since: None }, looks),
{
}

/// A moment is told in whole milliseconds since 1970, rounded down.
pub proof fn lemma_unix_ms(t: Moment)
    requires
        t.nanos < 1_000_000_000,
        t.secs * 1000 + 999 <= u64::MAX,
    ensures
        !t.before_epoch ==> unix_ms(t) * 1_000_000 <= t.secs * 1_000_000_000 + t.nanos < (unix_ms(t)
            + 1) * 1_000_000,
        t.before_epoch ==> unix_ms(t) == 0,
{
}

/// Where no daemon runs one is started at once, and then tried until two seconds have passed.
/// Any other failure is final.
pub proof fn lemma_autostart(started: u64, not_running: bool, now: u64)
    requires
        started + 2000 <= u64::MAX,
    ensures
        attempted(Autostart::Trying, Attempt::Failed { not_running: true }, started).1
            == Start::Spawn,
        attempted(Autostart::Trying, Attempt::Failed { not_running: false }, started).1
            == Start::GiveUp,
        ({
            let waiting = attempted(
                Autostart::Trying,
                Attempt::Failed { not_running: true },
                started,
            ).0;
            &&& attempted(waiting, Attempt::Connected, now).1 == Start::Use
            &&& attempted(waiting, Attempt::Failed { not_running }, now) == (
                waiting,
                if now < started + 2000 {
                    Start::Wait(50)
                } else {
                    Start::GiveUp
                },
            )
        }),
{
}

} // verus!
