//! Evaluation of a query.
//!
//! Segments own disjoint, ascending document ranges, so a query is evaluated
//! segment by segment on local numbers and the results are offset and
//! concatenated. Within a segment every node gives the hits in ascending order.
//! A posting whose document has no length (skipped, deleted or a hole) is passed
//! over. The document frequencies are summed over all segments.

use vstd::prelude::*;
use vstd::slice::slice_to_vec;

use super::hits::{
    all_ascending, ascending_hits, difference, hit, hit_views, intersect, intersected, lemma_united,
    lemma_without, list_views, union, united, without_all, Hit, HitView, Score, ScoreView,
};
use super::parser::{lemma_and_view, lemma_or_view, nodes, Node, NodeView};
use crate::format::postings::ascending;
use crate::index::postings::{
    after_positions, docs_ascend, from_target, head_doc, positions_ascend, step, Entry,
};
use crate::index::{DocId, IndexReader, Position, PostingCursor, PostingList, SegmentReader};
use crate::text::{is_among, lemma_push_contains, same, views};

verus! {

/// The posting of a document.
pub open spec fn entry_at(es: Seq<Entry>, doc: u32) -> Option<Entry>
    decreases es.len(),
{
    if es.len() == 0 {
        None
    } else if es[0].doc == doc {
        Some(es[0])
    } else {
        entry_at(es.drop_first(), doc)
    }
}

/// The hits of a term among its first `n` postings.
pub open spec fn live_hits<S: SegmentReader>(seg: S, df: u32, es: Seq<Entry>, n: int) -> Seq<
    HitView,
>
    decreases n,
{
    if n <= 0 {
        Seq::empty()
    } else {
        let e = es[n - 1];
        match seg.length(e.doc) {
            Some(len) => live_hits(seg, df, es, n - 1).push(
                HitView { doc: e.doc, score: ScoreView::Term { df, tf: e.tf, len } },
            ),
            None => live_hits(seg, df, es, n - 1),
        }
    }
}

/// The hits of a term.
pub open spec fn term_hits<S: SegmentReader>(seg: S, dfs: Map<Seq<char>, u32>, t: Seq<char>) -> Seq<
    HitView,
> {
    match seg.lookup(t) {
        None => Seq::empty(),
        Some((es, _)) => live_hits(seg, dfs[t], es, es.len() as int),
    }
}

/// Every list has the document.
pub open spec fn in_all(rest: Seq<Seq<Entry>>, doc: u32) -> bool {
    forall|i: int| 0 <= i < rest.len() ==> entry_at(#[trigger] rest[i], doc) is Some
}

/// Term `k` of the phrase is `k` positions behind `p`.
pub open spec fn continues(ps: Seq<Seq<u32>>, p: u32, k: int) -> bool {
    p + k <= u32::MAX && ps[k].contains((p + k) as u32)
}

/// The first `n` terms of the phrase follow each other from position `p` on.
pub open spec fn follows_upto(ps: Seq<Seq<u32>>, p: u32, n: int) -> bool {
    forall|k: int| 1 <= k < n ==> #[trigger] continues(ps, p, k)
}

/// The phrase occurs from position `p` on: each further term one position on.
pub open spec fn follows(ps: Seq<Seq<u32>>, p: u32) -> bool {
    follows_upto(ps, p, ps.len() as int)
}

/// How many of the first `n` positions of the first term start the phrase.
pub open spec fn phrase_count(ps: Seq<Seq<u32>>, n: int) -> nat
    decreases n,
{
    if n <= 0 {
        0
    } else {
        phrase_count(ps, n - 1) + if follows(ps, ps[0][n - 1]) {
            1nat
        } else {
            0nat
        }
    }
}

/// The postings of the terms of a phrase in one document.
pub open spec fn entries_at(first: Entry, rest: Seq<Seq<Entry>>) -> Seq<Entry> {
    Seq::new(
        rest.len() + 1,
        |i: int|
            if i == 0 {
                first
            } else {
                entry_at(rest[i - 1], first.doc)->Some_0
            },
    )
}

/// The positions of these postings; none where they cannot be decoded.
pub open spec fn positions_in(es: Seq<Entry>) -> Seq<Seq<u32>> {
    Seq::new(
        es.len(),
        |i: int|
            match es[i].positions {
                Some(p) => p,
                None => Seq::empty(),
            },
    )
}

/// All positions can be decoded.
pub open spec fn decodable(es: Seq<Entry>) -> bool {
    forall|i: int| 0 <= i < es.len() ==> (#[trigger] es[i]).positions is Some
}

/// The hits of a phrase among the documents of its first term. A document whose
/// positions cannot be decoded ends them.
pub open spec fn phrase_hits<S: SegmentReader>(
    seg: S,
    dfs: Seq<u32>,
    first: Seq<Entry>,
    rest: Seq<Seq<Entry>>,
) -> Seq<HitView>
    decreases first.len(),
{
    if first.len() == 0 {
        Seq::empty()
    } else {
        let tail = phrase_hits(seg, dfs, first.drop_first(), rest);
        let d = first[0].doc;
        if !in_all(rest, d) {
            tail
        } else {
            match seg.length(d) {
                None => tail,
                Some(len) => {
                    let es = entries_at(first[0], rest);
                    let tf = phrase_count(
                        positions_in(es),
                        positions_in(es)[0].len() as int,
                    ) as u32;
                    if !decodable(es) {
                        Seq::empty()
                    } else if tf > 0 {
                        seq![HitView { doc: d, score: ScoreView::Phrase { dfs, tf, len } }] + tail
                    } else {
                        tail
                    }
                },
            }
        }
    }
}

/// The postings of the terms of a phrase, if the segment has them all.
pub open spec fn term_entries<S: SegmentReader>(seg: S, ts: Seq<Seq<char>>) -> Option<
    Seq<Seq<Entry>>,
> {
    if forall|i: int| 0 <= i < ts.len() ==> seg.lookup(#[trigger] ts[i]) is Some {
        Some(Seq::new(ts.len(), |i: int| seg.lookup(ts[i])->Some_0.0))
    } else {
        None
    }
}

/// The document frequencies of the terms of a phrase.
pub open spec fn freqs(dfs: Map<Seq<char>, u32>, ts: Seq<Seq<char>>) -> Seq<u32> {
    Seq::new(ts.len(), |i: int| dfs[ts[i]])
}

/// The hits of a node.
pub open spec fn node_hits<S: SegmentReader>(seg: S, dfs: Map<Seq<char>, u32>, n: NodeView) -> Seq<
    HitView,
>
    decreases n,
{
    match n {
        NodeView::Term(t) => term_hits(seg, dfs, t),
        NodeView::Phrase(ts) => if ts.len() == 0 {
            Seq::empty()
        } else if ts.len() == 1 {
            term_hits(seg, dfs, ts[0])
        } else {
            match term_entries(seg, ts) {
                None => Seq::empty(),
                Some(ls) => phrase_hits(seg, freqs(dfs, ts), ls[0], ls.skip(1)),
            }
        },
        NodeView::And { must, must_not } => without_all(
            intersected(all_hits(seg, dfs, must)),
            all_hits(seg, dfs, must_not),
            must_not.len() as int,
        ),
        NodeView::Or(cs) => united(all_hits(seg, dfs, cs), cs.len() as int),
    }
}

/// The hits of several nodes.
pub open spec fn all_hits<S: SegmentReader>(
    seg: S,
    dfs: Map<Seq<char>, u32>,
    ns: Seq<NodeView>,
) -> Seq<Seq<HitView>>
    decreases ns,
{
    if ns.len() == 0 {
        Seq::empty()
    } else {
        all_hits(seg, dfs, ns.drop_last()).push(node_hits(seg, dfs, ns.last()))
    }
}

/// The hits of each of several nodes.
pub proof fn lemma_all_hits<S: SegmentReader>(
    seg: S,
    dfs: Map<Seq<char>, u32>,
    ns: Seq<NodeView>,
)
    ensures
        all_hits(seg, dfs, ns).len() == ns.len(),
        forall|i: int|
            #![trigger all_hits(seg, dfs, ns)[i]]
            0 <= i < ns.len() ==> all_hits(seg, dfs, ns)[i] == node_hits(seg, dfs, ns[i]),
    decreases ns.len(),
{
    if ns.len() > 0 {
        lemma_all_hits(seg, dfs, ns.drop_last());
    }
}

/// The node names the term, positively or not.
pub open spec fn mentions(n: NodeView, t: Seq<char>) -> bool
    decreases n,
{
    match n {
        NodeView::Term(u) => u == t,
        NodeView::Phrase(ts) => ts.contains(t),
        NodeView::And { must, must_not } => any_mentions(must, t) || any_mentions(must_not, t),
        NodeView::Or(cs) => any_mentions(cs, t),
    }
}

/// One of the nodes names the term.
pub open spec fn any_mentions(ns: Seq<NodeView>, t: Seq<char>) -> bool
    decreases ns,
{
    ns.len() > 0 && (mentions(ns.last(), t) || any_mentions(ns.drop_last(), t))
}

proof fn lemma_any_mentions(ns: Seq<NodeView>, i: int, t: Seq<char>)
    requires
        0 <= i < ns.len(),
        mentions(ns[i], t),
    ensures
        any_mentions(ns, t),
    decreases ns.len(),
{
    if i < ns.len() - 1 {
        lemma_any_mentions(ns.drop_last(), i, t);
    }
}

/// The document frequency of a term over the first `n` segments, up to the
/// largest number there is.
pub open spec fn total_df<S: SegmentReader>(parts: Seq<S>, t: Seq<char>, n: int) -> u32
    decreases n,
{
    if n <= 0 {
        0
    } else {
        let before = total_df(parts, t, n - 1);
        match parts[n - 1].lookup(t) {
            Some((_, df)) => if before + df <= u32::MAX {
                (before + df) as u32
            } else {
                u32::MAX
            },
            None => before,
        }
    }
}

/// The document frequencies of the terms that a query names.
pub open spec fn query_dfs<S: SegmentReader>(parts: Seq<S>, n: NodeView) -> Map<Seq<char>, u32> {
    Map::new(|t: Seq<char>| mentions(n, t), |t: Seq<char>| total_df(parts, t, parts.len() as int))
}

/// Hits with their global numbers.
pub open spec fn offset(hs: Seq<HitView>, base: u32) -> Seq<HitView> {
    Seq::new(
        hs.len(),
        |i: int| HitView { doc: (base + hs[i].doc) as u32, score: hs[i].score },
    )
}

/// The hits of the first `n` segments.
pub open spec fn index_hits<S: SegmentReader>(
    parts: Seq<S>,
    dfs: Map<Seq<char>, u32>,
    node: NodeView,
    n: int,
) -> Seq<HitView>
    decreases n,
{
    if n <= 0 {
        Seq::empty()
    } else {
        index_hits(parts, dfs, node, n - 1) + offset(
            node_hits(parts[n - 1], dfs, node),
            parts[n - 1].first(),
        )
    }
}

pub proof fn lemma_entry_at(es: Seq<Entry>, doc: u32)
    ensures
        entry_at(es, doc) is Some <==> exists|i: int| 0 <= i < es.len() && (#[trigger] es[i]).doc
            == doc,
        entry_at(es, doc) matches Some(e) ==> e.doc == doc && exists|i: int|
            0 <= i < es.len() && #[trigger] es[i] == e,
    decreases es.len(),
{
    if es.len() > 0 {
        let rest = es.drop_first();
        lemma_entry_at(rest, doc);
        if es[0].doc != doc {
            if exists|i: int| 0 <= i < es.len() && (#[trigger] es[i]).doc == doc {
                let i = choose|i: int| 0 <= i < es.len() && (#[trigger] es[i]).doc == doc;
                assert(rest[i - 1].doc == doc);
            }
            if exists|i: int| 0 <= i < rest.len() && (#[trigger] rest[i]).doc == doc {
                let i = choose|i: int| 0 <= i < rest.len() && (#[trigger] rest[i]).doc == doc;
                assert(es[i + 1].doc == doc);
            }
            if let Some(e) = entry_at(rest, doc) {
                let i = choose|i: int| 0 <= i < rest.len() && #[trigger] rest[i] == e;
                assert(es[i + 1] == e);
            }
        }
    }
}

proof fn lemma_from_target(es: Seq<Entry>, target: u32)
    requires
        docs_ascend(es),
    ensures
        docs_ascend(from_target(es, target)),
        positions_ascend(es) ==> positions_ascend(from_target(es, target)),
        from_target(es, target).len() <= es.len(),
        es.len() > 0 && es[0].doc < target ==> from_target(es, target).len() < es.len(),
        forall|i: int|
            0 <= i < from_target(es, target).len() ==> (#[trigger] from_target(
                es,
                target,
            )[i]).doc >= target,
        forall|d: u32| d >= target ==> #[trigger] entry_at(from_target(es, target), d) == entry_at(
            es,
            d,
        ),
    decreases es.len(),
{
    if es.len() > 0 && es[0].doc < target {
        let rest = es.drop_first();
        lemma_drop_first(es);
        lemma_from_target(rest, target);
        assert forall|d: u32| d >= target implies #[trigger] entry_at(from_target(es, target), d)
            == entry_at(es, d) by {
            assert(entry_at(from_target(rest, target), d) == entry_at(rest, d));
        }
    } else {
        assert forall|i: int| 0 <= i < es.len() implies (#[trigger] es[i]).doc >= target by {
            if i > 0 {
                assert(es[0].doc < es[i].doc);
            }
        }
    }
}

pub proof fn lemma_drop_first(es: Seq<Entry>)
    requires
        docs_ascend(es),
        es.len() > 0,
    ensures
        docs_ascend(es.drop_first()),
        positions_ascend(es) ==> positions_ascend(es.drop_first()),
{
    let rest = es.drop_first();
    assert forall|i: int, j: int| 0 <= i < j < rest.len() implies (#[trigger] rest[i]).doc < (
    #[trigger] rest[j]).doc by {
        assert(rest[i] == es[i + 1] && rest[j] == es[j + 1]);
    }
    if positions_ascend(es) {
        assert forall|i: int| 0 <= i < rest.len() implies ((
        #[trigger] rest[i]).positions matches Some(p) ==> ascending(p)) by {
            assert(rest[i] == es[i + 1]);
        }
    }
}

/// Postings of a further term below all documents of the first do not matter.
proof fn lemma_seek_rest<S: SegmentReader>(
    seg: S,
    dfs: Seq<u32>,
    first: Seq<Entry>,
    rest: Seq<Seq<Entry>>,
    k: int,
    target: u32,
)
    requires
        0 <= k < rest.len(),
        docs_ascend(first),
        docs_ascend(rest[k]),
        first.len() > 0 ==> first[0].doc >= target,
    ensures
        phrase_hits(seg, dfs, first, rest) == phrase_hits(
            seg,
            dfs,
            first,
            rest.update(k, from_target(rest[k], target)),
        ),
    decreases first.len(),
{
    if first.len() > 0 {
        let next = rest.update(k, from_target(rest[k], target));
        let d = first[0].doc;
        lemma_drop_first(first);
        if first.len() > 1 {
            assert(first[0].doc < first[1].doc);
        }
        lemma_seek_rest(seg, dfs, first.drop_first(), rest, k, target);
        lemma_from_target(rest[k], target);
        assert forall|i: int| 0 <= i < rest.len() implies entry_at(#[trigger] next[i], d)
            == entry_at(rest[i], d) by {}
        assert(in_all(next, d) == in_all(rest, d)) by {
            if in_all(rest, d) {
                assert forall|i: int| 0 <= i < next.len() implies entry_at(
                    #[trigger] next[i],
                    d,
                ) is Some by {
                    assert(entry_at(rest[i], d) is Some);
                }
            }
            if in_all(next, d) {
                assert forall|i: int| 0 <= i < rest.len() implies entry_at(
                    #[trigger] rest[i],
                    d,
                ) is Some by {
                    assert(entry_at(next[i], d) is Some);
                }
            }
        }
        assert(entries_at(first[0], next) =~= entries_at(first[0], rest));
    }
}

/// Documents of the first term that a further term is already past do not
/// matter.
proof fn lemma_seek_first<S: SegmentReader>(
    seg: S,
    dfs: Seq<u32>,
    first: Seq<Entry>,
    rest: Seq<Seq<Entry>>,
    k: int,
    target: u32,
)
    requires
        0 <= k < rest.len(),
        docs_ascend(first),
        forall|i: int| 0 <= i < rest[k].len() ==> (#[trigger] rest[k][i]).doc >= target,
    ensures
        phrase_hits(seg, dfs, first, rest) == phrase_hits(
            seg,
            dfs,
            from_target(first, target),
            rest,
        ),
    decreases first.len(),
{
    if first.len() > 0 && first[0].doc < target {
        lemma_drop_first(first);
        lemma_seek_first(seg, dfs, first.drop_first(), rest, k, target);
        lemma_entry_at(rest[k], first[0].doc);
        assert(!in_all(rest, first[0].doc));
    }
}

/// A term without postings ahead ends a phrase.
proof fn lemma_exhausted<S: SegmentReader>(
    seg: S,
    dfs: Seq<u32>,
    first: Seq<Entry>,
    rest: Seq<Seq<Entry>>,
    k: int,
)
    requires
        0 <= k < rest.len(),
        rest[k].len() == 0,
    ensures
        phrase_hits(seg, dfs, first, rest) == Seq::<HitView>::empty(),
    decreases first.len(),
{
    if first.len() > 0 {
        lemma_exhausted(seg, dfs, first.drop_first(), rest, k);
        assert(entry_at(rest[k], first[0].doc) is None);
    }
}

/// What the cursors have ahead.
spec fn ahead<C: PostingCursor>(cs: Seq<C>) -> Seq<Seq<Entry>> {
    Seq::new(cs.len(), |i: int| cs[i].rest())
}

/// The cursors are in a proper state.
spec fn cursors_wf<C: PostingCursor>(cs: Seq<C>) -> bool {
    forall|i: int|
        0 <= i < cs.len() ==> (#[trigger] cs[i]).wf() && docs_ascend(cs[i].rest())
            && positions_ascend(cs[i].rest())
}

/// The hits that are still ahead.
spec fn hits_ahead<S: SegmentReader, C: PostingCursor>(seg: S, dfs: Seq<u32>, cs: Seq<C>) -> Seq<
    HitView,
> {
    phrase_hits(seg, dfs, ahead(cs)[0], ahead(cs).skip(1))
}

/// Every cursor is on the document.
spec fn aligned<C: PostingCursor>(cs: Seq<C>, doc: u32) -> bool {
    forall|i: int| 0 <= i < cs.len() ==> head_doc((#[trigger] cs[i]).rest()) == Some(doc)
}

/// Moves all cursors to the next document that they have in common.
fn align<S: SegmentReader, C: PostingCursor>(
    cursors: &mut Vec<C>,
    Ghost(seg): Ghost<S>,
    Ghost(dfs): Ghost<Seq<u32>>,
) -> (r: Option<DocId>)
    requires
        old(cursors)@.len() >= 2,
        cursors_wf(old(cursors)@),
    ensures
        final(cursors)@.len() == old(cursors)@.len(),
        cursors_wf(final(cursors)@),
        hits_ahead(seg, dfs, final(cursors)@) == hits_ahead(seg, dfs, old(cursors)@),
        final(cursors)@[0].rest().len() <= old(cursors)@[0].rest().len(),
        match r {
            Some(d) => aligned(final(cursors)@, d),
            None => hits_ahead(seg, dfs, old(cursors)@) == Seq::<HitView>::empty(),
        },
{
    let n: usize = cursors.len();
    let mut target: DocId = match cursors[0].doc() {
        Some(d) => d,
        None => {
            assert(ahead(cursors@)[0].len() == 0);
            return None;
        },
    };
    let mut i: usize = 1;
    while i < n
        invariant
            n >= 2,
            n == cursors@.len() == old(cursors)@.len(),
            1 <= i <= n,
            cursors_wf(cursors@),
            hits_ahead(seg, dfs, cursors@) == hits_ahead(seg, dfs, old(cursors)@),
            cursors@[0].rest().len() <= old(cursors)@[0].rest().len(),
            forall|k: int| 0 <= k < i ==> head_doc((#[trigger] cursors@[k]).rest()) == Some(target),
        decreases cursors@[0].rest().len(), n - i,
    {
        let ghost had = cursors@;
        let ghost rests = ahead(had);
        let c = &mut cursors[i];
        let found: Option<DocId> = c.seek(target);
        proof {
            lemma_from_target(rests[i as int], target);
            let now = ahead(cursors@);
            assert(now =~= rests.update(i as int, from_target(rests[i as int], target)));
            assert(now.skip(1) =~= rests.skip(1).update(
                i - 1,
                from_target(rests.skip(1)[i - 1], target),
            ));
            lemma_seek_rest(seg, dfs, rests[0], rests.skip(1), i - 1, target);
            assert forall|k: int| 0 <= k < cursors@.len() implies (#[trigger] cursors@[k]).wf()
                && docs_ascend(cursors@[k].rest()) && positions_ascend(cursors@[k].rest()) by {
                if k != i {
                    assert(cursors@[k] == had[k]);
                }
            }
        }
        match found {
            None => {
                proof {
                    lemma_exhausted(seg, dfs, ahead(cursors@)[0], ahead(cursors@).skip(1), i - 1);
                }
                return None;
            },
            Some(d) => {
                if d == target {
                    i = i + 1;
                } else {
                    let ghost mid = cursors@;
                    let ghost rests2 = ahead(mid);
                    assert(head_doc(rests2[0]) == Some(target));
                    let c0 = &mut cursors[0];
                    let first: Option<DocId> = c0.seek(d);
                    proof {
                        let now = ahead(cursors@);
                        assert(d > target) by {
                            assert(rests2[i as int] == from_target(rests[i as int], target));
                            assert(rests2[i as int][0].doc == d);
                        }
                        lemma_from_target(rests2[0], d);
                        assert(now =~= rests2.update(0, from_target(rests2[0], d)));
                        assert(now.skip(1) =~= rests2.skip(1));
                        assert forall|k: int| 0 <= k < rests2[i as int].len() implies (
                        #[trigger] rests2.skip(1)[i - 1][k]).doc >= d by {
                            if k > 0 {
                                assert(rests2[i as int][0].doc < rests2[i as int][k].doc);
                            }
                        }
                        lemma_seek_first(seg, dfs, rests2[0], rests2.skip(1), i - 1, d);
                        assert forall|k: int| 0 <= k < cursors@.len() implies (
                        #[trigger] cursors@[k]).wf() && docs_ascend(cursors@[k].rest())
                            && positions_ascend(cursors@[k].rest()) by {
                            if k != 0 {
                                assert(cursors@[k] == mid[k]);
                            }
                        }
                    }
                    match first {
                        None => {
                            assert(ahead(cursors@)[0].len() == 0);
                            return None;
                        },
                        Some(d0) => {
                            target = d0;
                        },
                    }
                    i = 1;
                }
            },
        }
    }
    Some(target)
}

/// Whether `p` is among the ascending positions.
fn has_position(ps: &[Position], p: Position) -> (r: bool)
    requires
        ascending(ps@),
    ensures
        r == ps@.contains(p),
{
    let mut lo: usize = 0;
    let mut hi: usize = ps.len();
    while lo < hi
        invariant
            ascending(ps@),
            lo <= hi <= ps@.len(),
            forall|k: int| 0 <= k < lo ==> ps@[k] < p,
            forall|k: int| hi <= k < ps@.len() ==> ps@[k] > p,
        decreases hi - lo,
    {
        let mid: usize = lo + (hi - lo) / 2;
        if ps[mid] == p {
            assert(ps@[mid as int] == p);
            return true;
        } else if ps[mid] < p {
            assert forall|k: int| 0 <= k < mid + 1 implies ps@[k] < p by {
                if k < mid {
                    assert(ps@[k] < ps@[mid as int]);
                }
            }
            lo = mid + 1;
        } else {
            assert forall|k: int| mid <= k < ps@.len() implies ps@[k] > p by {
                if k > mid {
                    assert(ps@[mid as int] < ps@[k]);
                }
            }
            hi = mid;
        }
    }
    false
}

/// Positions by value.
pub open spec fn position_views(ps: Seq<Vec<Position>>) -> Seq<Seq<u32>> {
    Seq::new(ps.len(), |i: int| ps[i]@)
}

/// Counts the occurrences of a phrase in one document. `positions[i]` are the
/// ascending positions of its term `i`.
pub fn phrase_matches(positions: &[Vec<Position>]) -> (n: u32)
    requires
        forall|i: int| 0 <= i < positions@.len() ==> ascending((#[trigger] positions@[i])@),
    ensures
        n == if positions@.len() == 0 {
            0
        } else {
            phrase_count(position_views(positions@), positions@[0]@.len() as int) as u32
        },
{
    let ghost ps = position_views(positions@);
    if positions.len() == 0 {
        return 0;
    }
    let mut count: usize = 0;
    let mut i: usize = 0;
    while i < positions[0].len()
        invariant
            positions@.len() > 0,
            ps == position_views(positions@),
            forall|k: int| 0 <= k < positions@.len() ==> ascending((#[trigger] positions@[k])@),
            i <= positions@[0]@.len(),
            count == phrase_count(ps, i as int) <= i,
        decreases positions@[0]@.len() - i,
    {
        let p: Position = positions[0][i];
        let mut k: usize = 1;
        let mut all: bool = true;
        while all && k < positions.len()
            invariant
                positions@.len() > 0,
                ps == position_views(positions@),
                forall|l: int| 0 <= l < positions@.len() ==> ascending((#[trigger] positions@[l])@),
                1 <= k <= positions@.len(),
                all ==> follows_upto(ps, p, k as int),
                !all ==> !follows(ps, p),
            decreases
                    positions@.len() - k + if all {
                        1int
                    } else {
                        0int
                    },
        {
            let room: u32 = u32::MAX - p;
            assert(ps[k as int] == positions@[k as int]@);
            if k as u64 > room as u64 || !has_position(positions[k].as_slice(), p + k as u32) {
                assert(!continues(ps, p, k as int));
                all = false;
            } else {
                k = k + 1;
            }
        }
        assert(all ==> follows_upto(ps, p, ps.len() as int));
        assert(all == follows(ps, p));
        assert(ps[0] == positions@[0]@);
        if all {
            count = count + 1;
        }
        i = i + 1;
    }
    count as u32
}

/// What the cursors have ahead once the positions were asked for.
spec fn after_all(rests: Seq<Seq<Entry>>) -> Seq<Seq<Entry>> {
    Seq::new(rests.len(), |i: int| after_positions(rests[i]))
}

/// The postings that the cursors are on.
spec fn heads(rests: Seq<Seq<Entry>>) -> Seq<Entry> {
    Seq::new(rests.len(), |i: int| rests[i][0])
}

/// The positions that the cursors are on.
fn read_positions<C: PostingCursor>(cursors: &mut Vec<C>) -> (r: Vec<Vec<Position>>)
    requires
        cursors_wf(old(cursors)@),
        forall|i: int|
            0 <= i < old(cursors)@.len() ==> (#[trigger] old(cursors)@[i]).rest().len() > 0,
    ensures
        final(cursors)@.len() == old(cursors)@.len(),
        cursors_wf(final(cursors)@),
        ahead(final(cursors)@) == after_all(ahead(old(cursors)@)),
        position_views(r@) == positions_in(heads(ahead(old(cursors)@))),
        forall|i: int| 0 <= i < r@.len() ==> ascending((#[trigger] r@[i])@),
{
    let ghost start = ahead(cursors@);
    let mut r: Vec<Vec<Position>> = Vec::new();
    let mut i: usize = 0;
    while i < cursors.len()
        invariant
            i <= cursors@.len(),
            cursors@.len() == old(cursors)@.len(),
            start == ahead(old(cursors)@),
            cursors_wf(cursors@),
            forall|k: int| i <= k < cursors@.len() ==> #[trigger] cursors@[k] == old(cursors)@[k],
            forall|k: int|
                0 <= k < old(cursors)@.len() ==> (#[trigger] old(cursors)@[k]).rest().len() > 0,
            forall|k: int|
                0 <= k < i ==> (#[trigger] cursors@[k]).rest() == after_positions(start[k]),
            position_views(r@) == positions_in(heads(start)).take(i as int),
            forall|k: int| 0 <= k < r@.len() ==> ascending((#[trigger] r@[k])@),
        decreases cursors@.len() - i,
    {
        let ghost had = cursors@;
        let ghost pv = position_views(r@);
        assert(had[i as int] == old(cursors)@[i as int]);
        assert(start[i as int] == had[i as int].rest());
        let c = &mut cursors[i];
        let ps: Vec<Position> = slice_to_vec(c.positions());
        r.push(ps);
        i = i + 1;
        proof {
            let e = start[i - 1][0];
            assert(ps@ == positions_in(heads(start))[i - 1]);
            assert(position_views(r@) =~= pv.push(ps@));
            assert(position_views(r@) =~= positions_in(heads(start)).take(i as int));
            assert(ascending(ps@));
            assert forall|k: int| 0 <= k < cursors@.len() implies (#[trigger] cursors@[k]).wf()
                && docs_ascend(cursors@[k].rest()) && positions_ascend(cursors@[k].rest()) by {
                if k != i - 1 {
                    assert(cursors@[k] == had[k]);
                }
            }
            assert forall|k: int| 0 <= k < i implies (#[trigger] cursors@[k]).rest()
                == after_positions(start[k]) by {
                if k < i - 1 {
                    assert(cursors@[k] == had[k]);
                }
            }
        }
    }
    proof {
        assert(ahead(cursors@) =~= after_all(start));
        assert(position_views(r@) =~= positions_in(heads(start)));
    }
    r
}

/// Where all cursors are on a document whose positions can all be decoded, the
/// hits ahead are what the document gives and those behind it.
proof fn lemma_on_document<S: SegmentReader>(
    seg: S,
    dfs: Seq<u32>,
    rests: Seq<Seq<Entry>>,
    doc: u32,
)
    requires
        rests.len() >= 2,
        forall|i: int| 0 <= i < rests.len() ==> head_doc(#[trigger] rests[i]) == Some(doc),
    ensures
        ({
            let first = rests[0];
            let rest = rests.skip(1);
            &&& in_all(rest, doc)
            &&& entries_at(first[0], rest) == heads(rests)
        }),
{
    let rest = rests.skip(1);
    assert forall|i: int| 0 <= i < rest.len() implies entry_at(#[trigger] rest[i], doc) == Some(
        rests[i + 1][0],
    ) by {
        assert(rest[i] == rests[i + 1]);
        assert(head_doc(rests[i + 1]) == Some(doc));
    }
    assert(head_doc(rests[0]) == Some(doc));
    assert(entries_at(rests[0][0], rest) =~= heads(rests)) by {
        assert forall|i: int| 0 <= i < rests.len() implies #[trigger] entries_at(
            rests[0][0],
            rest,
        )[i] == heads(rests)[i] by {
            if i > 0 {
                assert(rest[i - 1] == rests[i]);
                assert(entry_at(rest[i - 1], doc) == Some(rests[i][0]));
            }
        }
    }
}

/// A phrase does not occur where a term has no position.
proof fn lemma_no_positions(ps: Seq<Seq<u32>>, k: int, n: int)
    requires
        0 <= k < ps.len(),
        ps[k].len() == 0,
        0 <= n <= ps[0].len(),
    ensures
        phrase_count(ps, n) == 0,
    decreases n,
{
    if n > 0 {
        lemma_no_positions(ps, k, n - 1);
        assert(!continues(ps, ps[0][n - 1], k));
    }
}

/// What the document that all cursors are on gives.
fn eval_document<S: SegmentReader, C: PostingCursor>(
    seg: &S,
    cursors: &mut Vec<C>,
    doc: DocId,
    dfs: &Vec<u32>,
) -> (r: Option<Hit>)
    requires
        seg.wf(),
        old(cursors)@.len() >= 2,
        cursors_wf(old(cursors)@),
        aligned(old(cursors)@, doc),
    ensures
        final(cursors)@.len() == old(cursors)@.len(),
        cursors_wf(final(cursors)@),
        final(cursors)@[0].rest().len() < old(cursors)@[0].rest().len(),
        hits_ahead(*seg, dfs@, old(cursors)@) == match r {
            Some(h) => seq![h@] + hits_ahead(*seg, dfs@, final(cursors)@),
            None => hits_ahead(*seg, dfs@, final(cursors)@),
        },
{
    let ghost start = cursors@;
    let ghost rests = ahead(start);
    proof {
        assert forall|i: int| 0 <= i < rests.len() implies head_doc(#[trigger] rests[i]) == Some(
            doc,
        ) by {
            assert(head_doc(start[i].rest()) == Some(doc));
        }
        lemma_on_document(*seg, dfs@, rests, doc);
        assert(head_doc(rests[0]) == Some(doc));
        assert forall|i: int| 0 <= i < start.len() implies (#[trigger] start[i]).rest().len()
            > 0 by {
            assert(head_doc(start[i].rest()) == Some(doc));
        }
    }
    let ghost es = heads(rests);
    let ghost ps = positions_in(es);
    let mut r: Option<Hit> = None;
    match seg.doc_len(doc) {
        Some(len) => {
            let positions = read_positions(cursors);
            let tf: u32 = phrase_matches(positions.as_slice());
            proof {
                assert(positions@.len() == position_views(positions@).len() == ps.len());
                assert(position_views(positions@)[0] == positions@[0]@);
                if !decodable(es) {
                    let k = choose|k: int| 0 <= k < es.len() && (#[trigger] es[k]).positions is None;
                    assert(ps[k].len() == 0);
                    lemma_no_positions(ps, k, ps[0].len() as int);
                }
            }
            if tf > 0 {
                let mut copy: Vec<u32> = dfs.clone();
                assert(copy@ =~= dfs@);
                r = Some(Hit { doc, score: Score::Phrase { dfs: copy, tf, len } });
            }
        },
        None => {},
    }
    let ghost mid = cursors@;
    let ghost mids = ahead(mid);
    let c = &mut cursors[0];
    let _ = c.advance();
    proof {
        let now = ahead(cursors@);
        assert(now =~= mids.update(0, step(mids[0])));
        assert(now.skip(1) =~= mids.skip(1));
        if mids[0].len() > 0 {
            lemma_drop_first(mids[0]);
        }
        assert forall|k: int| 0 <= k < cursors@.len() implies (#[trigger] cursors@[k]).wf()
            && docs_ascend(cursors@[k].rest()) && positions_ascend(cursors@[k].rest()) by {
            if k != 0 {
                assert(cursors@[k] == mid[k]);
            }
        }
        if seg.length(doc) is Some {
            assert(mids == after_all(rests));
            if decodable(es) {
                assert forall|k: int| 0 <= k < rests.len() implies #[trigger] mids[k] == rests[k] by {
                    assert(es[k].positions is Some);
                }
                assert(mids =~= rests);
            } else {
                let k = choose|k: int| 0 <= k < es.len() && (#[trigger] es[k]).positions is None;
                assert(mids[k].len() == 0);
                if k == 0 {
                    assert(now[0].len() == 0);
                } else {
                    assert(now.skip(1)[k - 1] == mids[k]);
                    lemma_exhausted(*seg, dfs@, now[0], now.skip(1), k - 1);
                }
            }
        }
    }
    r
}

/// The hits of a phrase whose terms have these cursors.
fn eval_cursors<S: SegmentReader, C: PostingCursor>(
    seg: &S,
    cursors: Vec<C>,
    dfs: &Vec<u32>,
) -> (r: Vec<Hit>)
    requires
        seg.wf(),
        cursors@.len() >= 2,
        cursors_wf(cursors@),
    ensures
        hit_views(r@) == hits_ahead(*seg, dfs@, cursors@),
{
    let ghost all = hits_ahead(*seg, dfs@, cursors@);
    let mut cursors = cursors;
    let mut out: Vec<Hit> = Vec::new();
    let mut at: Option<DocId> = align::<S, C>(&mut cursors, Ghost(*seg), Ghost(dfs@));
    assert(hit_views(out@) + hits_ahead(*seg, dfs@, cursors@) =~= all);
    while at.is_some()
        invariant
            seg.wf(),
            cursors@.len() >= 2,
            cursors_wf(cursors@),
            match at {
                Some(d) => aligned(cursors@, d),
                None => hits_ahead(*seg, dfs@, cursors@) == Seq::<HitView>::empty(),
            },
            all == hit_views(out@) + hits_ahead(*seg, dfs@, cursors@),
        decreases
                cursors@[0].rest().len() + if at is Some {
                    1int
                } else {
                    0int
                },
    {
        let ghost had = hit_views(out@);
        match at {
            Some(doc) => {
                match eval_document(seg, &mut cursors, doc, dfs) {
                    Some(h) => {
                        out.push(h);
                        proof {
                            assert(hit_views(out@) =~= had.push(h@));
                            let more = hits_ahead(*seg, dfs@, cursors@);
                            assert(had + (seq![h@] + more) =~= had.push(h@) + more);
                        }
                    },
                    None => {},
                }
                at = align::<S, C>(&mut cursors, Ghost(*seg), Ghost(dfs@));
            },
            None => {},
        }
    }
    assert(hit_views(out@) + Seq::<HitView>::empty() =~= hit_views(out@));
    out
}

/// The document frequencies that scores use: each query term's, over all
/// segments. A segment's own would make a score depend on where a document is.
struct Stats {
    terms: Vec<String>,
    dfs: Vec<u32>,
}

impl Stats {
    /// The frequencies are these, for the terms that the node names.
    spec fn tells(&self, dfs: Map<Seq<char>, u32>, n: NodeView) -> bool {
        &&& self.terms@.len() == self.dfs@.len()
        &&& forall|i: int|
            #![trigger self.terms@[i]]
            0 <= i < self.terms@.len() ==> self.dfs@[i] == dfs[self.terms@[i]@]
        &&& forall|t: Seq<char>| mentions(n, t) ==> #[trigger] views(self.terms@).contains(t)
    }

    fn df(&self, term: &str, Ghost(dfs): Ghost<Map<Seq<char>, u32>>, Ghost(n): Ghost<NodeView>) -> (r:
        u32)
        requires
            self.tells(dfs, n),
            mentions(n, term@),
        ensures
            r == dfs[term@],
    {
        proof {
            assert(views(self.terms@).contains(term@));
        }
        let ghost k = choose|k: int| 0 <= k < self.terms@.len() && views(self.terms@)[k] == term@;
        let mut i: usize = 0;
        while i < self.terms.len()
            invariant
                self.tells(dfs, n),
                i <= self.terms@.len(),
                0 <= k < self.terms@.len(),
                views(self.terms@)[k] == term@,
                i <= k,
            decreases self.terms@.len() - i,
        {
            if same(self.terms[i].as_str(), term) {
                return self.dfs[i];
            }
            assert(i != k);
            i = i + 1;
        }
        0
    }
}

/// Every hit is a live document.
spec fn live<S: SegmentReader>(seg: S, hs: Seq<HitView>) -> bool {
    forall|d: u32| #[trigger] hit(hs, d) ==> seg.length(d) is Some
}

/// The hits of a term.
fn eval_term<S: SegmentReader>(
    seg: &S,
    term: &str,
    stats: &Stats,
    Ghost(dfs): Ghost<Map<Seq<char>, u32>>,
    Ghost(n): Ghost<NodeView>,
) -> (r: Vec<Hit>)
    requires
        seg.wf(),
        stats.tells(dfs, n),
        mentions(n, term@),
    ensures
        hit_views(r@) == term_hits(*seg, dfs, term@),
        ascending_hits(hit_views(r@)),
        live(*seg, hit_views(r@)),
{
    let mut out: Vec<Hit> = Vec::new();
    assert(hit_views(out@) =~= Seq::empty());
    let list = match seg.postings(term) {
        Some(l) => l,
        None => return out,
    };
    let df: u32 = stats.df(term, Ghost(dfs), Ghost(n));
    let ghost es = list.entries();
    let ghost mut k: int = 0;
    proof {
        list.lemma_ascends();
    }
    let mut cur = list.cursor();
    let mut at: Option<DocId> = cur.doc();
    assert(es.skip(0) =~= es);
    while at.is_some()
        invariant
            seg.wf(),
            cur.wf(),
            0 <= k <= es.len(),
            cur.rest() == es.skip(k),
            at == head_doc(cur.rest()),
            hit_views(out@) == live_hits(*seg, df, es, k),
        decreases es.len() - k,
    {
        let ghost had = hit_views(out@);
        match at {
            Some(doc) => {
                assert(es.skip(k)[0] == es[k]);
                match seg.doc_len(doc) {
                    Some(len) => {
                        let tf: u32 = cur.term_freq();
                        let h = Hit { doc, score: Score::Term { df, tf, len } };
                        out.push(h);
                        assert(hit_views(out@) =~= had.push(h@));
                    },
                    None => {},
                }
            },
            None => {},
        }
        at = cur.advance();
        proof {
            assert(es.skip(k).drop_first() =~= es.skip(k + 1));
            k = k + 1;
        }
    }
    proof {
        assert(k == es.len());
        lemma_live_hits(*seg, df, es, k);
    }
    out
}

/// The hits of a term ascend, and are its live documents.
pub proof fn lemma_live_hits<S: SegmentReader>(seg: S, df: u32, es: Seq<Entry>, n: int)
    requires
        docs_ascend(es),
        0 <= n <= es.len(),
    ensures
        ascending_hits(live_hits(seg, df, es, n)),
        forall|d: u32| #[trigger]
            hit(live_hits(seg, df, es, n), d) <==> seg.length(d) is Some && exists|i: int|
                0 <= i < n && (#[trigger] es[i]).doc == d,
    decreases n,
{
    if n > 0 {
        lemma_live_hits(seg, df, es, n - 1);
        let before = live_hits(seg, df, es, n - 1);
        let now = live_hits(seg, df, es, n);
        assert forall|i: int, j: int| 0 <= i < j < now.len() implies (#[trigger] now[i]).doc < (
        #[trigger] now[j]).doc by {
            if j == before.len() {
                assert(now[i] == before[i]);
                assert(hit(before, before[i].doc));
                let k = choose|k: int| 0 <= k < n - 1 && (#[trigger] es[k]).doc == before[i].doc;
                assert(es[k].doc < es[n - 1].doc);
            } else {
                assert(now[i] == before[i] && now[j] == before[j]);
            }
        }
        assert forall|d: u32| #[trigger] hit(now, d) <==> seg.length(d) is Some && exists|i: int|
            0 <= i < n && (#[trigger] es[i]).doc == d by {
            assert(hit(before, d) <==> seg.length(d) is Some && exists|i: int|
                0 <= i < n - 1 && (#[trigger] es[i]).doc == d);
            if hit(now, d) {
                let i = choose|i: int| 0 <= i < now.len() && (#[trigger] now[i]).doc == d;
                if i < before.len() {
                    assert(before[i].doc == d);
                    assert(hit(before, d));
                } else {
                    assert(es[n - 1].doc == d);
                }
            }
            if seg.length(d) is Some && exists|i: int| 0 <= i < n && (#[trigger] es[i]).doc == d {
                let i = choose|i: int| 0 <= i < n && (#[trigger] es[i]).doc == d;
                if i == n - 1 {
                    assert(now[now.len() - 1].doc == d);
                } else {
                    assert(hit(before, d));
                    let k = choose|k: int| 0 <= k < before.len() && (#[trigger] before[k]).doc == d;
                    assert(now[k].doc == d);
                }
            }
        }
    }
}

/// The hits of a phrase ascend and are among its first term's documents.
proof fn lemma_phrase_hits<S: SegmentReader>(
    seg: S,
    dfs: Seq<u32>,
    first: Seq<Entry>,
    rest: Seq<Seq<Entry>>,
)
    requires
        docs_ascend(first),
    ensures
        ascending_hits(phrase_hits(seg, dfs, first, rest)),
        forall|i: int|
            #![trigger phrase_hits(seg, dfs, first, rest)[i]]
            0 <= i < phrase_hits(seg, dfs, first, rest).len() ==> {
                let d = phrase_hits(seg, dfs, first, rest)[i].doc;
                &&& first.len() > 0
                &&& first[0].doc <= d
                &&& seg.length(d) is Some
            },
    decreases first.len(),
{
    if first.len() > 0 {
        lemma_drop_first(first);
        let next = first.drop_first();
        lemma_phrase_hits(seg, dfs, next, rest);
        let tail = phrase_hits(seg, dfs, next, rest);
        let now = phrase_hits(seg, dfs, first, rest);
        if next.len() > 0 {
            assert(first[0].doc < first[1].doc);
            assert(next[0] == first[1]);
        }
        assert forall|i: int| #![trigger now[i]] 0 <= i < now.len() implies first[0].doc
            <= now[i].doc && seg.length(now[i].doc) is Some by {
            if now.len() == tail.len() {
                if now == tail {
                    assert(tail[i] == now[i]);
                }
            } else if i > 0 {
                assert(now[i] == tail[i - 1]);
            }
        }
        assert forall|i: int, j: int| 0 <= i < j < now.len() implies (#[trigger] now[i]).doc < (
        #[trigger] now[j]).doc by {
            if now.len() == tail.len() {
                if now == tail {
                    assert(tail[i].doc < tail[j].doc);
                }
            } else {
                assert(now[j] == tail[j - 1]);
                if i > 0 {
                    assert(now[i] == tail[i - 1]);
                } else {
                    assert(next[0].doc <= tail[j - 1].doc);
                }
            }
        }
    }
}

/// The hits of a phrase of two terms or more.
fn eval_phrase<S: SegmentReader>(
    seg: &S,
    terms: &Vec<String>,
    stats: &Stats,
    Ghost(dfs): Ghost<Map<Seq<char>, u32>>,
    Ghost(n): Ghost<NodeView>,
) -> (r: Vec<Hit>)
    requires
        seg.wf(),
        stats.tells(dfs, n),
        forall|t: Seq<char>| #[trigger] views(terms@).contains(t) ==> mentions(n, t),
    ensures
        hit_views(r@) == node_hits(*seg, dfs, NodeView::Phrase(views(terms@))),
        ascending_hits(hit_views(r@)),
        live(*seg, hit_views(r@)),
{
    let ghost ts = views(terms@);
    if terms.len() == 0 {
        let r: Vec<Hit> = Vec::new();
        assert(hit_views(r@) =~= Seq::empty());
        return r;
    }
    if terms.len() == 1 {
        assert(ts[0] == terms@[0]@);
        assert(ts.contains(ts[0]));
        return eval_term(seg, terms[0].as_str(), stats, Ghost(dfs), Ghost(n));
    }
    let mut cursors: Vec<<S::List as PostingList>::Cursor> = Vec::new();
    let mut own: Vec<u32> = Vec::new();
    let mut i: usize = 0;
    while i < terms.len()
        invariant
            seg.wf(),
            ts == views(terms@),
            stats.tells(dfs, n),
            forall|t: Seq<char>| #[trigger] ts.contains(t) ==> mentions(n, t),
            i <= terms@.len(),
            cursors@.len() == i,
            cursors_wf(cursors@),
            forall|k: int|
                #![trigger ts[k]]
                0 <= k < i ==> seg.lookup(ts[k]) is Some && cursors@[k].rest() == seg.lookup(
                    ts[k],
                )->Some_0.0,
            own@ == freqs(dfs, ts).take(i as int),
        decreases terms@.len() - i,
    {
        let ghost had = cursors@;
        assert(ts[i as int] == terms@[i as int]@);
        assert(ts.contains(ts[i as int]));
        match seg.postings(terms[i].as_str()) {
            Some(l) => {
                proof {
                    l.lemma_ascends();
                }
                cursors.push(l.cursor());
                own.push(stats.df(terms[i].as_str(), Ghost(dfs), Ghost(n)));
                proof {
                    assert forall|k: int| 0 <= k < cursors@.len() implies (
                    #[trigger] cursors@[k]).wf() && docs_ascend(cursors@[k].rest())
                        && positions_ascend(cursors@[k].rest()) by {
                        if k < had.len() {
                            assert(cursors@[k] == had[k]);
                        }
                    }
                    assert forall|k: int| #![trigger ts[k]] 0 <= k < i + 1 implies seg.lookup(
                        ts[k],
                    ) is Some && cursors@[k].rest() == seg.lookup(ts[k])->Some_0.0 by {
                        if k < had.len() {
                            assert(cursors@[k] == had[k]);
                        }
                    }
                    assert(own@ =~= freqs(dfs, ts).take(i + 1));
                }
            },
            None => {
                let r: Vec<Hit> = Vec::new();
                assert(hit_views(r@) =~= Seq::empty());
                return r;
            },
        }
        i = i + 1;
    }
    proof {
        let ls = Seq::new(ts.len(), |k: int| seg.lookup(ts[k])->Some_0.0);
        assert(term_entries(*seg, ts) == Some(ls));
        assert(ahead(cursors@) =~= ls);
        assert(own@ =~= freqs(dfs, ts));
        assert(docs_ascend(cursors@[0].rest()));
        lemma_phrase_hits(*seg, own@, ls[0], ls.skip(1));
    }
    eval_cursors(seg, cursors, &own)
}

/// The operands of a conjunction name what it names.
proof fn lemma_and_within(must: Seq<NodeView>, must_not: Seq<NodeView>)
    ensures
        within(must, NodeView::And { must, must_not }),
        within(must_not, NodeView::And { must, must_not }),
{
    let n = NodeView::And { must, must_not };
    assert forall|i: int, t: Seq<char>|
        #![trigger mentions(must[i], t)]
        0 <= i < must.len() && mentions(must[i], t) implies mentions(n, t) by {
        lemma_any_mentions(must, i, t);
    }
    assert forall|i: int, t: Seq<char>|
        #![trigger mentions(must_not[i], t)]
        0 <= i < must_not.len() && mentions(must_not[i], t) implies mentions(n, t) by {
        lemma_any_mentions(must_not, i, t);
    }
}

/// The clauses of a disjunction name what it names.
proof fn lemma_or_within(cs: Seq<NodeView>)
    ensures
        within(cs, NodeView::Or(cs)),
{
    let n = NodeView::Or(cs);
    assert forall|i: int, t: Seq<char>|
        #![trigger mentions(cs[i], t)]
        0 <= i < cs.len() && mentions(cs[i], t) implies mentions(n, t) by {
        lemma_any_mentions(cs, i, t);
    }
}

/// Every operand names only what the whole names.
spec fn within(ns: Seq<NodeView>, n: NodeView) -> bool {
    forall|i: int, t: Seq<char>|
        #![trigger mentions(ns[i], t)]
        0 <= i < ns.len() && mentions(ns[i], t) ==> mentions(n, t)
}

/// The hits of each of several nodes.
fn eval_all<S: SegmentReader>(
    seg: &S,
    ns: &Vec<Node>,
    stats: &Stats,
    Ghost(dfs): Ghost<Map<Seq<char>, u32>>,
    Ghost(n): Ghost<NodeView>,
) -> (r: Vec<Vec<Hit>>)
    requires
        seg.wf(),
        stats.tells(dfs, n),
        within(nodes(ns@), n),
    ensures
        list_views(r@) == all_hits(*seg, dfs, nodes(ns@)),
        all_ascending(list_views(r@)),
        forall|i: int| 0 <= i < r@.len() ==> live(*seg, #[trigger] list_views(r@)[i]),
    decreases ns,
{
    let ghost vs = nodes(ns@);
    let mut out: Vec<Vec<Hit>> = Vec::new();
    let mut i: usize = 0;
    proof {
        lemma_all_hits(*seg, dfs, vs);
        assert(list_views(out@) =~= all_hits(*seg, dfs, vs).take(0));
    }
    while i < ns.len()
        invariant
            seg.wf(),
            stats.tells(dfs, n),
            vs == nodes(ns@),
            within(vs, n),
            i <= ns@.len(),
            all_hits(*seg, dfs, vs).len() == vs.len(),
            forall|k: int|
                #![trigger all_hits(*seg, dfs, vs)[k]]
                0 <= k < vs.len() ==> all_hits(*seg, dfs, vs)[k] == node_hits(*seg, dfs, vs[k]),
            list_views(out@) == all_hits(*seg, dfs, vs).take(i as int),
            all_ascending(list_views(out@)),
            forall|k: int| 0 <= k < out@.len() ==> live(*seg, #[trigger] list_views(out@)[k]),
        decreases ns@.len() - i,
    {
        let ghost had = list_views(out@);
        proof {
            assert(vs[i as int] == ns@[i as int]@);
            assert forall|t: Seq<char>| mentions(ns@[i as int]@, t) implies #[trigger] views(
                stats.terms@,
            ).contains(t) by {
                assert(mentions(vs[i as int], t));
                assert(mentions(n, t));
            }
        }
        let h = eval_node(seg, &ns[i], stats, Ghost(dfs));
        out.push(h);
        i = i + 1;
        proof {
            assert(list_views(out@) =~= had.push(hit_views(h@)));
            assert(had.len() == out@.len() - 1);
            assert(list_views(out@) =~= all_hits(*seg, dfs, vs).take(i as int));
        }
    }
    assert(list_views(out@) =~= all_hits(*seg, dfs, vs));
    out
}

/// The hits of a node.
fn eval_node<S: SegmentReader>(
    seg: &S,
    node: &Node,
    stats: &Stats,
    Ghost(dfs): Ghost<Map<Seq<char>, u32>>,
) -> (r: Vec<Hit>)
    requires
        seg.wf(),
        stats.tells(dfs, node@),
    ensures
        hit_views(r@) == node_hits(*seg, dfs, node@),
        ascending_hits(hit_views(r@)),
        live(*seg, hit_views(r@)),
    decreases node,
{
    match node {
        Node::Term(t) => eval_term(seg, t.as_str(), stats, Ghost(dfs), Ghost(node@)),
        Node::Phrase(ts) => eval_phrase(seg, ts, stats, Ghost(dfs), Ghost(node@)),
        Node::And { must, must_not } => {
            proof {
                lemma_and_view(*must, *must_not);
                lemma_and_within(nodes(must@), nodes(must_not@));
            }
            let wanted = eval_all(seg, must, stats, Ghost(dfs), Ghost(node@));
            let mut result = intersect(wanted);
            let unwanted = eval_all(seg, must_not, stats, Ghost(dfs), Ghost(node@));
            let ghost base = hit_views(result@);
            let ghost ls = list_views(unwanted@);
            proof {
                let ws = list_views(wanted@);
                assert forall|d: u32| #[trigger] hit(base, d) implies seg.length(d) is Some by {
                    assert(hit(ws[0], d));
                    assert(live(*seg, ws[0]));
                }
            }
            let mut k: usize = 0;
            while k < unwanted.len()
                invariant
                    k <= unwanted@.len(),
                    ls == list_views(unwanted@),
                    all_ascending(ls),
                    ascending_hits(hit_views(result@)),
                    live(*seg, hit_views(result@)),
                    hit_views(result@) == without_all(base, ls, k as int),
                decreases unwanted@.len() - k,
            {
                proof {
                    assert(ls[k as int] == hit_views(unwanted@[k as int]@));
                    lemma_without(hit_views(result@), ls[k as int]);
                }
                result = difference(result, unwanted[k].as_slice());
                k = k + 1;
            }
            proof {
                lemma_all_hits(*seg, dfs, nodes(must_not@));
            }
            result
        },
        Node::Or(cs) => {
            proof {
                lemma_or_view(*cs);
                lemma_or_within(nodes(cs@));
                lemma_all_hits(*seg, dfs, nodes(cs@));
            }
            let lists = eval_all(seg, cs, stats, Ghost(dfs), Ghost(node@));
            proof {
                let ls = list_views(lists@);
                lemma_united(ls, ls.len() as int);
                let all = united(ls, ls.len() as int);
                assert forall|d: u32| #[trigger] hit(all, d) implies seg.length(d) is Some by {
                    let k = choose|k: int| 0 <= k < ls.len() && hit(#[trigger] ls[k], d);
                    assert(live(*seg, ls[k]));
                }
            }
            union(lists)
        },
    }
}

/// Adds the terms that a node names to those already there, each once.
fn query_terms(node: &Node, out: &mut Vec<String>)
    ensures
        forall|t: Seq<char>| #[trigger]
            views(final(out)@).contains(t) <==> views(old(out)@).contains(t) || mentions(node@, t),
    decreases node,
{
    match node {
        Node::Term(t) => {
            add_term(out, t.as_str());
        },
        Node::Phrase(ts) => {
            let ghost start = views(out@);
            let mut i: usize = 0;
            while i < ts.len()
                invariant
                    i <= ts@.len(),
                    forall|t: Seq<char>| #[trigger]
                        views(out@).contains(t) <==> start.contains(t) || views(ts@).take(
                            i as int,
                        ).contains(t),
                decreases ts@.len() - i,
            {
                let ghost had = views(out@);
                add_term(out, ts[i].as_str());
                i = i + 1;
                proof {
                    let all = views(ts@);
                    assert(all.take(i as int) =~= all.take(i - 1).push(all[i - 1]));
                    assert forall|t: Seq<char>| #[trigger]
                        views(out@).contains(t) <==> start.contains(t) || all.take(
                            i as int,
                        ).contains(t) by {
                        lemma_push_contains(all.take(i - 1), all[i - 1], t);
                        assert(had.contains(t) <==> start.contains(t) || all.take(i - 1).contains(
                            t,
                        ));
                    }
                }
            }
            assert(views(ts@).take(i as int) =~= views(ts@));
        },
        Node::And { must, must_not } => {
            proof {
                lemma_and_view(*must, *must_not);
            }
            let ghost start = views(out@);
            terms_of_all(must, out);
            let ghost mid = views(out@);
            terms_of_all(must_not, out);
            proof {
                assert forall|t: Seq<char>| #[trigger]
                    views(out@).contains(t) <==> start.contains(t) || mentions(node@, t) by {
                    assert(mid.contains(t) <==> start.contains(t) || any_mentions(
                        nodes(must@),
                        t,
                    ));
                }
            }
        },
        Node::Or(cs) => {
            proof {
                lemma_or_view(*cs);
            }
            terms_of_all(cs, out);
        },
    }
}

fn terms_of_all(ns: &Vec<Node>, out: &mut Vec<String>)
    ensures
        forall|t: Seq<char>| #[trigger]
            views(final(out)@).contains(t) <==> views(old(out)@).contains(t) || any_mentions(
                nodes(ns@),
                t,
            ),
    decreases ns,
{
    let ghost start = views(out@);
    let ghost vs = nodes(ns@);
    let mut i: usize = 0;
    assert(vs.take(0) =~= Seq::empty());
    while i < ns.len()
        invariant
            i <= ns@.len(),
            vs == nodes(ns@),
            forall|t: Seq<char>| #[trigger]
                views(out@).contains(t) <==> start.contains(t) || any_mentions(
                    vs.take(i as int),
                    t,
                ),
        decreases ns@.len() - i,
    {
        let ghost had = views(out@);
        query_terms(&ns[i], out);
        i = i + 1;
        proof {
            assert(vs.take(i as int).drop_last() =~= vs.take(i - 1));
            assert(vs.take(i as int).last() == ns@[i - 1]@);
            assert forall|t: Seq<char>| #[trigger]
                views(out@).contains(t) <==> start.contains(t) || any_mentions(
                    vs.take(i as int),
                    t,
                ) by {
                assert(had.contains(t) <==> start.contains(t) || any_mentions(vs.take(i - 1), t));
            }
        }
    }
    assert(vs.take(i as int) =~= vs);
}

fn add_term(out: &mut Vec<String>, term: &str)
    ensures
        forall|t: Seq<char>| #[trigger]
            views(final(out)@).contains(t) <==> views(old(out)@).contains(t) || t == term@,
{
    let ghost had = views(out@);
    if !is_among(out, term) {
        out.push(term.to_string());
        proof {
            assert(views(out@) =~= had.push(term@));
            assert forall|t: Seq<char>| #[trigger]
                views(out@).contains(t) <==> had.contains(t) || t == term@ by {
                lemma_push_contains(had, term@, t);
            }
        }
    }
}

/// The document frequency of a term over all segments.
fn sum_df<S: SegmentReader>(segments: &Vec<S>, term: &str) -> (df: u32)
    requires
        forall|i: int| 0 <= i < segments@.len() ==> (#[trigger] segments@[i]).wf(),
    ensures
        df == total_df(segments@, term@, segments@.len() as int),
{
    let mut df: u32 = 0;
    let mut i: usize = 0;
    while i < segments.len()
        invariant
            i <= segments@.len(),
            forall|k: int| 0 <= k < segments@.len() ==> (#[trigger] segments@[k]).wf(),
            df == total_df(segments@, term@, i as int),
        decreases segments@.len() - i,
    {
        match segments[i].postings(term) {
            Some(l) => {
                df = df.saturating_add(l.doc_freq());
            },
            None => {},
        }
        i = i + 1;
    }
    df
}

/// Evaluates a query over every segment. The hits come segment by segment, those
/// of each in ascending order.
pub fn evaluate<R: IndexReader>(reader: &R, node: &Node) -> (r: Vec<Hit>)
    requires
        reader.wf(),
    ensures
        ({
            let parts = reader.parts();
            hit_views(r@) == index_hits(
                parts,
                query_dfs(parts, node@),
                node@,
                parts.len() as int,
            )
        }),
{
    let segments = reader.segments();
    let ghost parts = reader.parts();
    let ghost dfs = query_dfs(parts, node@);
    let mut terms: Vec<String> = Vec::new();
    assert(views(terms@) =~= Seq::empty());
    query_terms(node, &mut terms);
    let mut own: Vec<u32> = Vec::new();
    let mut i: usize = 0;
    proof {
        assert forall|k: int| 0 <= k < terms@.len() implies mentions(
            node@,
            (#[trigger] terms@[k])@,
        ) by {
            assert(views(terms@)[k] == terms@[k]@);
            assert(views(terms@).contains(terms@[k]@));
            assert(!Seq::<Seq<char>>::empty().contains(terms@[k]@));
        }
    }
    while i < terms.len()
        invariant
            parts == segments@,
            forall|k: int| 0 <= k < segments@.len() ==> (#[trigger] segments@[k]).wf(),
            dfs == query_dfs(parts, node@),
            forall|k: int| 0 <= k < terms@.len() ==> mentions(node@, (#[trigger] terms@[k])@),
            i <= terms@.len(),
            own@.len() == i,
            forall|k: int|
                #![trigger terms@[k]]
                0 <= k < i ==> own@[k] == dfs[terms@[k]@],
        decreases terms@.len() - i,
    {
        own.push(sum_df(&segments, terms[i].as_str()));
        i = i + 1;
    }
    let stats = Stats { terms, dfs: own };
    let mut out: Vec<Hit> = Vec::new();
    let mut s: usize = 0;
    assert(hit_views(out@) =~= Seq::empty());
    while s < segments.len()
        invariant
            parts == segments@,
            forall|k: int| 0 <= k < segments@.len() ==> (#[trigger] segments@[k]).wf(),
            stats.tells(dfs, node@),
            s <= segments@.len(),
            hit_views(out@) == index_hits(parts, dfs, node@, s as int),
        decreases segments@.len() - s,
    {
        let base: DocId = segments[s].base();
        let hits = eval_node(&segments[s], node, &stats, Ghost(dfs));
        proof {
            let seg = segments@[s as int];
            let hv = hit_views(hits@);
            seg.lemma_bounds();
            assert forall|k: int| 0 <= k < hv.len() implies base + (#[trigger] hv[k]).doc
                <= u32::MAX by {
                assert(hit(hv, hv[k].doc));
                assert(seg.length(hv[k].doc) is Some);
            }
        }
        push_offset(&mut out, hits, base);
        s = s + 1;
    }
    out
}

/// Appends the hits under their global numbers.
fn push_offset(out: &mut Vec<Hit>, hits: Vec<Hit>, base: DocId)
    requires
        forall|i: int|
            0 <= i < hit_views(hits@).len() ==> base + (#[trigger] hit_views(hits@)[i]).doc
                <= u32::MAX,
    ensures
        hit_views(final(out)@) == hit_views(old(out)@) + offset(hit_views(hits@), base),
{
    let ghost hv = hit_views(hits@);
    let ghost start = hit_views(out@);
    let ghost moved = offset(hv, base);
    let mut hits = hits;
    let mut k: usize = 0;
    assert(hit_views(hits@) =~= moved.take(0) + hv.skip(0));
    while k < hits.len()
        invariant
            k <= hits@.len() == hv.len() == moved.len(),
            moved == offset(hv, base),
            forall|i: int| 0 <= i < hv.len() ==> base + (#[trigger] hv[i]).doc <= u32::MAX,
            hit_views(hits@) == moved.take(k as int) + hv.skip(k as int),
        decreases hits@.len() - k,
    {
        let ghost had = hit_views(hits@);
        assert(had[k as int] == hv[k as int]);
        assert(had[k as int] == hits@[k as int]@);
        let h = &mut hits[k];
        h.doc = base + h.doc;
        k = k + 1;
        proof {
            assert(hit_views(hits@) =~= had.update(k - 1, moved[k - 1]));
            assert(hit_views(hits@) =~= moved.take(k as int) + hv.skip(k as int));
        }
    }
    assert(hit_views(hits@) =~= moved);
    out.append(&mut hits);
    assert(hit_views(out@) =~= start + moved);
}

} // verus!
