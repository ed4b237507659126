//! What the hits of a query are: exactly the documents that match it.

use vstd::prelude::*;

use super::exec::{
    all_hits, decodable, entries_at, entry_at, in_all, index_hits, lemma_all_hits, lemma_drop_first,
    lemma_entry_at, lemma_live_hits, node_hits, offset, phrase_count, phrase_hits, positions_in,
    term_entries, term_hits,
};
use super::hits::{
    all_ascending, ascending_hits, hit, intersected, lemma_intersected, lemma_united, lemma_without,
    united, without_all, HitView,
};
use super::parser::{lemma_and_view, lemma_or_view, nodes, Node, NodeView};
use crate::index::postings::{docs_ascend, Entry};
use crate::index::SegmentReader;

verus! {

/// All postings of the segment ascend and can be decoded.
pub open spec fn readable<S: SegmentReader>(seg: S) -> bool {
    forall|t: Seq<char>|
        (#[trigger] seg.lookup(t)) matches Some((es, _)) ==> docs_ascend(es) && sound(es)
}

/// The positions of all postings can be decoded, and their number fits.
pub open spec fn sound(es: Seq<Entry>) -> bool {
    forall|i: int|
        0 <= i < es.len() ==> ((#[trigger] es[i]).positions matches Some(p) && p.len() <= u32::MAX)
}

/// The term occurs in a live document.
pub open spec fn has_term<S: SegmentReader>(seg: S, t: Seq<char>, d: u32) -> bool {
    seg.length(d) is Some && (seg.lookup(t) matches Some((es, _)) && entry_at(es, d) is Some)
}

/// The postings of the terms of a phrase in a document.
pub open spec fn entries_in<S: SegmentReader>(seg: S, ts: Seq<Seq<char>>, d: u32) -> Seq<Entry> {
    Seq::new(ts.len(), |i: int| entry_at(seg.lookup(ts[i])->Some_0.0, d)->Some_0)
}

/// The terms occur in a live document at consecutive positions.
pub open spec fn has_phrase<S: SegmentReader>(seg: S, ts: Seq<Seq<char>>, d: u32) -> bool {
    &&& forall|i: int| 0 <= i < ts.len() ==> has_term(seg, #[trigger] ts[i], d)
    &&& ({
        let ps = positions_in(entries_in(seg, ts, d));
        phrase_count(ps, ps[0].len() as int) > 0
    })
}

/// The document matches the query.
pub open spec fn matches_doc<S: SegmentReader>(seg: S, n: NodeView, d: u32) -> bool
    decreases n,
{
    match n {
        NodeView::Term(t) => has_term(seg, t, d),
        NodeView::Phrase(ts) => if ts.len() == 0 {
            false
        } else if ts.len() == 1 {
            has_term(seg, ts[0], d)
        } else {
            has_phrase(seg, ts, d)
        },
        NodeView::And { must, must_not } => {
            &&& must.len() > 0
            &&& all_match(seg, must, d)
            &&& !any_match(seg, must_not, d)
        },
        NodeView::Or(cs) => any_match(seg, cs, d),
    }
}

/// The document matches all of the queries.
pub open spec fn all_match<S: SegmentReader>(seg: S, ns: Seq<NodeView>, d: u32) -> bool
    decreases ns,
{
    ns.len() == 0 || matches_doc(seg, ns.last(), d) && all_match(seg, ns.drop_last(), d)
}

/// The document matches one of the queries.
pub open spec fn any_match<S: SegmentReader>(seg: S, ns: Seq<NodeView>, d: u32) -> bool
    decreases ns,
{
    ns.len() > 0 && (matches_doc(seg, ns.last(), d) || any_match(seg, ns.drop_last(), d))
}

/// The documents of these postings, and those of further terms.
spec fn phrase_in<S: SegmentReader>(
    seg: S,
    first: Seq<Entry>,
    rest: Seq<Seq<Entry>>,
    d: u32,
) -> bool {
    &&& seg.length(d) is Some
    &&& entry_at(first, d) is Some
    &&& in_all(rest, d)
    &&& ({
        let ps = positions_in(entries_at(entry_at(first, d)->Some_0, rest));
        phrase_count(ps, ps[0].len() as int) > 0
    })
}

proof fn lemma_count_bound(ps: Seq<Seq<u32>>, n: int)
    requires
        0 <= n,
    ensures
        phrase_count(ps, n) <= n,
    decreases n,
{
    if n > 0 {
        lemma_count_bound(ps, n - 1);
    }
}

proof fn lemma_phrase_in<S: SegmentReader>(
    seg: S,
    dfs: Seq<u32>,
    first: Seq<Entry>,
    rest: Seq<Seq<Entry>>,
)
    requires
        docs_ascend(first),
        sound(first),
        forall|i: int| 0 <= i < rest.len() ==> sound(#[trigger] rest[i]),
    ensures
        ascending_hits(phrase_hits(seg, dfs, first, rest)),
        forall|d: u32| #[trigger]
            hit(phrase_hits(seg, dfs, first, rest), d) <==> phrase_in(seg, first, rest, d),
    decreases first.len(),
{
    let now = phrase_hits(seg, dfs, first, rest);
    if first.len() > 0 {
        lemma_drop_first(first);
        let next = first.drop_first();
        assert(sound(next)) by {
            assert forall|i: int| 0 <= i < next.len() implies ((
            #[trigger] next[i]).positions matches Some(p) && p.len() <= u32::MAX) by {
                assert(next[i] == first[i + 1]);
            }
        }
        lemma_phrase_in(seg, dfs, next, rest);
        let tail = phrase_hits(seg, dfs, next, rest);
        let d0 = first[0].doc;
        assert forall|d: u32| phrase_in(seg, next, rest, d) implies d0 < d by {
            lemma_entry_at(next, d);
            let i = choose|i: int| 0 <= i < next.len() && (#[trigger] next[i]).doc == d;
            assert(first[0].doc < first[i + 1].doc);
        }
        assert forall|d: u32| d != d0 implies #[trigger] phrase_in(seg, first, rest, d)
            == phrase_in(seg, next, rest, d) by {}
        let es = entries_at(first[0], rest);
        let ps = positions_in(es);
        if in_all(rest, d0) && seg.length(d0) is Some {
            assert(decodable(es)) by {
                assert forall|i: int| 0 <= i < es.len() implies (
                #[trigger] es[i]).positions is Some by {
                    if i > 0 {
                        assert(entry_at(rest[i - 1], d0) is Some);
                        lemma_entry_at(rest[i - 1], d0);
                        assert(sound(rest[i - 1]));
                    }
                }
            }
            assert(first[0].positions is Some);
            lemma_count_bound(ps, ps[0].len() as int);
        }
        assert forall|d: u32| #[trigger] hit(now, d) <==> phrase_in(seg, first, rest, d) by {
            assert(hit(tail, d) <==> phrase_in(seg, next, rest, d));
            if now == tail {
            } else {
                assert(now.drop_first() =~= tail);
                if hit(now, d) {
                    let i = choose|i: int| 0 <= i < now.len() && (#[trigger] now[i]).doc == d;
                    if i > 0 {
                        assert(tail[i - 1].doc == d);
                        assert(hit(tail, d));
                    }
                }
                if hit(tail, d) {
                    let i = choose|i: int| 0 <= i < tail.len() && (#[trigger] tail[i]).doc == d;
                    assert(now[i + 1].doc == d);
                }
                assert(now[0].doc == d0);
            }
        }
        assert forall|i: int, j: int| 0 <= i < j < now.len() implies (#[trigger] now[i]).doc < (
        #[trigger] now[j]).doc by {
            if now != tail {
                assert(now.drop_first() =~= tail);
                assert(now[j] == tail[j - 1]);
                assert(hit(tail, tail[j - 1].doc));
                if i > 0 {
                    assert(now[i] == tail[i - 1]);
                }
            }
        }
    } else {
        assert forall|d: u32| !#[trigger] hit(now, d) by {}
    }
}

/// The hits of a term are where it occurs.
pub(crate) proof fn lemma_term_matches<S: SegmentReader>(
    seg: S,
    dfs: Map<Seq<char>, u32>,
    t: Seq<char>,
)
    requires
        readable(seg),
    ensures
        ascending_hits(term_hits(seg, dfs, t)),
        forall|d: u32| #[trigger] hit(term_hits(seg, dfs, t), d) <==> has_term(seg, t, d),
{
    match seg.lookup(t) {
        None => {
            assert forall|d: u32| !#[trigger] hit(term_hits(seg, dfs, t), d) by {}
        },
        Some((es, _)) => {
            lemma_live_hits(seg, dfs[t], es, es.len() as int);
            assert forall|d: u32| #[trigger]
                hit(term_hits(seg, dfs, t), d) <==> has_term(seg, t, d) by {
                lemma_entry_at(es, d);
            }
        },
    }
}

proof fn lemma_phrase_matches<S: SegmentReader>(
    seg: S,
    dfs: Map<Seq<char>, u32>,
    ts: Seq<Seq<char>>,
)
    requires
        readable(seg),
        ts.len() >= 2,
    ensures
        ascending_hits(node_hits(seg, dfs, NodeView::Phrase(ts))),
        forall|d: u32| #[trigger]
            hit(node_hits(seg, dfs, NodeView::Phrase(ts)), d) <==> has_phrase(seg, ts, d),
{
    let hs = node_hits(seg, dfs, NodeView::Phrase(ts));
    match term_entries(seg, ts) {
        None => {
            assert forall|d: u32| #[trigger] hit(hs, d) <==> has_phrase(seg, ts, d) by {
                let i = choose|i: int| 0 <= i < ts.len() && seg.lookup(#[trigger] ts[i]) is None;
                assert(!has_term(seg, ts[i], d));
            }
        },
        Some(ls) => {
            let first = ls[0];
            let rest = ls.skip(1);
            let fs = super::exec::freqs(dfs, ts);
            assert(seg.lookup(ts[0]) is Some);
            assert forall|i: int| 0 <= i < rest.len() implies sound(#[trigger] rest[i]) by {
                assert(seg.lookup(ts[i + 1]) is Some);
            }
            lemma_phrase_in(seg, fs, first, rest);
            assert forall|d: u32| #[trigger] hit(hs, d) <==> has_phrase(seg, ts, d) by {
                assert(hit(hs, d) <==> phrase_in(seg, first, rest, d));
                if entry_at(first, d) is Some {
                    lemma_entry_at(first, d);
                    let e = entry_at(first, d)->Some_0;
                    assert(entries_at(e, rest) =~= entries_in(seg, ts, d)) by {
                        assert forall|i: int| 0 <= i < ts.len() implies #[trigger] entries_at(
                            e,
                            rest,
                        )[i] == entries_in(seg, ts, d)[i] by {
                            if i > 0 {
                                assert(rest[i - 1] == ls[i]);
                            }
                        }
                    }
                }
                if phrase_in(seg, first, rest, d) {
                    assert forall|i: int| 0 <= i < ts.len() implies has_term(
                        seg,
                        #[trigger] ts[i],
                        d,
                    ) by {
                        assert(seg.lookup(ts[i]) is Some);
                        if i > 0 {
                            assert(entry_at(rest[i - 1], d) is Some);
                        }
                    }
                }
                if has_phrase(seg, ts, d) {
                    assert(has_term(seg, ts[0], d));
                    assert forall|i: int| 0 <= i < rest.len() implies entry_at(
                        #[trigger] rest[i],
                        d,
                    ) is Some by {
                        assert(has_term(seg, ts[i + 1], d));
                    }
                }
            }
        },
    }
}

/// The hits of each of several queries are what matches it.
spec fn each_matches<S: SegmentReader>(
    seg: S,
    dfs: Map<Seq<char>, u32>,
    ns: Seq<NodeView>,
) -> bool {
    forall|i: int|
        0 <= i < ns.len() ==> exact(seg, dfs, #[trigger] ns[i])
}

/// The hits of a query ascend and are what matches it.
pub open spec fn exact<S: SegmentReader>(seg: S, dfs: Map<Seq<char>, u32>, n: NodeView) -> bool {
    &&& ascending_hits(node_hits(seg, dfs, n))
    &&& forall|d: u32| #[trigger] hit(node_hits(seg, dfs, n), d) <==> matches_doc(seg, n, d)
}

proof fn lemma_all_match<S: SegmentReader>(
    seg: S,
    dfs: Map<Seq<char>, u32>,
    ns: Seq<NodeView>,
    d: u32,
)
    requires
        each_matches(seg, dfs, ns),
    ensures
        all_match(seg, ns, d) <==> forall|i: int|
            0 <= i < ns.len() ==> hit(#[trigger] all_hits(seg, dfs, ns)[i], d),
        any_match(seg, ns, d) <==> exists|i: int|
            0 <= i < ns.len() && hit(#[trigger] all_hits(seg, dfs, ns)[i], d),
    decreases ns.len(),
{
    lemma_all_hits(seg, dfs, ns);
    let ls = all_hits(seg, dfs, ns);
    if ns.len() > 0 {
        let rest = ns.drop_last();
        assert(each_matches(seg, dfs, rest)) by {
            assert forall|i: int| 0 <= i < rest.len() implies exact(
                seg,
                dfs,
                #[trigger] rest[i],
            ) by {
                assert(rest[i] == ns[i]);
            }
        }
        lemma_all_match(seg, dfs, rest, d);
        let rs = all_hits(seg, dfs, rest);
        let k = ns.len() - 1;
        assert(exact(seg, dfs, ns[k]));
        assert(ls =~= rs.push(node_hits(seg, dfs, ns.last())));
        lemma_all_hits(seg, dfs, rest);
        assert(hit(ls[k], d) <==> matches_doc(seg, ns.last(), d));
        if all_match(seg, ns, d) {
            assert forall|i: int| 0 <= i < ns.len() implies hit(#[trigger] ls[i], d) by {
                if i < k {
                    assert(hit(rs[i], d));
                }
            }
        }
        if forall|i: int| 0 <= i < ns.len() ==> hit(#[trigger] ls[i], d) {
            assert forall|i: int| 0 <= i < rest.len() implies hit(#[trigger] rs[i], d) by {
                assert(hit(ls[i], d));
            }
            assert(hit(ls[k], d));
        }
        if any_match(seg, ns, d) {
            if any_match(seg, rest, d) {
                let i = choose|i: int| 0 <= i < rest.len() && hit(#[trigger] rs[i], d);
                assert(hit(ls[i], d));
            } else {
                assert(hit(ls[k], d));
            }
        }
        if exists|i: int| 0 <= i < ns.len() && hit(#[trigger] ls[i], d) {
            let i = choose|i: int| 0 <= i < ns.len() && hit(#[trigger] ls[i], d);
            if i < k {
                assert(hit(rs[i], d));
            }
        }
    }
}

proof fn lemma_without_all(a: Seq<HitView>, ls: Seq<Seq<HitView>>, n: int)
    requires
        0 <= n <= ls.len(),
        ascending_hits(a),
    ensures
        ascending_hits(without_all(a, ls, n)),
        forall|d: u32| #[trigger]
            hit(without_all(a, ls, n), d) <==> hit(a, d) && !exists|i: int|
                0 <= i < n && hit(#[trigger] ls[i], d),
    decreases n,
{
    if n > 0 {
        lemma_without_all(a, ls, n - 1);
        let before = without_all(a, ls, n - 1);
        lemma_without(before, ls[n - 1]);
        assert forall|d: u32| #[trigger]
            hit(without_all(a, ls, n), d) <==> hit(a, d) && !exists|i: int|
                0 <= i < n && hit(#[trigger] ls[i], d) by {
            assert(hit(before, d) <==> hit(a, d) && !exists|i: int|
                0 <= i < n - 1 && hit(#[trigger] ls[i], d));
            if exists|i: int| 0 <= i < n && hit(#[trigger] ls[i], d) {
                let i = choose|i: int| 0 <= i < n && hit(#[trigger] ls[i], d);
                if i < n - 1 {
                    assert(!hit(before, d));
                }
            }
        }
    }
}

/// The hits of a query in a segment whose postings can be decoded are exactly
/// the live documents that match it, in ascending order: a term matches where it
/// occurs, a phrase where its terms stand at consecutive positions, a
/// conjunction where all it wants matches and nothing that it excludes does, a
/// disjunction where any clause does.
pub proof fn lemma_hits_match<S: SegmentReader>(seg: S, dfs: Map<Seq<char>, u32>, node: Node)
    requires
        readable(seg),
    ensures
        exact(seg, dfs, node@),
    decreases node,
{
    match node {
        Node::Term(t) => {
            lemma_term_matches(seg, dfs, t@);
        },
        Node::Phrase(ts) => {
            let vs = crate::text::views(ts@);
            if vs.len() == 0 {
                assert forall|d: u32| !#[trigger] hit(node_hits(seg, dfs, node@), d) by {}
            } else if vs.len() == 1 {
                lemma_term_matches(seg, dfs, vs[0]);
            } else {
                lemma_phrase_matches(seg, dfs, vs);
            }
        },
        Node::And { must, must_not } => {
            lemma_and_view(must, must_not);
            lemma_each_matches(seg, dfs, must);
            lemma_each_matches(seg, dfs, must_not);
            let (a, b) = (nodes(must@), nodes(must_not@));
            lemma_all_hits(seg, dfs, a);
            lemma_all_hits(seg, dfs, b);
            let wanted = all_hits(seg, dfs, a);
            let unwanted = all_hits(seg, dfs, b);
            assert(all_ascending(wanted)) by {
                assert forall|i: int| 0 <= i < wanted.len() implies ascending_hits(
                    #[trigger] wanted[i],
                ) by {
                    assert(exact(seg, dfs, a[i]));
                }
            }
            assert(must@.len() == must.len());
            lemma_intersected(wanted);
            lemma_without_all(intersected(wanted), unwanted, b.len() as int);
            assert forall|d: u32| #[trigger]
                hit(node_hits(seg, dfs, node@), d) <==> matches_doc(seg, node@, d) by {
                lemma_all_match(seg, dfs, a, d);
                lemma_all_match(seg, dfs, b, d);
                assert(hit(intersected(wanted), d) <==> wanted.len() > 0 && forall|i: int|
                    0 <= i < wanted.len() ==> hit(#[trigger] wanted[i], d));
            }
        },
        Node::Or(cs) => {
            lemma_or_view(cs);
            lemma_each_matches(seg, dfs, cs);
            let a = nodes(cs@);
            lemma_all_hits(seg, dfs, a);
            let ls = all_hits(seg, dfs, a);
            assert(all_ascending(ls)) by {
                assert forall|i: int| 0 <= i < ls.len() implies ascending_hits(
                    #[trigger] ls[i],
                ) by {
                    assert(exact(seg, dfs, a[i]));
                }
            }
            lemma_united(ls, a.len() as int);
            assert forall|d: u32| #[trigger]
                hit(node_hits(seg, dfs, node@), d) <==> matches_doc(seg, node@, d) by {
                lemma_all_match(seg, dfs, a, d);
                assert(hit(united(ls, a.len() as int), d) <==> exists|i: int|
                    0 <= i < a.len() && hit(#[trigger] ls[i], d));
            }
        },
    }
}

proof fn lemma_each_matches<S: SegmentReader>(
    seg: S,
    dfs: Map<Seq<char>, u32>,
    ns: Vec<Node>,
)
    requires
        readable(seg),
    ensures
        each_matches(seg, dfs, nodes(ns@)),
    decreases ns,
{
    assert forall|i: int| 0 <= i < nodes(ns@).len() implies exact(
        seg,
        dfs,
        #[trigger] nodes(ns@)[i],
    ) by {
        lemma_hits_match(seg, dfs, ns@[i]);
    }
}

/// The document with this global number is in the segment and matches.
pub open spec fn matches_global<S: SegmentReader>(seg: S, n: NodeView, g: u32) -> bool {
    seg.first() <= g && matches_doc(seg, n, (g - seg.first()) as u32)
}

/// The segments own ascending ranges of documents.
pub open spec fn ranges_ascend<S: SegmentReader>(parts: Seq<S>) -> bool {
    forall|k: int, l: int|
        #![trigger parts[k], parts[l]]
        0 <= k < l < parts.len() ==> parts[k].first() + parts[k].bound() <= parts[l].first()
}

/// The matching documents are live.
pub proof fn lemma_matches_live<S: SegmentReader>(seg: S, node: Node, d: u32)
    requires
        matches_doc(seg, node@, d),
    ensures
        seg.length(d) is Some,
    decreases node,
{
    match node {
        Node::Term(t) => {},
        Node::Phrase(ts) => {
            let vs = crate::text::views(ts@);
            if vs.len() >= 2 {
                assert(has_term(seg, vs[0], d));
            }
        },
        Node::And { must, must_not } => {
            lemma_and_view(must, must_not);
            let a = nodes(must@);
            assert(a.last() == must@[must@.len() - 1]@);
            lemma_matches_live(seg, must@[must@.len() - 1], d);
        },
        Node::Or(cs) => {
            lemma_or_view(cs);
            assert(nodes(cs@).take(cs@.len() as int) =~= nodes(cs@));
            lemma_any_live(seg, cs, cs@.len() as int, d);
        },
    }
}

proof fn lemma_any_live<S: SegmentReader>(seg: S, cs: Vec<Node>, n: int, d: u32)
    requires
        0 <= n <= cs@.len(),
        any_match(seg, nodes(cs@).take(n), d),
    ensures
        seg.length(d) is Some,
    decreases cs, n,
{
    let a = nodes(cs@).take(n);
    assert(a.last() == cs@[n - 1]@);
    if matches_doc(seg, a.last(), d) {
        lemma_matches_live(seg, cs@[n - 1], d);
    } else {
        assert(a.drop_last() =~= nodes(cs@).take(n - 1));
        lemma_any_live(seg, cs, n - 1, d);
    }
}

/// Over an index whose postings can be decoded, the hits of a query are exactly
/// the documents that match in one of its segments, in ascending order and each
/// once, however the documents are spread over segments.
pub proof fn lemma_index_hits<S: SegmentReader>(
    parts: Seq<S>,
    dfs: Map<Seq<char>, u32>,
    node: Node,
    n: int,
)
    requires
        0 <= n <= parts.len(),
        forall|k: int| 0 <= k < parts.len() ==> (#[trigger] parts[k]).wf() && readable(parts[k]),
        ranges_ascend(parts),
    ensures
        ascending_hits(index_hits(parts, dfs, node@, n)),
        forall|g: u32| #[trigger]
            hit(index_hits(parts, dfs, node@, n), g) <==> exists|k: int|
                0 <= k < n && matches_global(#[trigger] parts[k], node@, g),
    decreases n,
{
    let now = index_hits(parts, dfs, node@, n);
    if n > 0 {
        lemma_index_hits(parts, dfs, node, n - 1);
        let seg = parts[n - 1];
        let before = index_hits(parts, dfs, node@, n - 1);
        let hs = node_hits(seg, dfs, node@);
        let own = offset(hs, seg.first());
        seg.lemma_bounds();
        lemma_hits_match(seg, dfs, node);
        assert forall|i: int| 0 <= i < hs.len() implies (#[trigger] hs[i]).doc < seg.bound() by {
            assert(hit(hs, hs[i].doc));
            lemma_matches_live(seg, node, hs[i].doc);
        }
        assert forall|g: u32| hit(before, g) implies g < seg.first() by {
            let k = choose|k: int| 0 <= k < n - 1 && matches_global(#[trigger] parts[k], node@, g);
            let other = parts[k];
            other.lemma_bounds();
            lemma_matches_live(other, node, (g - other.first()) as u32);
            assert(other.length((g - other.first()) as u32) is Some);
        }
        assert forall|i: int, j: int| 0 <= i < j < now.len() implies (#[trigger] now[i]).doc < (
        #[trigger] now[j]).doc by {
            if j < before.len() {
                assert(now[i] == before[i] && now[j] == before[j]);
            } else if i < before.len() {
                assert(now[i] == before[i]);
                assert(hit(before, before[i].doc));
                assert(now[j] == own[j - before.len()]);
                assert(hs[j - before.len()].doc < seg.bound());
            } else {
                assert(hs[i - before.len()].doc < hs[j - before.len()].doc);
                assert(hs[j - before.len()].doc < seg.bound());
                assert(now[i] == own[i - before.len()] && now[j] == own[j - before.len()]);
            }
        }
        assert forall|g: u32| #[trigger] hit(now, g) <==> exists|k: int|
            0 <= k < n && matches_global(#[trigger] parts[k], node@, g) by {
            assert(hit(before, g) <==> exists|k: int|
                0 <= k < n - 1 && matches_global(#[trigger] parts[k], node@, g));
            if hit(now, g) {
                let i = choose|i: int| 0 <= i < now.len() && (#[trigger] now[i]).doc == g;
                if i < before.len() {
                    assert(before[i].doc == g);
                    assert(hit(before, g));
                } else {
                    let l = hs[i - before.len()];
                    assert(l.doc < seg.bound());
                    assert(now[i] == own[i - before.len()]);
                    assert(hit(hs, l.doc));
                    assert(matches_global(parts[n - 1], node@, g));
                }
            }
            if exists|k: int| 0 <= k < n && matches_global(#[trigger] parts[k], node@, g) {
                let k = choose|k: int| 0 <= k < n && matches_global(#[trigger] parts[k], node@, g);
                if k < n - 1 {
                    assert(hit(before, g));
                    let i = choose|i: int| 0 <= i < before.len() && (#[trigger] before[i]).doc == g;
                    assert(now[i].doc == g);
                } else {
                    let l = (g - seg.first()) as u32;
                    assert(hit(hs, l));
                    let i = choose|i: int| 0 <= i < hs.len() && (#[trigger] hs[i]).doc == l;
                    assert(now[before.len() + i] == own[i]);
                    assert(now[before.len() + i].doc == g);
                }
            }
        }
    } else {
        assert forall|g: u32| !#[trigger] hit(now, g) by {}
    }
}

/// The two documents have the same postings.
pub open spec fn same_postings<A: SegmentReader, B: SegmentReader>(
    a: A,
    da: u32,
    b: B,
    db: u32,
) -> bool {
    forall|t: Seq<char>|
        (#[trigger] has_term(a, t, da) <==> has_term(b, t, db)) && (has_term(a, t, da) ==> entry_at(
            a.lookup(t)->Some_0.0,
            da,
        )->Some_0.positions == entry_at(b.lookup(t)->Some_0.0, db)->Some_0.positions)
}

/// Documents with the same postings match the same queries.
pub proof fn lemma_same_answers<A: SegmentReader, B: SegmentReader>(
    a: A,
    da: u32,
    b: B,
    db: u32,
    n: NodeView,
)
    requires
        same_postings(a, da, b, db),
    ensures
        matches_doc(a, n, da) <==> matches_doc(b, n, db),
    decreases n,
{
    match n {
        NodeView::Term(t) => {
            assert(has_term(a, t, da) <==> has_term(b, t, db));
        },
        NodeView::Phrase(ts) => {
            assert forall|i: int| 0 <= i < ts.len() implies (has_term(a, #[trigger] ts[i], da)
                <==> has_term(b, ts[i], db)) by {}
            if forall|i: int| 0 <= i < ts.len() ==> has_term(a, #[trigger] ts[i], da) {
                let pa = positions_in(entries_in(a, ts, da));
                let pb = positions_in(entries_in(b, ts, db));
                assert(pa =~= pb) by {
                    assert forall|i: int| 0 <= i < ts.len() implies #[trigger] pa[i] == pb[i] by {
                        assert(has_term(a, ts[i], da));
                    }
                }
            }
        },
        NodeView::And { must, must_not } => {
            lemma_all_same_answers(a, da, b, db, must);
            lemma_all_same_answers(a, da, b, db, must_not);
        },
        NodeView::Or(ns) => lemma_all_same_answers(a, da, b, db, ns),
    }
}

proof fn lemma_all_same_answers<A: SegmentReader, B: SegmentReader>(
    a: A,
    da: u32,
    b: B,
    db: u32,
    ns: Seq<NodeView>,
)
    requires
        same_postings(a, da, b, db),
    ensures
        all_match(a, ns, da) <==> all_match(b, ns, db),
        any_match(a, ns, da) <==> any_match(b, ns, db),
    decreases ns,
{
    if ns.len() > 0 {
        lemma_same_answers(a, da, b, db, ns.last());
        lemma_all_same_answers(a, da, b, db, ns.drop_last());
    }
}

} // verus!
