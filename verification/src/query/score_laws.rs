//! What a score is made of: the numbers of every operand that the document matches.

use vstd::multiset::Multiset;
use vstd::prelude::*;

use super::exec::{
    all_hits, index_hits, offset, entries_at, entry_at, follows, freqs, lemma_all_hits,
    lemma_drop_first, lemma_entry_at, live_hits, node_hits, phrase_count,
    phrase_hits, positions_in, term_entries, term_hits,
};
use super::hits::{
    all_ascending, ascending_hits, hit, intersected, joined, joined_upto, lemma_by_length,
    lemma_intersected, lemma_joined, lemma_joined_upto, lemma_merged, lemma_score_at, lemma_united,
    lemma_without, lens, merged, score_at, united, without, without_all, HitView, ScoreView,
};
use super::laws::{
    lemma_index_hits, lemma_matches_live, matches_global, ranges_ascend,
    exact, has_phrase, has_term, lemma_hits_match, lemma_term_matches, matches_doc,
    readable, sound,
};
use super::parser::{lemma_and_view, lemma_or_view, nodes, Node, NodeView};
use crate::index::postings::{docs_ascend, Entry};
use crate::index::SegmentReader;
use crate::sort::{lemma_order_exists, lemma_order_is_permutation, picked};

verus! {

/// The numbers that a score is made of, each as often as it is added.
pub open spec fn leaves(s: ScoreView) -> Multiset<ScoreView>
    decreases s,
{
    match s {
        ScoreView::Sum(a, b) => leaves(*a).add(leaves(*b)),
        _ => Multiset::singleton(s),
    }
}

/// The numbers that the score of a document among the hits is made of.
pub open spec fn leaves_at(hs: Seq<HitView>, d: u32) -> Multiset<ScoreView> {
    if hit(hs, d) {
        leaves(hs[choose|i: int| 0 <= i < hs.len() && (#[trigger] hs[i]).doc == d].score)
    } else {
        Multiset::empty()
    }
}

/// Those of the document in the first `n` lists together.
pub open spec fn leaves_upto(ls: Seq<Seq<HitView>>, d: u32, n: int) -> Multiset<ScoreView>
    decreases n,
{
    if n <= 0 {
        Multiset::empty()
    } else {
        leaves_upto(ls, d, n - 1).add(leaves_at(ls[n - 1], d))
    }
}

proof fn lemma_leaves_at(hs: Seq<HitView>, i: int)
    requires
        ascending_hits(hs),
        0 <= i < hs.len(),
    ensures
        leaves_at(hs, hs[i].doc) == leaves(hs[i].score),
        score_at(hs, hs[i].doc) == Some(hs[i].score),
    decreases hs.len(),
{
    let d = hs[i].doc;
    let k = choose|k: int| 0 <= k < hs.len() && (#[trigger] hs[k]).doc == d;
    if k < i {
        assert(hs[k].doc < hs[i].doc);
    } else if i < k {
        assert(hs[i].doc < hs[k].doc);
    }
    let rest = hs.drop_last();
    if i < hs.len() - 1 {
        assert(rest[i] == hs[i]);
        assert(hs[i].doc < hs[hs.len() - 1].doc);
        assert(ascending_hits(rest)) by {
            assert forall|a: int, b: int| 0 <= a < b < rest.len() implies (#[trigger] rest[a]).doc
                < (#[trigger] rest[b]).doc by {
                assert(rest[a] == hs[a] && rest[b] == hs[b]);
            }
        }
        lemma_leaves_at(rest, i);
    }
}

/// The score of a document that two lists have is made of what both say of it.
proof fn lemma_joined_leaves(a: Seq<HitView>, b: Seq<HitView>, d: u32)
    requires
        ascending_hits(a),
        ascending_hits(b),
        hit(a, d),
        hit(b, d),
    ensures
        leaves_at(joined(a, b), d) == leaves_at(a, d).add(leaves_at(b, d)),
    decreases a.len(),
{
    let rest = a.drop_last();
    let h = a.last();
    let now = joined(a, b);
    lemma_joined(a, b);
    assert(ascending_hits(rest)) by {
        assert forall|i: int, j: int| 0 <= i < j < rest.len() implies (#[trigger] rest[i]).doc < (
        #[trigger] rest[j]).doc by {
            assert(rest[i] == a[i] && rest[j] == a[j]);
        }
    }
    lemma_joined(rest, b);
    if h.doc == d {
        let y = choose|y: int| 0 <= y < b.len() && (#[trigger] b[y]).doc == d;
        lemma_leaves_at(b, y);
        lemma_leaves_at(a, a.len() - 1);
        lemma_leaves_at(now, now.len() - 1);
    } else {
        let x = choose|x: int| 0 <= x < a.len() && (#[trigger] a[x]).doc == d;
        assert(rest[x].doc == d);
        assert(hit(rest, d));
        lemma_leaves_at(a, x);
        lemma_leaves_at(rest, x);
        lemma_joined_leaves(rest, b, d);
        let r = joined(rest, b);
        assert(hit(r, d));
        let i = choose|i: int| 0 <= i < r.len() && (#[trigger] r[i]).doc == d;
        assert(now[i] == r[i]);
        lemma_leaves_at(r, i);
        lemma_leaves_at(now, i);
    }
}

/// The score of a document in either of two lists is made of what each that has it says.
proof fn lemma_merged_leaves(a: Seq<HitView>, b: Seq<HitView>, d: u32)
    requires
        ascending_hits(a),
        ascending_hits(b),
    ensures
        leaves_at(merged(a, b), d) == leaves_at(a, d).add(leaves_at(b, d)),
    decreases a.len() + b.len(),
{
    let now = merged(a, b);
    lemma_merged(a, b);
    if a.len() == 0 {
        assert(!hit(a, d));
        assert(leaves_at(a, d).add(leaves_at(b, d)) =~= leaves_at(b, d));
    } else if b.len() == 0 {
        assert(!hit(b, d));
        assert(leaves_at(a, d).add(leaves_at(b, d)) =~= leaves_at(a, d));
    } else {
        let (x, y) = (a.last(), b.last());
        let ra = if x.doc >= y.doc {
            a.drop_last()
        } else {
            a
        };
        let rb = if x.doc <= y.doc {
            b.drop_last()
        } else {
            b
        };
        lemma_drop_ascends(a);
        lemma_drop_ascends(b);
        lemma_merged_leaves(ra, rb, d);
        let r = merged(ra, rb);
        lemma_merged(ra, rb);
        assert(now.drop_last() =~= r);
        lemma_dropped(a, d);
        lemma_dropped(b, d);
        lemma_dropped(now, d);
        if d != x.doc && d != y.doc {
        } else if x.doc == y.doc {
            assert(leaves_at(now, d) == leaves(now.last().score));
        } else if x.doc > y.doc {
            if d == x.doc {
                assert(!hit(b, d)) by {
                    if hit(b, d) {
                        let j = choose|j: int| 0 <= j < b.len() && (#[trigger] b[j]).doc == d;
                        assert(b[j].doc <= b[b.len() - 1].doc);
                    }
                }
                assert(leaves_at(a, d).add(leaves_at(b, d)) =~= leaves_at(a, d));
            }
        } else {
            if d == y.doc {
                assert(!hit(a, d)) by {
                    if hit(a, d) {
                        let j = choose|j: int| 0 <= j < a.len() && (#[trigger] a[j]).doc == d;
                        assert(a[j].doc <= a[a.len() - 1].doc);
                    }
                }
                assert(leaves_at(a, d).add(leaves_at(b, d)) =~= leaves_at(b, d));
            }
        }
    }
}

proof fn lemma_drop_ascends(hs: Seq<HitView>)
    requires
        ascending_hits(hs),
        hs.len() > 0,
    ensures
        ascending_hits(hs.drop_last()),
{
    let rest = hs.drop_last();
    assert forall|i: int, j: int| 0 <= i < j < rest.len() implies (#[trigger] rest[i]).doc < (
    #[trigger] rest[j]).doc by {
        assert(rest[i] == hs[i] && rest[j] == hs[j]);
    }
}

/// The last hit, and the others without it.
proof fn lemma_dropped(hs: Seq<HitView>, d: u32)
    requires
        ascending_hits(hs),
        hs.len() > 0,
    ensures
        d == hs.last().doc ==> leaves_at(hs, d) == leaves(hs.last().score) && !hit(
            hs.drop_last(),
            d,
        ),
        d != hs.last().doc ==> leaves_at(hs, d) == leaves_at(hs.drop_last(), d),
{
    let rest = hs.drop_last();
    let n = hs.len() - 1;
    lemma_drop_ascends(hs);
    if d == hs.last().doc {
        lemma_leaves_at(hs, n);
        if hit(rest, d) {
            let i = choose|i: int| 0 <= i < rest.len() && (#[trigger] rest[i]).doc == d;
            assert(hs[i].doc < hs[n].doc);
        }
    } else {
        if hit(hs, d) {
            let i = choose|i: int| 0 <= i < hs.len() && (#[trigger] hs[i]).doc == d;
            assert(rest[i].doc == d);
            lemma_leaves_at(hs, i);
            lemma_leaves_at(rest, i);
        }
        if hit(rest, d) {
            let i = choose|i: int| 0 <= i < rest.len() && (#[trigger] rest[i]).doc == d;
            assert(hs[i].doc == d);
        }
    }
}

/// What is left of a list keeps its scores.
proof fn lemma_without_leaves(a: Seq<HitView>, b: Seq<HitView>, d: u32)
    requires
        ascending_hits(a),
        hit(a, d),
        !hit(b, d),
    ensures
        leaves_at(without(a, b), d) == leaves_at(a, d),
    decreases a.len(),
{
    let rest = a.drop_last();
    let now = without(a, b);
    lemma_drop_ascends(a);
    lemma_without(a, b);
    lemma_without(rest, b);
    lemma_dropped(a, d);
    lemma_score_at(b, a.last().doc);
    if a.last().doc == d {
        lemma_dropped(now, d);
    } else {
        assert(hit(rest, d)) by {
            let i = choose|i: int| 0 <= i < a.len() && (#[trigger] a[i]).doc == d;
            assert(rest[i].doc == d);
        }
        lemma_without_leaves(rest, b, d);
        if score_at(b, a.last().doc) is None {
            lemma_dropped(now, d);
            assert(now.drop_last() =~= without(rest, b));
        }
    }
}

proof fn lemma_without_all_leaves(a: Seq<HitView>, ls: Seq<Seq<HitView>>, n: int, d: u32)
    requires
        ascending_hits(a),
        0 <= n <= ls.len(),
        hit(without_all(a, ls, n), d),
    ensures
        ascending_hits(without_all(a, ls, n)),
        hit(a, d),
        leaves_at(without_all(a, ls, n), d) == leaves_at(a, d),
    decreases n,
{
    if n > 0 {
        let before = without_all(a, ls, n - 1);
        lemma_without_all_ascends(a, ls, n - 1);
        lemma_without(before, ls[n - 1]);
        lemma_without_all_leaves(a, ls, n - 1, d);
        lemma_without_leaves(before, ls[n - 1], d);
    }
}

proof fn lemma_without_all_ascends(a: Seq<HitView>, ls: Seq<Seq<HitView>>, n: int)
    requires
        ascending_hits(a),
        0 <= n <= ls.len(),
    ensures
        ascending_hits(without_all(a, ls, n)),
    decreases n,
{
    if n > 0 {
        lemma_without_all_ascends(a, ls, n - 1);
        lemma_without(without_all(a, ls, n - 1), ls[n - 1]);
    }
}

proof fn lemma_joined_upto_leaves(ls: Seq<Seq<HitView>>, n: int, d: u32)
    requires
        1 <= n <= ls.len(),
        all_ascending(ls),
        forall|i: int| 0 <= i < n ==> hit(#[trigger] ls[i], d),
    ensures
        leaves_at(joined_upto(ls, n), d) == leaves_upto(ls, d, n),
    decreases n,
{
    lemma_joined_upto(ls, n);
    if n > 1 {
        lemma_joined_upto(ls, n - 1);
        lemma_joined_upto_leaves(ls, n - 1, d);
        assert(hit(joined_upto(ls, n - 1), d));
        assert(ascending_hits(ls[n - 1]));
        lemma_joined_leaves(joined_upto(ls, n - 1), ls[n - 1], d);
    } else {
        assert(leaves_upto(ls, d, 0) =~= Multiset::empty());
        assert(Multiset::empty().add(leaves_at(ls[0], d)) =~= leaves_at(ls[0], d));
    }
}

/// The places of the lists, and what the document has at them.
spec fn leaves_over(ls: Seq<Seq<HitView>>, d: u32, at: Seq<int>) -> Multiset<ScoreView> {
    at.fold_left(
        Multiset::empty(),
        |m: Multiset<ScoreView>, i: int| m.add(leaves_at(ls[i], d)),
    )
}

proof fn lemma_over(ls: Seq<Seq<HitView>>, d: u32, at: Seq<int>, ms: Seq<Seq<HitView>>)
    requires
        ms.len() == at.len(),
        forall|i: int| 0 <= i < at.len() ==> ms[i] == ls[#[trigger] at[i]],
    ensures
        leaves_over(ls, d, at) == leaves_upto(ms, d, at.len() as int),
    decreases at.len(),
{
    if at.len() > 0 {
        let before = at.drop_last();
        let rest = ms.drop_last();
        assert forall|i: int| 0 <= i < before.len() implies rest[i] == ls[#[trigger] before[i]] by {
            assert(before[i] == at[i]);
        }
        lemma_over(ls, d, before, rest);
        lemma_upto_prefix(rest, ms, d, before.len() as int);
        assert(at[at.len() - 1] == at.last());
    }
}

proof fn lemma_upto_prefix(a: Seq<Seq<HitView>>, b: Seq<Seq<HitView>>, d: u32, n: int)
    requires
        0 <= n <= a.len(),
        n <= b.len(),
        forall|i: int| 0 <= i < n ==> a[i] == b[i],
    ensures
        leaves_upto(a, d, n) == leaves_upto(b, d, n),
    decreases n,
{
    if n > 0 {
        lemma_upto_prefix(a, b, d, n - 1);
    }
}

/// The order of the lists does not matter for what a score is made of.
proof fn lemma_any_order(ls: Seq<Seq<HitView>>, places: Seq<usize>, d: u32)
    requires
        places.len() == ls.len(),
        places.no_duplicates(),
        forall|i: int| 0 <= i < places.len() ==> (#[trigger] places[i]) < ls.len(),
        forall|p: usize| (p as int) < ls.len() ==> #[trigger] places.contains(p),
        ls.len() <= usize::MAX,
    ensures
        leaves_upto(picked(ls, places), d, ls.len() as int) == leaves_upto(ls, d, ls.len() as int),
{
    let n = ls.len() as int;
    let a = Seq::new(places.len(), |i: int| places[i] as int);
    let b = Seq::new(ls.len(), |i: int| i);
    lemma_over(ls, d, a, picked(ls, places));
    lemma_over(ls, d, b, ls);
    assert(a.no_duplicates());
    assert(b.no_duplicates());
    assert(a.to_multiset() =~= b.to_multiset()) by {
        a.lemma_multiset_has_no_duplicates();
        b.lemma_multiset_has_no_duplicates();
        a.to_multiset_ensures();
        b.to_multiset_ensures();
        assert forall|x: int| a.contains(x) <==> b.contains(x) by {
            if a.contains(x) {
                let i = choose|i: int| 0 <= i < a.len() && a[i] == x;
                assert(b[x] == x);
            }
            if b.contains(x) {
                assert(places.contains(x as usize));
                let i = choose|i: int| 0 <= i < places.len() && places[i] == x as usize;
                assert(a[i] == x);
            }
        }
        assert forall|x: int| a.to_multiset().count(x) == b.to_multiset().count(x) by {
            assert(a.contains(x) <==> a.to_multiset().count(x) > 0);
            assert(b.contains(x) <==> b.to_multiset().count(x) > 0);
        }
    }
    let f = |m: Multiset<ScoreView>, i: int| m.add(leaves_at(ls[i], d));
    assert(vstd::seq_lib::commutative_foldl(f)) by {
        assert forall|x: int, y: int, v: Multiset<ScoreView>| #[trigger]
            f(f(v, x), y) == f(f(v, y), x) by {
            assert(f(f(v, x), y) =~= f(f(v, y), x));
        }
    }
    vstd::seq_lib::lemma_fold_left_permutation(a, b, f, Multiset::empty());
}

/// What the score of a document is made of that all lists have: what each list says of it.
pub proof fn lemma_intersected_leaves(ls: Seq<Seq<HitView>>, d: u32)
    requires
        ls.len() <= usize::MAX,
        all_ascending(ls),
        hit(intersected(ls), d),
    ensures
        leaves_at(intersected(ls), d) == leaves_upto(ls, d, ls.len() as int),
{
    lemma_intersected(ls);
    let places = lemma_order_exists(lens(ls));
    lemma_by_length(ls, places);
    lemma_order_is_permutation(lens(ls), places);
    let sorted = picked(ls, places);
    assert(all_ascending(sorted));
    assert forall|i: int| 0 <= i < sorted.len() implies hit(#[trigger] sorted[i], d) by {
        assert(hit(ls[places[i] as int], d));
    }
    if exists|i: int| 0 <= i < ls.len() && (#[trigger] ls[i]).len() == 0 {
        let i = choose|i: int| 0 <= i < ls.len() && (#[trigger] ls[i]).len() == 0;
        assert(hit(ls[i], d));
    }
    lemma_joined_upto_leaves(sorted, ls.len() as int, d);
    lemma_any_order(ls, places, d);
}

/// What the score of a document is made of that any list has: what each of those says of it.
pub proof fn lemma_united_leaves(ls: Seq<Seq<HitView>>, n: int, d: u32)
    requires
        0 <= n <= ls.len(),
        all_ascending(ls),
    ensures
        leaves_at(united(ls, n), d) == leaves_upto(ls, d, n),
    decreases n,
{
    if n > 0 {
        lemma_united_leaves(ls, n - 1, d);
        lemma_united(ls, n - 1);
        assert(ascending_hits(ls[n - 1]));
        lemma_merged_leaves(united(ls, n - 1), ls[n - 1], d);
    } else {
        assert(!hit(united(ls, n), d));
    }
}

/// The posting of a document in the list of a term.
pub open spec fn posting<S: SegmentReader>(seg: S, t: Seq<char>, d: u32) -> Entry {
    let es = seg.lookup(t)->Some_0.0;
    es[choose|i: int| 0 <= i < es.len() && (#[trigger] es[i]).doc == d]
}

/// The places among the positions of the first term of a phrase from which on all of its
/// terms stand one behind the other.
pub open spec fn phrase_places<S: SegmentReader>(seg: S, ts: Seq<Seq<char>>, d: u32) -> Set<int> {
    let first = posting(seg, ts[0], d).positions->Some_0;
    Set::new(
        |i: int|
            0 <= i < first.len() && forall|k: int|
                0 <= k < ts.len() ==> first[i] + k <= u32::MAX && posting(
                    seg,
                    #[trigger] ts[k],
                    d,
                ).positions->Some_0.contains((first[i] + k) as u32),
    )
}

/// What the score of a document has to be made of: for a term how often it occurs in the
/// document, for a phrase how often its terms stand one behind the other, with the length of
/// the document and in how many documents the terms occur; for a conjunction that of all that
/// it wants, for a disjunction that of all clauses that match.
pub open spec fn due<S: SegmentReader>(
    seg: S,
    dfs: Map<Seq<char>, u32>,
    n: NodeView,
    d: u32,
) -> Multiset<ScoreView>
    decreases n,
{
    if !matches_doc(seg, n, d) {
        Multiset::empty()
    } else {
        match n {
            NodeView::Term(t) => term_due(seg, dfs, t, d),
            NodeView::Phrase(ts) => if ts.len() == 1 {
                term_due(seg, dfs, ts[0], d)
            } else {
                Multiset::singleton(
                    ScoreView::Phrase {
                        dfs: Seq::new(ts.len(), |i: int| dfs[ts[i]]),
                        tf: phrase_places(seg, ts, d).len() as u32,
                        len: seg.length(d)->Some_0,
                    },
                )
            },
            NodeView::And { must, .. } => all_due(seg, dfs, must, d),
            NodeView::Or(cs) => all_due(seg, dfs, cs, d),
        }
    }
}

/// That of a term.
pub open spec fn term_due<S: SegmentReader>(
    seg: S,
    dfs: Map<Seq<char>, u32>,
    t: Seq<char>,
    d: u32,
) -> Multiset<ScoreView> {
    Multiset::singleton(
        ScoreView::Term { df: dfs[t], tf: posting(seg, t, d).tf, len: seg.length(d)->Some_0 },
    )
}

/// That of all these together.
pub open spec fn all_due<S: SegmentReader>(
    seg: S,
    dfs: Map<Seq<char>, u32>,
    ns: Seq<NodeView>,
    d: u32,
) -> Multiset<ScoreView>
    decreases ns,
{
    if ns.len() == 0 {
        Multiset::empty()
    } else {
        all_due(seg, dfs, ns.drop_last(), d).add(due(seg, dfs, ns.last(), d))
    }
}

proof fn lemma_posting<S: SegmentReader>(seg: S, t: Seq<char>, d: u32)
    requires
        readable(seg),
        has_term(seg, t, d),
    ensures
        entry_at(seg.lookup(t)->Some_0.0, d) == Some(posting(seg, t, d)),
{
    let es = seg.lookup(t)->Some_0.0;
    lemma_entry_at(es, d);
    let e = entry_at(es, d)->Some_0;
    let i = choose|i: int| 0 <= i < es.len() && #[trigger] es[i] == e;
    let k = choose|k: int| 0 <= k < es.len() && (#[trigger] es[k]).doc == d;
    if i < k {
        assert(es[i].doc < es[k].doc);
    } else if k < i {
        assert(es[k].doc < es[i].doc);
    }
}

proof fn lemma_live_scores<S: SegmentReader>(seg: S, df: u32, es: Seq<Entry>, n: int, i: int)
    requires
        docs_ascend(es),
        0 <= n <= es.len(),
        0 <= i < live_hits(seg, df, es, n).len(),
    ensures
        ({
            let h = live_hits(seg, df, es, n)[i];
            exists|k: int|
                0 <= k < n && (#[trigger] es[k]).doc == h.doc && h.score == (ScoreView::Term {
                    df,
                    tf: es[k].tf,
                    len: seg.length(h.doc)->Some_0,
                })
        }),
    decreases n,
{
    let before = live_hits(seg, df, es, n - 1);
    if i < before.len() {
        lemma_live_scores(seg, df, es, n - 1, i);
        let h = before[i];
        let k = choose|k: int|
            0 <= k < n - 1 && (#[trigger] es[k]).doc == h.doc && h.score == (ScoreView::Term {
                df,
                tf: es[k].tf,
                len: seg.length(h.doc)->Some_0,
            });
        assert(es[k].doc == h.doc);
    } else {
        assert(es[n - 1].doc == es[n - 1].doc);
    }
}

proof fn lemma_term_score<S: SegmentReader>(
    seg: S,
    dfs: Map<Seq<char>, u32>,
    t: Seq<char>,
    d: u32,
)
    requires
        readable(seg),
        hit(term_hits(seg, dfs, t), d),
    ensures
        leaves_at(term_hits(seg, dfs, t), d) == term_due(seg, dfs, t, d),
{
    let hs = term_hits(seg, dfs, t);
    lemma_term_matches(seg, dfs, t);
    assert(has_term(seg, t, d));
    let es = seg.lookup(t)->Some_0.0;
    let i = choose|i: int| 0 <= i < hs.len() && (#[trigger] hs[i]).doc == d;
    lemma_leaves_at(hs, i);
    lemma_live_scores(seg, dfs[t], es, es.len() as int, i);
    let k = choose|k: int|
        0 <= k < es.len() && (#[trigger] es[k]).doc == d && hs[i].score == (ScoreView::Term {
            df: dfs[t],
            tf: es[k].tf,
            len: seg.length(d)->Some_0,
        });
    let p = choose|p: int| 0 <= p < es.len() && (#[trigger] es[p]).doc == d;
    if p < k {
        assert(es[p].doc < es[k].doc);
    } else if k < p {
        assert(es[k].doc < es[p].doc);
    }
}

/// How many of the first `n` positions start the phrase, as the size of a set.
proof fn lemma_count_places(ps: Seq<Seq<u32>>, n: int)
    requires
        0 <= n <= ps[0].len(),
    ensures
        ({
            let s = Set::new(|i: int| 0 <= i < n && follows(ps, ps[0][i]));
            s.finite() && s.len() == phrase_count(ps, n)
        }),
    decreases n,
{
    let s = Set::new(|i: int| 0 <= i < n && follows(ps, ps[0][i]));
    if n > 0 {
        lemma_count_places(ps, n - 1);
        let before = Set::new(|i: int| 0 <= i < n - 1 && follows(ps, ps[0][i]));
        if follows(ps, ps[0][n - 1]) {
            assert(s =~= before.insert(n - 1));
        } else {
            assert(s =~= before);
        }
    } else {
        assert(s =~= Set::empty());
    }
}

proof fn lemma_phrase_scores<S: SegmentReader>(
    seg: S,
    dfs: Seq<u32>,
    first: Seq<Entry>,
    rest: Seq<Seq<Entry>>,
    i: int,
)
    requires
        docs_ascend(first),
        0 <= i < phrase_hits(seg, dfs, first, rest).len(),
    ensures
        ({
            let h = phrase_hits(seg, dfs, first, rest)[i];
            exists|k: int|
                0 <= k < first.len() && (#[trigger] first[k]).doc == h.doc && {
                    let ps = positions_in(entries_at(first[k], rest));
                    h.score == (ScoreView::Phrase {
                        dfs,
                        tf: phrase_count(ps, ps[0].len() as int) as u32,
                        len: seg.length(h.doc)->Some_0,
                    })
                }
        }),
    decreases first.len(),
{
    let now = phrase_hits(seg, dfs, first, rest);
    if first.len() > 0 {
        lemma_drop_first(first);
        let next = first.drop_first();
        let tail = phrase_hits(seg, dfs, next, rest);
        let h = now[i];
        if now == tail || i > 0 {
            let j = if now == tail {
                i
            } else {
                i - 1
            };
            assert(tail[j] == h);
            lemma_phrase_scores(seg, dfs, next, rest, j);
            let k = choose|k: int|
                0 <= k < next.len() && (#[trigger] next[k]).doc == h.doc && {
                    let ps = positions_in(entries_at(next[k], rest));
                    h.score == (ScoreView::Phrase {
                        dfs,
                        tf: phrase_count(ps, ps[0].len() as int) as u32,
                        len: seg.length(h.doc)->Some_0,
                    })
                };
            assert(first[k + 1] == next[k]);
        } else {
            assert(first[0].doc == h.doc);
        }
    }
}

proof fn lemma_phrase_score<S: SegmentReader>(
    seg: S,
    dfs: Map<Seq<char>, u32>,
    ts: Seq<Seq<char>>,
    d: u32,
)
    requires
        readable(seg),
        ts.len() >= 2,
        exact(seg, dfs, NodeView::Phrase(ts)),
        hit(node_hits(seg, dfs, NodeView::Phrase(ts)), d),
    ensures
        leaves_at(node_hits(seg, dfs, NodeView::Phrase(ts)), d) == due(
            seg,
            dfs,
            NodeView::Phrase(ts),
            d,
        ),
{
    let hs = node_hits(seg, dfs, NodeView::Phrase(ts));
    assert(has_phrase(seg, ts, d));
    let ls = term_entries(seg, ts)->Some_0;
    let first = ls[0];
    let rest = ls.skip(1);
    let i = choose|i: int| 0 <= i < hs.len() && (#[trigger] hs[i]).doc == d;
    lemma_leaves_at(hs, i);
    assert(has_term(seg, ts[0], d));
    lemma_phrase_scores(seg, freqs(dfs, ts), first, rest, i);
    let k = choose|k: int|
        0 <= k < first.len() && (#[trigger] first[k]).doc == d && {
            let ps = positions_in(entries_at(first[k], rest));
            hs[i].score == (ScoreView::Phrase {
                dfs: freqs(dfs, ts),
                tf: phrase_count(ps, ps[0].len() as int) as u32,
                len: seg.length(d)->Some_0,
            })
        };
    let es = entries_at(first[k], rest);
    let ps = positions_in(es);
    lemma_posting(seg, ts[0], d);
    lemma_entry_at(first, d);
    let e = entry_at(first, d)->Some_0;
    let x = choose|x: int| 0 <= x < first.len() && #[trigger] first[x] == e;
    if x < k {
        assert(first[x].doc < first[k].doc);
    } else if k < x {
        assert(first[k].doc < first[x].doc);
    }
    assert forall|y: int| 0 <= y < ts.len() implies #[trigger] es[y] == posting(seg, ts[y], d)
        && es[y].positions is Some by {
        assert(has_term(seg, ts[y], d));
        lemma_posting(seg, ts[y], d);
        lemma_entry_at(seg.lookup(ts[y])->Some_0.0, d);
        if y > 0 {
            assert(rest[y - 1] == ls[y]);
        }
        assert(sound(seg.lookup(ts[y])->Some_0.0));
    }
    lemma_count_places(ps, ps[0].len() as int);
    let n = ps[0].len() as int;
    let places = Set::new(|z: int| 0 <= z < n && follows(ps, ps[0][z]));
    let want = phrase_places(seg, ts, d);
    assert(es[0] == posting(seg, ts[0], d));
    assert(ps[0] == posting(seg, ts[0], d).positions->Some_0);
    assert forall|z: int| places.contains(z) <==> want.contains(z) by {
        if 0 <= z < n {
            let p = ps[0][z];
            if follows(ps, p) {
                assert forall|y: int| 0 <= y < ts.len() implies p + y <= u32::MAX && posting(
                    seg,
                    #[trigger] ts[y],
                    d,
                ).positions->Some_0.contains((p + y) as u32) by {
                    assert(es[y] == posting(seg, ts[y], d));
                    if y > 0 {
                        assert(super::exec::continues(ps, p, y));
                    } else {
                        assert(ps[0][z] == p);
                    }
                }
            }
            if want.contains(z) {
                assert forall|y: int| 1 <= y < ps.len() implies #[trigger] super::exec::continues(
                    ps,
                    p,
                    y,
                ) by {
                    assert(es[y] == posting(seg, ts[y], d));
                    assert(ts[y] == ts[y]);
                }
            }
        }
    }
    assert(places =~= want);
    assert(freqs(dfs, ts) =~= Seq::new(ts.len(), |z: int| dfs[ts[z]]));
}

/// The score of every hit is made of exactly what is due: the numbers of every operand of
/// the query that the document matches, each once.
pub proof fn lemma_scores<S: SegmentReader>(
    seg: S,
    dfs: Map<Seq<char>, u32>,
    node: Node,
    d: u32,
)
    requires
        readable(seg),
    ensures
        leaves_at(node_hits(seg, dfs, node@), d) == due(seg, dfs, node@, d),
    decreases node,
{
    lemma_hits_match(seg, dfs, node);
    let hs = node_hits(seg, dfs, node@);
    assert(hit(hs, d) <==> matches_doc(seg, node@, d));
    if hit(hs, d) {
        match node {
            Node::Term(t) => lemma_term_score(seg, dfs, t@, d),
            Node::Phrase(ts) => {
                let vs = crate::text::views(ts@);
                if vs.len() == 1 {
                    lemma_term_score(seg, dfs, vs[0], d);
                } else if vs.len() >= 2 {
                    lemma_phrase_score(seg, dfs, vs, d);
                }
            },
            Node::And { must, must_not } => {
                lemma_and_view(must, must_not);
                let (a, b) = (nodes(must@), nodes(must_not@));
                lemma_all_hits(seg, dfs, a);
                lemma_all_hits(seg, dfs, b);
                let wanted = all_hits(seg, dfs, a);
                let unwanted = all_hits(seg, dfs, b);
                assert(must@.len() == must.len());
                lemma_lists(seg, dfs, must);
                lemma_intersected(wanted);
                lemma_without_all_leaves(intersected(wanted), unwanted, b.len() as int, d);
                lemma_intersected_leaves(wanted, d);
                lemma_all_scores(seg, dfs, must, must@.len() as int, d);
                assert(a.take(must@.len() as int) =~= a);
            },
            Node::Or(cs) => {
                lemma_or_view(cs);
                let a = nodes(cs@);
                lemma_all_hits(seg, dfs, a);
                lemma_lists(seg, dfs, cs);
                lemma_united_leaves(all_hits(seg, dfs, a), a.len() as int, d);
                lemma_all_scores(seg, dfs, cs, cs@.len() as int, d);
                assert(a.take(cs@.len() as int) =~= a);
            },
        }
    }
}

proof fn lemma_lists<S: SegmentReader>(seg: S, dfs: Map<Seq<char>, u32>, ns: Vec<Node>)
    requires
        readable(seg),
    ensures
        all_ascending(all_hits(seg, dfs, nodes(ns@))),
{
    let a = nodes(ns@);
    let ls = all_hits(seg, dfs, a);
    lemma_all_hits(seg, dfs, a);
    assert forall|i: int| 0 <= i < ls.len() implies ascending_hits(#[trigger] ls[i]) by {
        lemma_hits_match(seg, dfs, ns@[i]);
        assert(a[i] == ns@[i]@);
    }
}

proof fn lemma_all_scores<S: SegmentReader>(
    seg: S,
    dfs: Map<Seq<char>, u32>,
    ns: Vec<Node>,
    n: int,
    d: u32,
)
    requires
        readable(seg),
        0 <= n <= ns@.len(),
    ensures
        leaves_upto(all_hits(seg, dfs, nodes(ns@)), d, n) == all_due(
            seg,
            dfs,
            nodes(ns@).take(n),
            d,
        ),
    decreases ns, n,
{
    let a = nodes(ns@);
    if n > 0 {
        lemma_all_scores(seg, dfs, ns, n - 1, d);
        lemma_all_hits(seg, dfs, a);
        assert(a[n - 1] == ns@[n - 1]@);
        lemma_scores(seg, dfs, ns@[n - 1], d);
        assert(a.take(n).drop_last() =~= a.take(n - 1));
        assert(all_hits(seg, dfs, a)[n - 1] == node_hits(seg, dfs, a[n - 1]));
    }
}

proof fn lemma_numbered_leaves(hs: Seq<HitView>, base: u32, d: u32)
    requires
        ascending_hits(hs),
        hit(hs, d),
        forall|i: int| 0 <= i < hs.len() ==> base + (#[trigger] hs[i]).doc <= u32::MAX,
    ensures
        leaves_at(offset(hs, base), (base + d) as u32) == leaves_at(hs, d),
{
    let own = offset(hs, base);
    let i = choose|i: int| 0 <= i < hs.len() && (#[trigger] hs[i]).doc == d;
    assert(own[i].doc == base + d);
    assert forall|a: int, b: int| 0 <= a < b < own.len() implies (#[trigger] own[a]).doc < (
    #[trigger] own[b]).doc by {
        assert(hs[a].doc < hs[b].doc);
    }
    lemma_leaves_at(hs, i);
    lemma_leaves_at(own, i);
}

/// Over an index, the score of a document is made of what its segment says of it, with the
/// numbers of documents of the whole index.
pub proof fn lemma_index_scores<S: SegmentReader>(
    parts: Seq<S>,
    dfs: Map<Seq<char>, u32>,
    node: Node,
    n: int,
    k: int,
    d: u32,
)
    requires
        0 <= k < n <= parts.len(),
        forall|k: int| 0 <= k < parts.len() ==> (#[trigger] parts[k]).wf() && readable(parts[k]),
        ranges_ascend(parts),
        parts[k].length(d) is Some,
    ensures
        leaves_at(index_hits(parts, dfs, node@, n), (parts[k].first() + d) as u32) == due(
            parts[k],
            dfs,
            node@,
            d,
        ),
    decreases n,
{
    let now = index_hits(parts, dfs, node@, n);
    let before = index_hits(parts, dfs, node@, n - 1);
    let seg = parts[n - 1];
    let hs = node_hits(seg, dfs, node@);
    let own = offset(hs, seg.first());
    let g = (parts[k].first() + d) as u32;
    parts[k].lemma_bounds();
    seg.lemma_bounds();
    lemma_index_hits(parts, dfs, node, n);
    lemma_index_hits(parts, dfs, node, n - 1);
    lemma_hits_match(seg, dfs, node);
    assert forall|i: int| 0 <= i < hs.len() implies (#[trigger] hs[i]).doc < seg.bound() by {
        assert(hit(hs, hs[i].doc));
        lemma_matches_live(seg, node, hs[i].doc);
    }
    if k < n - 1 {
        lemma_index_scores(parts, dfs, node, n - 1, k, d);
        assert(g < seg.first());
        if hit(before, g) {
            let i = choose|i: int| 0 <= i < before.len() && (#[trigger] before[i]).doc == g;
            assert(now[i] == before[i]);
            lemma_leaves_at(before, i);
            lemma_leaves_at(now, i);
        } else if hit(now, g) {
            let i = choose|i: int| 0 <= i < now.len() && (#[trigger] now[i]).doc == g;
            if i < before.len() {
                assert(before[i].doc == g);
            } else {
                assert(now[i] == own[i - before.len()]);
                assert(hs[i - before.len()].doc < seg.bound());
            }
        }
    } else {
        lemma_scores(seg, dfs, node, d);
        if hit(hs, d) {
            let i = choose|i: int| 0 <= i < hs.len() && (#[trigger] hs[i]).doc == d;
            lemma_numbered_leaves(hs, seg.first(), d);
            assert(now[before.len() + i] == own[i]);
            assert(own[i].doc == g);
            assert forall|a: int, b: int| 0 <= a < b < own.len() implies (#[trigger] own[a]).doc < (
            #[trigger] own[b]).doc by {
                assert(hs[a].doc < hs[b].doc);
                assert(hs[b].doc < seg.bound());
            }
            lemma_leaves_at(own, i);
            lemma_leaves_at(now, before.len() + i);
        } else if hit(now, g) {
            let j = choose|j: int| 0 <= j < n && matches_global(#[trigger] parts[j], node@, g);
            if j < n - 1 {
                let other = parts[j];
                other.lemma_bounds();
                lemma_matches_live(other, node, (g - other.first()) as u32);
            } else {
                assert(hit(hs, d));
            }
        }
    }
}

} // verus!
