//! What the ranking keeps, what snippets are to highlight, and how often terms occur in all.

use vstd::prelude::*;

use super::exec::{any_mentions, mentions, query_dfs, total_df};
use super::parser::{lemma_and_view, lemma_or_view, nodes, Node, NodeView};
use super::{all_positive_terms, is_top, positive_terms, with_new, RankKey};
use crate::index::SegmentReader;
use crate::sort::{comes_before, is_order, lemma_order_is_permutation};
use crate::text::lemma_push_contains;

verus! {

/// The hit is the better one: by its key, or by the smaller document number where the keys are
/// equal.
pub open spec fn better(a: RankKey, b: RankKey) -> bool {
    a.key > b.key || a.key == b.key && a.doc < b.doc
}

/// The ranking lists different hits, as many as the limit lets or there are, the better ones
/// first, and no hit that it leaves out is better than one that it lists.
pub proof fn lemma_rank(keys: Seq<RankKey>, limit: nat, top: Seq<usize>)
    requires
        is_top(keys, limit, top),
    ensures
        top.len() <= limit,
        top.len() <= keys.len(),
        top.len() == limit || top.len() == keys.len(),
        top.no_duplicates(),
        forall|i: int| 0 <= i < top.len() ==> (#[trigger] top[i]) < keys.len(),
        forall|i: int, j: int|
            0 <= i < j < top.len() ==> !better(
                keys[(#[trigger] top[j]) as int],
                keys[(#[trigger] top[i]) as int],
            ),
        forall|p: usize, i: int|
            p < keys.len() && !top.contains(p) && 0 <= i < top.len() ==> !better(
                #[trigger] keys[p as int],
                keys[(#[trigger] top[i]) as int],
            ),
{
    let places = choose|places: Seq<usize>| #[trigger]
        is_order(keys, places) && top == places.take(
            if limit < places.len() {
                limit as int
            } else {
                places.len() as int
            },
        );
    lemma_order_is_permutation(keys, places);
    assert forall|i: int| 0 <= i < top.len() implies #[trigger] top[i] == places[i] by {}
    assert forall|i: int, j: int| 0 <= i < j < top.len() implies !better(
        keys[(#[trigger] top[j]) as int],
        keys[(#[trigger] top[i]) as int],
    ) by {
        assert(comes_before(keys, places[i] as int, places[j] as int));
    }
    assert forall|p: usize, i: int|
        p < keys.len() && !top.contains(p) && 0 <= i < top.len() implies !better(
        #[trigger] keys[p as int],
        keys[(#[trigger] top[i]) as int],
    ) by {
        assert(places.contains(p));
        let j = choose|j: int| 0 <= j < places.len() && places[j] == p;
        if j < top.len() {
            assert(top[j] == p);
        }
        assert(comes_before(keys, places[i] as int, places[j] as int));
    }
}

/// The term stands in the node outside of every negation.
pub open spec fn wants(n: NodeView, t: Seq<char>) -> bool
    decreases n,
{
    match n {
        NodeView::Term(u) => u == t,
        NodeView::Phrase(ts) => exists|i: int| 0 <= i < ts.len() && #[trigger] ts[i] == t,
        NodeView::And { must, .. } => any_wants(must, t),
        NodeView::Or(cs) => any_wants(cs, t),
    }
}

/// It stands so in one of the nodes.
pub open spec fn any_wants(ns: Seq<NodeView>, t: Seq<char>) -> bool
    decreases ns,
{
    ns.len() > 0 && (wants(ns.last(), t) || any_wants(ns.drop_last(), t))
}

proof fn lemma_with_new_holds(out: Seq<Seq<char>>, ts: Seq<Seq<char>>, t: Seq<char>)
    requires
        out.no_duplicates(),
    ensures
        with_new(out, ts).no_duplicates(),
        with_new(out, ts).contains(t) <==> out.contains(t) || ts.contains(t),
    decreases ts.len(),
{
    if ts.len() > 0 {
        let before = with_new(out, ts.drop_last());
        lemma_with_new_holds(out, ts.drop_last(), t);
        lemma_with_new_holds(out, ts.drop_last(), ts.last());
        lemma_push_contains(before, ts.last(), t);
        lemma_push_contains(ts.drop_last(), ts.last(), t);
        assert(ts.drop_last().push(ts.last()) =~= ts);
        let now = with_new(out, ts);
        if !before.contains(ts.last()) {
            assert forall|i: int, j: int| 0 <= i < j < now.len() implies now[i] != now[j] by {
                if j == before.len() {
                    assert(before[i] == now[i]);
                    assert(before.contains(now[i]));
                }
            }
        }
    }
}

proof fn lemma_joined_contains(a: Seq<Seq<char>>, b: Seq<Seq<char>>, t: Seq<char>)
    ensures
        (a + b).contains(t) <==> a.contains(t) || b.contains(t),
{
    let c = a + b;
    if a.contains(t) {
        let i = choose|i: int| 0 <= i < a.len() && a[i] == t;
        assert(c[i] == t);
    }
    if b.contains(t) {
        let i = choose|i: int| 0 <= i < b.len() && b[i] == t;
        assert(c[a.len() + i] == t);
    }
    if c.contains(t) {
        let i = choose|i: int| 0 <= i < c.len() && c[i] == t;
        if i < a.len() {
            assert(a[i] == t);
        } else {
            assert(b[i - a.len()] == t);
        }
    }
}

proof fn lemma_wants(n: Node, t: Seq<char>)
    ensures
        positive_terms(n@).contains(t) <==> wants(n@, t),
    decreases n,
{
    match n {
        Node::Term(u) => {
            assert(seq![u@][0] == u@);
        },
        Node::Phrase(ts) => {},
        Node::And { must, must_not } => {
            lemma_and_view(must, must_not);
            lemma_all_want(must, must@.len() as int, t);
            assert(nodes(must@).take(must@.len() as int) =~= nodes(must@));
        },
        Node::Or(cs) => {
            lemma_or_view(cs);
            lemma_all_want(cs, cs@.len() as int, t);
            assert(nodes(cs@).take(cs@.len() as int) =~= nodes(cs@));
        },
    }
}

proof fn lemma_all_want(ns: Vec<Node>, k: int, t: Seq<char>)
    requires
        0 <= k <= ns@.len(),
    ensures
        all_positive_terms(nodes(ns@).take(k)).contains(t) <==> any_wants(nodes(ns@).take(k), t),
    decreases ns, k,
{
    if k > 0 {
        let vs = nodes(ns@).take(k);
        lemma_all_want(ns, k - 1, t);
        assert(vs.drop_last() =~= nodes(ns@).take(k - 1));
        assert(vs.last() == ns@[k - 1]@);
        lemma_wants(ns@[k - 1], t);
        lemma_joined_contains(all_positive_terms(vs.drop_last()), positive_terms(vs.last()), t);
    }
}

/// What is to be highlighted are the terms that the query wants, each once.
pub proof fn lemma_highlights_what_is_wanted(n: Node, t: Seq<char>)
    ensures
        with_new(Seq::empty(), positive_terms(n@)).no_duplicates(),
        with_new(Seq::empty(), positive_terms(n@)).contains(t) <==> wants(n@, t),
{
    lemma_with_new_holds(Seq::empty(), positive_terms(n@), t);
    lemma_wants(n, t);
}

/// Of a list of terms these are the different ones: each stands at a later place than the one
/// before it, and nowhere before that.
pub open spec fn first_places(ts: Seq<Seq<char>>, at: Seq<int>, r: Seq<Seq<char>>) -> bool {
    &&& at.len() == r.len()
    &&& forall|i: int, j: int| 0 <= i < j < at.len() ==> (#[trigger] at[i]) < (#[trigger] at[j])
    &&& forall|i: int|
        0 <= i < at.len() ==> 0 <= (#[trigger] at[i]) < ts.len() && ts[at[i]] == r[i]
    &&& forall|i: int, p: int|
        #![trigger at[i], ts[p]]
        0 <= i < at.len() && 0 <= p < at[i] ==> ts[p] != r[i]
}

proof fn lemma_first_places(ts: Seq<Seq<char>>) -> (at: Seq<int>)
    ensures
        first_places(ts, at, with_new(Seq::empty(), ts)),
    decreases ts.len(),
{
    let r = with_new(Seq::empty(), ts);
    if ts.len() == 0 {
        Seq::empty()
    } else {
        let f = ts.drop_last();
        let before = with_new(Seq::empty(), f);
        let had = lemma_first_places(f);
        lemma_with_new_holds(Seq::empty(), f, ts.last());
        let at = if before.contains(ts.last()) {
            had
        } else {
            had.push(ts.len() - 1)
        };
        assert forall|i: int| 0 <= i < had.len() implies 0 <= (#[trigger] had[i]) < f.len()
            && f[had[i]] == before[i] && ts[had[i]] == before[i] by {}
        assert forall|i: int, p: int|
            #![trigger at[i], ts[p]]
            0 <= i < at.len() && 0 <= p < at[i] implies ts[p] != r[i] by {
            assert(f[p] == ts[p]);
            if i < had.len() {
                assert(at[i] == had[i]);
            } else {
                assert(f.contains(f[p]));
            }
        }
        at
    }
}

/// The terms to highlight come in the order in which they first stand in the query.
pub proof fn lemma_highlights_in_order(n: NodeView)
    ensures
        exists|at: Seq<int>| #[trigger]
            first_places(positive_terms(n), at, with_new(Seq::empty(), positive_terms(n))),
{
    let at = lemma_first_places(positive_terms(n));
}

/// In how many documents the segment says that the term occurs.
pub open spec fn df_in<S: SegmentReader>(seg: S, t: Seq<char>) -> int {
    match seg.lookup(t) {
        Some((_, df)) => df as int,
        None => 0,
    }
}

/// In how many documents a term occurs is the sum over the segments, as far as it can be told.
pub proof fn lemma_total_df<S: SegmentReader>(parts: Seq<S>, t: Seq<char>, n: int)
    requires
        0 <= n <= parts.len(),
    ensures
        ({
            let sum = parts.take(n).map_values(|s: S| df_in(s, t)).fold_left(
                0int,
                |a: int, b: int| a + b,
            );
            total_df(parts, t, n) == if sum <= u32::MAX {
                sum
            } else {
                u32::MAX as int
            }
        }),
    decreases n,
{
    let plus = |a: int, b: int| a + b;
    let dfs = parts.take(n).map_values(|s: S| df_in(s, t));
    if n > 0 {
        lemma_total_df(parts, t, n - 1);
        let before = parts.take(n - 1).map_values(|s: S| df_in(s, t));
        assert(dfs.drop_last() =~= before);
        assert(dfs.last() == df_in(parts[n - 1], t));
        assert(dfs.fold_left(0int, plus) == before.fold_left(0int, plus) + df_in(parts[n - 1], t));
    } else {
        assert(dfs =~= Seq::empty());
    }
}

/// The term stands in the node, negated or not.
pub open spec fn stands(n: NodeView, t: Seq<char>) -> bool
    decreases n,
{
    match n {
        NodeView::Term(u) => u == t,
        NodeView::Phrase(ts) => exists|i: int| 0 <= i < ts.len() && #[trigger] ts[i] == t,
        NodeView::And { must, must_not } => any_stands(must, t) || any_stands(must_not, t),
        NodeView::Or(cs) => any_stands(cs, t),
    }
}

/// It stands in one of the nodes.
pub open spec fn any_stands(ns: Seq<NodeView>, t: Seq<char>) -> bool
    decreases ns,
{
    ns.len() > 0 && (stands(ns.last(), t) || any_stands(ns.drop_last(), t))
}

proof fn lemma_stands(n: Node, t: Seq<char>)
    ensures
        mentions(n@, t) <==> stands(n@, t),
    decreases n,
{
    match n {
        Node::Term(u) => {},
        Node::Phrase(ts) => {},
        Node::And { must, must_not } => {
            lemma_and_view(must, must_not);
            lemma_any_stands(must, must@.len() as int, t);
            lemma_any_stands(must_not, must_not@.len() as int, t);
            assert(nodes(must@).take(must@.len() as int) =~= nodes(must@));
            assert(nodes(must_not@).take(must_not@.len() as int) =~= nodes(must_not@));
        },
        Node::Or(cs) => {
            lemma_or_view(cs);
            lemma_any_stands(cs, cs@.len() as int, t);
            assert(nodes(cs@).take(cs@.len() as int) =~= nodes(cs@));
        },
    }
}

proof fn lemma_any_stands(ns: Vec<Node>, k: int, t: Seq<char>)
    requires
        0 <= k <= ns@.len(),
    ensures
        any_mentions(nodes(ns@).take(k), t) <==> any_stands(nodes(ns@).take(k), t),
    decreases ns, k,
{
    if k > 0 {
        let vs = nodes(ns@).take(k);
        lemma_any_stands(ns, k - 1, t);
        assert(vs.drop_last() =~= nodes(ns@).take(k - 1));
        assert(vs.last() == ns@[k - 1]@);
        lemma_stands(ns@[k - 1], t);
    }
}

/// Every term of a query is scored by the number of documents of the whole index that have it,
/// as far as it can be told.
pub proof fn lemma_query_dfs<S: SegmentReader>(parts: Seq<S>, n: Node, t: Seq<char>)
    ensures
        query_dfs(parts, n@).contains_key(t) <==> stands(n@, t),
        stands(n@, t) ==> {
            let sum = parts.map_values(|s: S| df_in(s, t)).fold_left(
                0int,
                |a: int, b: int| a + b,
            );
            query_dfs(parts, n@)[t] == if sum <= u32::MAX {
                sum
            } else {
                u32::MAX as int
            }
        },
{
    lemma_stands(n, t);
    lemma_total_df(parts, t, parts.len() as int);
    assert(parts.take(parts.len() as int) =~= parts);
}

} // verus!
