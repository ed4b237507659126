//! Scored documents and the set operations on them.
//!
//! A score is kept as what it is computed from: the numbers of each leaf and the
//! order of the additions.

use vstd::prelude::*;

use crate::index::DocId;
use crate::sort::{
    arrange, is_order, lemma_order_exists, lemma_order_is_permutation, lemma_order_is_unique, order,
    picked,
};

verus! {

/// What a document's score is made of.
#[derive(Debug, PartialEq, Eq)]
pub enum Score {
    /// A term that occurs in `df` documents, `tf` times in this one of `len`
    /// atoms.
    Term { df: u32, tf: u32, len: u32 },
    /// A phrase of terms that occur in `dfs` documents each.
    Phrase { dfs: Vec<u32>, tf: u32, len: u32 },
    /// The sum of two scores.
    Sum(Box<Score>, Box<Score>),
}

/// A [`Score`] by value.
pub ghost enum ScoreView {
    Term { df: u32, tf: u32, len: u32 },
    Phrase { dfs: Seq<u32>, tf: u32, len: u32 },
    Sum(Box<ScoreView>, Box<ScoreView>),
}

/// A score by value.
pub open spec fn score_view(s: Score) -> ScoreView
    decreases s,
{
    match s {
        Score::Term { df, tf, len } => ScoreView::Term { df, tf, len },
        Score::Phrase { dfs, tf, len } => ScoreView::Phrase { dfs: dfs@, tf, len },
        Score::Sum(a, b) => ScoreView::Sum(
            Box::new(score_view(*a)),
            Box::new(score_view(*b)),
        ),
    }
}

impl View for Score {
    type V = ScoreView;

    open spec fn view(&self) -> ScoreView {
        score_view(*self)
    }
}

/// The sum of two scores.
pub open spec fn sum_view(a: ScoreView, b: ScoreView) -> ScoreView {
    ScoreView::Sum(Box::new(a), Box::new(b))
}

/// One matching document.
#[derive(Debug, PartialEq, Eq)]
pub struct Hit {
    pub doc: DocId,
    pub score: Score,
}

/// A [`Hit`] by value.
pub ghost struct HitView {
    pub doc: u32,
    pub score: ScoreView,
}

impl View for Hit {
    type V = HitView;

    open spec fn view(&self) -> HitView {
        HitView { doc: self.doc, score: self.score@ }
    }
}

/// Hits by value.
pub open spec fn hit_views(hs: Seq<Hit>) -> Seq<HitView> {
    Seq::new(hs.len(), |i: int| hs[i]@)
}

/// In ascending order of documents, none twice.
pub open spec fn ascending_hits(hs: Seq<HitView>) -> bool {
    forall|i: int, j: int| 0 <= i < j < hs.len() ==> (#[trigger] hs[i]).doc < (#[trigger] hs[j]).doc
}

/// The document is among the hits.
pub open spec fn hit(hs: Seq<HitView>, doc: u32) -> bool {
    exists|i: int| 0 <= i < hs.len() && (#[trigger] hs[i]).doc == doc
}

/// The score of a document among the hits.
pub open spec fn score_at(hs: Seq<HitView>, doc: u32) -> Option<ScoreView>
    decreases hs.len(),
{
    if hs.len() == 0 {
        None
    } else if hs.last().doc == doc {
        Some(hs.last().score)
    } else {
        score_at(hs.drop_last(), doc)
    }
}

/// The hits of `a` that `b` has too, scores added.
pub open spec fn joined(a: Seq<HitView>, b: Seq<HitView>) -> Seq<HitView>
    decreases a.len(),
{
    if a.len() == 0 {
        Seq::empty()
    } else {
        let h = a.last();
        match score_at(b, h.doc) {
            Some(s) => joined(a.drop_last(), b).push(
                HitView { doc: h.doc, score: sum_view(h.score, s) },
            ),
            None => joined(a.drop_last(), b),
        }
    }
}

/// The hits of `a` that `b` does not have.
pub open spec fn without(a: Seq<HitView>, b: Seq<HitView>) -> Seq<HitView>
    decreases a.len(),
{
    if a.len() == 0 {
        Seq::empty()
    } else if score_at(b, a.last().doc) is Some {
        without(a.drop_last(), b)
    } else {
        without(a.drop_last(), b).push(a.last())
    }
}

/// The hits of `a` and of `b`, scores added where both have a document.
pub open spec fn merged(a: Seq<HitView>, b: Seq<HitView>) -> Seq<HitView>
    decreases a.len() + b.len(),
{
    if a.len() == 0 {
        b
    } else if b.len() == 0 {
        a
    } else if a.last().doc > b.last().doc {
        merged(a.drop_last(), b).push(a.last())
    } else if a.last().doc < b.last().doc {
        merged(a, b.drop_last()).push(b.last())
    } else {
        merged(a.drop_last(), b.drop_last()).push(
            HitView { doc: a.last().doc, score: sum_view(a.last().score, b.last().score) },
        )
    }
}

/// The lists joined one after the other.
pub open spec fn joined_upto(ls: Seq<Seq<HitView>>, n: int) -> Seq<HitView>
    decreases n,
{
    if n <= 1 {
        ls[0]
    } else {
        joined(joined_upto(ls, n - 1), ls[n - 1])
    }
}

/// The lengths of the lists.
pub open spec fn lens(ls: Seq<Seq<HitView>>) -> Seq<u64> {
    Seq::new(ls.len(), |i: int| ls[i].len() as u64)
}

/// The lists from the shortest to the longest, equal ones as they came.
pub open spec fn by_length(ls: Seq<Seq<HitView>>) -> Seq<Seq<HitView>> {
    picked(ls, choose|places: Seq<usize>| is_order(lens(ls), places))
}

/// The hits that all lists have, scores added from the shortest list on.
pub open spec fn intersected(ls: Seq<Seq<HitView>>) -> Seq<HitView> {
    if ls.len() == 0 || exists|i: int| 0 <= i < ls.len() && (#[trigger] ls[i]).len() == 0 {
        Seq::empty()
    } else {
        joined_upto(by_length(ls), ls.len() as int)
    }
}

/// The hits that any of the first `n` lists has, scores added in order.
pub open spec fn united(ls: Seq<Seq<HitView>>, n: int) -> Seq<HitView>
    decreases n,
{
    if n <= 0 {
        Seq::empty()
    } else {
        merged(united(ls, n - 1), ls[n - 1])
    }
}

/// The hits that none of the first `n` lists has.
pub open spec fn without_all(a: Seq<HitView>, ls: Seq<Seq<HitView>>, n: int) -> Seq<HitView>
    decreases n,
{
    if n <= 0 {
        a
    } else {
        without(without_all(a, ls, n - 1), ls[n - 1])
    }
}

/// A document has a score exactly where it is among the hits.
pub(crate) proof fn lemma_score_at(hs: Seq<HitView>, doc: u32)
    ensures
        score_at(hs, doc) is Some <==> hit(hs, doc),
    decreases hs.len(),
{
    if hs.len() > 0 {
        let rest = hs.drop_last();
        lemma_score_at(rest, doc);
        if hs.last().doc == doc {
            assert(hs[hs.len() - 1].doc == doc);
        } else {
            if hit(hs, doc) {
                let i = choose|i: int| 0 <= i < hs.len() && (#[trigger] hs[i]).doc == doc;
                assert(rest[i].doc == doc);
            }
            if hit(rest, doc) {
                let i = choose|i: int| 0 <= i < rest.len() && (#[trigger] rest[i]).doc == doc;
                assert(hs[i].doc == doc);
            }
        }
    }
}

/// Hits beyond `doc` do not matter for what is found at `doc`.
proof fn lemma_score_prefix(hs: Seq<HitView>, n: int, doc: u32)
    requires
        0 <= n <= hs.len(),
        forall|i: int| n <= i < hs.len() ==> (#[trigger] hs[i]).doc != doc,
    ensures
        score_at(hs, doc) == score_at(hs.take(n), doc),
    decreases hs.len() - n,
{
    if n < hs.len() {
        assert(hs.drop_last().take(n) =~= hs.take(n));
        lemma_score_prefix(hs.drop_last(), n, doc);
    } else {
        assert(hs.take(n) =~= hs);
    }
}

proof fn lemma_joined_prefix(a: Seq<HitView>, b: Seq<HitView>, n: int)
    requires
        0 <= n <= b.len(),
        forall|i: int, j: int|
            0 <= i < a.len() && n <= j < b.len() ==> (#[trigger] a[i]).doc != (#[trigger] b[j]).doc,
    ensures
        joined(a, b) == joined(a, b.take(n)),
        without(a, b) == without(a, b.take(n)),
    decreases a.len(),
{
    if a.len() > 0 {
        let rest = a.drop_last();
        assert forall|i: int, j: int| 0 <= i < rest.len() && n <= j < b.len() implies (
        #[trigger] rest[i]).doc != (#[trigger] b[j]).doc by {
            assert(rest[i] == a[i]);
        }
        lemma_joined_prefix(rest, b, n);
        assert(a[a.len() - 1] == a.last());
        lemma_score_prefix(b, n, a.last().doc);
    }
}

/// Reverses a list.
fn reversed(hs: Vec<Hit>) -> (r: Vec<Hit>)
    ensures
        r@ == hs@.reverse(),
{
    let ghost all = hs@;
    let mut hs = hs;
    let mut r: Vec<Hit> = Vec::new();
    while hs.len() > 0
        invariant
            hs@.len() <= all.len(),
            hs@ == all.take(hs@.len() as int),
            r@ == all.skip(hs@.len() as int).reverse(),
        decreases hs@.len(),
    {
        let ghost n = hs@.len() as int;
        match hs.pop() {
            Some(h) => {
                r.push(h);
            },
            None => {},
        }
        assert(hs@ =~= all.take(n - 1));
        assert(r@ =~= all.skip(n - 1).reverse());
    }
    assert(all.skip(0) =~= all);
    r
}

proof fn lemma_reverse_views(hs: Seq<Hit>)
    ensures
        hit_views(hs.reverse()) == hit_views(hs).reverse(),
{
    assert(hit_views(hs.reverse()) =~= hit_views(hs).reverse());
}

proof fn lemma_prefix_ascends(hs: Seq<HitView>, n: int)
    requires
        ascending_hits(hs),
        0 <= n <= hs.len(),
    ensures
        ascending_hits(hs.take(n)),
{
    let t = hs.take(n);
    assert forall|i: int, j: int| 0 <= i < j < t.len() implies (#[trigger] t[i]).doc < (
    #[trigger] t[j]).doc by {
        assert(t[i] == hs[i] && t[j] == hs[j]);
    }
}

/// The documents in both lists; scores summed.
fn join(a: Vec<Hit>, b: Vec<Hit>) -> (r: Vec<Hit>)
    requires
        ascending_hits(hit_views(a@)),
        ascending_hits(hit_views(b@)),
    ensures
        hit_views(r@) == joined(hit_views(a@), hit_views(b@)),
{
    let ghost av = hit_views(a@);
    let ghost bv = hit_views(b@);
    let mut a = a;
    let mut b = b;
    let mut back: Vec<Hit> = Vec::new();
    assert(joined(av, bv) + hit_views(back@).reverse() =~= joined(av, bv));
    assert(av.take(av.len() as int) =~= av);
    assert(bv.take(bv.len() as int) =~= bv);
    while a.len() > 0
        invariant
            a@.len() <= av.len(),
            b@.len() <= bv.len(),
            hit_views(a@) == av.take(a@.len() as int),
            hit_views(b@) == bv.take(b@.len() as int),
            ascending_hits(av),
            ascending_hits(bv),
            joined(av, bv) == joined(hit_views(a@), hit_views(b@)) + hit_views(back@).reverse(),
        decreases a@.len(),
    {
        let ghost at = hit_views(a@);
        match a.pop() {
            Some(h) => {
                let ghost n = at.len() - 1;
                proof {
                    assert(at.last() == h@);
                    assert(hit_views(a@) =~= at.drop_last());
                    assert(hit_views(a@) =~= av.take(n));
                    lemma_prefix_ascends(av, at.len() as int);
                }
                while b.len() > 0 && b[b.len() - 1].doc > h.doc
                    invariant
                        b@.len() <= bv.len(),
                        hit_views(b@) == bv.take(b@.len() as int),
                        ascending_hits(bv),
                        ascending_hits(at),
                        at.len() > 0,
                        at.last() == h@,
                        joined(av, bv) == joined(at, hit_views(b@)) + hit_views(back@).reverse(),
                    decreases b@.len(),
                {
                    let ghost bt = hit_views(b@);
                    let ghost m = bt.len() - 1;
                    assert(bt[m] == b@[m]@);
                    let _ = b.pop();
                    proof {
                        assert(hit_views(b@) =~= bt.take(m));
                        assert(hit_views(b@) =~= bv.take(m));
                        assert forall|i: int, j: int|
                            0 <= i < at.len() && m <= j < bt.len() implies (#[trigger] at[i]).doc
                            != (#[trigger] bt[j]).doc by {
                            assert(at[i].doc <= at[at.len() - 1].doc);
                        }
                        lemma_joined_prefix(at, bt, m);
                    }
                }
                let ghost bt = hit_views(b@);
                let ghost had = hit_views(back@);
                if b.len() > 0 && b[b.len() - 1].doc == h.doc {
                    match b.pop() {
                        Some(o) => {
                            let ghost m = bt.len() - 1;
                            assert(bt[m] == o@);
                            let both = Hit {
                                doc: h.doc,
                                score: Score::Sum(Box::new(h.score), Box::new(o.score)),
                            };
                            back.push(both);
                            proof {
                                assert(both.score@ == sum_view(h.score@, o.score@));
                                assert(hit_views(b@) =~= bt.take(m));
                                assert(hit_views(b@) =~= bv.take(m));
                                let rest = at.drop_last();
                                assert forall|i: int, j: int|
                                    0 <= i < rest.len() && m <= j < bt.len() implies (
                                #[trigger] rest[i]).doc != (#[trigger] bt[j]).doc by {
                                    assert(rest[i] == at[i]);
                                    assert(at[i].doc < at[at.len() - 1].doc);
                                }
                                lemma_joined_prefix(rest, bt, m);
                                assert(hit_views(back@) =~= had.push(both@));
                                assert(hit_views(back@).reverse() =~= seq![both@] + had.reverse());
                                assert(joined(rest, bt).push(both@) + had.reverse() =~= joined(
                                    rest,
                                    bt,
                                ) + (seq![both@] + had.reverse()));
                            }
                        },
                        None => {},
                    }
                } else {
                    proof {
                        lemma_score_at(bt, h.doc);
                        if hit(bt, h.doc) {
                            let i = choose|i: int|
                                0 <= i < bt.len() && (#[trigger] bt[i]).doc == h.doc;
                            lemma_prefix_ascends(bv, bt.len() as int);
                            assert(bt[bt.len() - 1] == b@[b@.len() - 1]@);
                            assert(bt[i].doc <= bt[bt.len() - 1].doc);
                            assert(false);
                        }
                    }
                }
            },
            None => {},
        }
    }
    assert(joined(hit_views(a@), hit_views(b@)) =~= Seq::empty());
    let r = reversed(back);
    proof {
        lemma_reverse_views(back@);
        assert(Seq::<HitView>::empty() + hit_views(r@) =~= hit_views(r@));
    }
    r
}

/// `base` without the documents of `excluded`; scores are kept.
pub fn difference(base: Vec<Hit>, excluded: &[Hit]) -> (r: Vec<Hit>)
    requires
        ascending_hits(hit_views(base@)),
        ascending_hits(hit_views(excluded@)),
    ensures
        hit_views(r@) == without(hit_views(base@), hit_views(excluded@)),
{
    let ghost av = hit_views(base@);
    let ghost bv = hit_views(excluded@);
    let mut a = base;
    let mut end: usize = excluded.len();
    let mut back: Vec<Hit> = Vec::new();
    assert(without(av, bv) + hit_views(back@).reverse() =~= without(av, bv));
    assert(av.take(av.len() as int) =~= av);
    assert(bv.take(bv.len() as int) =~= bv);
    while a.len() > 0
        invariant
            a@.len() <= av.len(),
            end <= bv.len(),
            bv == hit_views(excluded@),
            hit_views(a@) == av.take(a@.len() as int),
            ascending_hits(av),
            ascending_hits(bv),
            without(av, bv) == without(hit_views(a@), bv.take(end as int)) + hit_views(
                back@,
            ).reverse(),
        decreases a@.len(),
    {
        let ghost at = hit_views(a@);
        match a.pop() {
            Some(h) => {
                proof {
                    assert(at.last() == h@);
                    assert(hit_views(a@) =~= at.drop_last());
                    assert(hit_views(a@) =~= av.take(at.len() - 1));
                    lemma_prefix_ascends(av, at.len() as int);
                }
                while end > 0 && excluded[end - 1].doc > h.doc
                    invariant
                        end <= bv.len(),
                        bv == hit_views(excluded@),
                        ascending_hits(bv),
                        ascending_hits(at),
                        at.len() > 0,
                        at.last() == h@,
                        without(av, bv) == without(at, bv.take(end as int)) + hit_views(
                            back@,
                        ).reverse(),
                    decreases end,
                {
                    proof {
                        let bt = bv.take(end as int);
                        let m = end - 1;
                        assert(bt[m] == excluded@[m]@);
                        assert(bt.take(m) =~= bv.take(m));
                        assert forall|i: int, j: int|
                            0 <= i < at.len() && m <= j < bt.len() implies (#[trigger] at[i]).doc
                            != (#[trigger] bt[j]).doc by {
                            assert(at[i].doc <= at[at.len() - 1].doc);
                        }
                        lemma_joined_prefix(at, bt, m);
                    }
                    end = end - 1;
                }
                let ghost bt = bv.take(end as int);
                let ghost had = hit_views(back@);
                proof {
                    lemma_score_at(bt, h.doc);
                    if end > 0 {
                        assert(bt[end - 1] == excluded@[end - 1]@);
                    }
                    if hit(bt, h.doc) {
                        let i = choose|i: int|
                            0 <= i < bt.len() && (#[trigger] bt[i]).doc == h.doc;
                        lemma_prefix_ascends(bv, end as int);
                        assert(bt[i].doc <= bt[end - 1].doc);
                    }
                }
                if !(end > 0 && excluded[end - 1].doc == h.doc) {
                    back.push(h);
                    proof {
                        let rest = at.drop_last();
                        assert(hit_views(back@) =~= had.push(h@));
                        assert(hit_views(back@).reverse() =~= seq![h@] + had.reverse());
                        assert(without(rest, bt).push(h@) + had.reverse() =~= without(rest, bt) + (
                        seq![h@] + had.reverse()));
                    }
                }
            },
            None => {},
        }
    }
    assert(without(hit_views(a@), bv.take(end as int)) =~= Seq::empty());
    let r = reversed(back);
    proof {
        lemma_reverse_views(back@);
        assert(Seq::<HitView>::empty() + hit_views(r@) =~= hit_views(r@));
    }
    r
}

/// The documents in either list; scores summed.
fn merge_sum(a: Vec<Hit>, b: Vec<Hit>) -> (r: Vec<Hit>)
    ensures
        hit_views(r@) == merged(hit_views(a@), hit_views(b@)),
{
    let ghost av = hit_views(a@);
    let ghost bv = hit_views(b@);
    let mut a = a;
    let mut b = b;
    let mut back: Vec<Hit> = Vec::new();
    assert(merged(av, bv) + hit_views(back@).reverse() =~= merged(av, bv));
    while a.len() > 0 || b.len() > 0
        invariant
            merged(av, bv) == merged(hit_views(a@), hit_views(b@)) + hit_views(back@).reverse(),
        decreases a@.len() + b@.len(),
    {
        let ghost at = hit_views(a@);
        let ghost bt = hit_views(b@);
        let ghost had = hit_views(back@);
        proof {
            if at.len() > 0 {
                assert(at.last() == a@.last()@);
            }
            if bt.len() > 0 {
                assert(bt.last() == b@.last()@);
            }
        }
        let take_a: bool = a.len() > 0 && (b.len() == 0 || a[a.len() - 1].doc >= b[b.len()
            - 1].doc);
        let take_b: bool = b.len() > 0 && (a.len() == 0 || b[b.len() - 1].doc >= a[a.len()
            - 1].doc);
        let from_a: Option<Hit> = if take_a {
            a.pop()
        } else {
            None
        };
        let from_b: Option<Hit> = if take_b {
            b.pop()
        } else {
            None
        };
        proof {
            assert(take_a ==> hit_views(a@) =~= at.drop_last());
            assert(take_b ==> hit_views(b@) =~= bt.drop_last());
        }
        let h: Hit = match (from_a, from_b) {
            (Some(x), Some(y)) => Hit {
                doc: x.doc,
                score: Score::Sum(Box::new(x.score), Box::new(y.score)),
            },
            (Some(x), None) => x,
            (None, Some(y)) => y,
            (None, None) => {
                assert(false);
                return back;
            },
        };
        back.push(h);
        proof {
            let ax = hit_views(a@);
            let bx = hit_views(b@);
            assert(merged(at, bt) == merged(ax, bx).push(h@)) by {
                lemma_merged_step(at, bt);
            }
            assert(hit_views(back@) =~= had.push(h@));
            assert(hit_views(back@).reverse() =~= seq![h@] + had.reverse());
            assert(merged(ax, bx).push(h@) + had.reverse() =~= merged(ax, bx) + (seq![h@]
                + had.reverse()));
        }
    }
    assert(merged(hit_views(a@), hit_views(b@)) =~= Seq::empty());
    let r = reversed(back);
    proof {
        lemma_reverse_views(back@);
        assert(Seq::<HitView>::empty() + hit_views(r@) =~= hit_views(r@));
    }
    r
}

/// Taking the last hit of the only list that has one.
proof fn lemma_merged_step(a: Seq<HitView>, b: Seq<HitView>)
    ensures
        a.len() > 0 && b.len() == 0 ==> merged(a, b) == merged(a.drop_last(), b).push(a.last()),
        b.len() > 0 && a.len() == 0 ==> merged(a, b) == merged(a, b.drop_last()).push(b.last()),
{
    if a.len() > 0 && b.len() == 0 {
        assert(b =~= Seq::empty());
        assert(merged(a.drop_last(), b) =~= a.drop_last());
        assert(a.drop_last().push(a.last()) =~= a);
    }
    if b.len() > 0 && a.len() == 0 {
        assert(b.drop_last().push(b.last()) =~= b);
    }
}

/// Lists of hits by value.
pub open spec fn list_views(ls: Seq<Vec<Hit>>) -> Seq<Seq<HitView>> {
    Seq::new(ls.len(), |i: int| hit_views(ls[i]@))
}

/// Every list ascends.
pub open spec fn all_ascending(ls: Seq<Seq<HitView>>) -> bool {
    forall|i: int| 0 <= i < ls.len() ==> ascending_hits(#[trigger] ls[i])
}

/// What is common to two lists ascends, and is what both have.
pub proof fn lemma_joined(a: Seq<HitView>, b: Seq<HitView>)
    requires
        ascending_hits(a),
    ensures
        ascending_hits(joined(a, b)),
        forall|d: u32| #[trigger] hit(joined(a, b), d) <==> hit(a, d) && hit(b, d),
    decreases a.len(),
{
    if a.len() > 0 {
        let rest = a.drop_last();
        lemma_prefix_ascends(a, a.len() - 1);
        assert(rest =~= a.take(a.len() - 1));
        lemma_joined(rest, b);
        let r = joined(rest, b);
        let h = a.last();
        lemma_score_at(b, h.doc);
        lemma_hit_push(rest, h);
        assert(a =~= rest.push(h));
        match score_at(b, h.doc) {
            Some(s) => {
                let n = HitView { doc: h.doc, score: sum_view(h.score, s) };
                lemma_hit_push(r, n);
                assert forall|i: int, j: int| 0 <= i < j < r.push(n).len() implies (#[trigger] r.push(
                    n,
                )[i]).doc < (#[trigger] r.push(n)[j]).doc by {
                    if j == r.len() {
                        assert(hit(r, r[i].doc));
                        assert(hit(rest, r[i].doc));
                        let k = choose|k: int|
                            0 <= k < rest.len() && (#[trigger] rest[k]).doc == r[i].doc;
                        assert(a[k].doc < a[a.len() - 1].doc);
                    }
                }
                assert forall|d: u32| #[trigger]
                    hit(joined(a, b), d) <==> hit(a, d) && hit(b, d) by {
                    assert(hit(r, d) <==> hit(rest, d) && hit(b, d));
                }
            },
            None => {
                assert forall|d: u32| #[trigger]
                    hit(joined(a, b), d) <==> hit(a, d) && hit(b, d) by {
                    assert(hit(r, d) <==> hit(rest, d) && hit(b, d));
                }
            },
        }
    }
}

/// What is in a list with one more hit.
proof fn lemma_hit_push(a: Seq<HitView>, h: HitView)
    ensures
        forall|d: u32| #[trigger] hit(a.push(h), d) <==> hit(a, d) || h.doc == d,
{
    let t = a.push(h);
    assert forall|d: u32| #[trigger] hit(t, d) <==> hit(a, d) || h.doc == d by {
        if hit(a, d) {
            let i = choose|i: int| 0 <= i < a.len() && (#[trigger] a[i]).doc == d;
            assert(t[i].doc == d);
        }
        if h.doc == d {
            assert(t[a.len() as int].doc == d);
        }
        if hit(t, d) {
            let i = choose|i: int| 0 <= i < t.len() && (#[trigger] t[i]).doc == d;
            if i < a.len() {
                assert(a[i].doc == d);
            }
        }
    }
}

/// What is left of a list ascends, and is what the other does not have.
pub proof fn lemma_without(a: Seq<HitView>, b: Seq<HitView>)
    requires
        ascending_hits(a),
    ensures
        ascending_hits(without(a, b)),
        forall|d: u32| #[trigger] hit(without(a, b), d) <==> hit(a, d) && !hit(b, d),
    decreases a.len(),
{
    if a.len() > 0 {
        let rest = a.drop_last();
        lemma_prefix_ascends(a, a.len() - 1);
        assert(rest =~= a.take(a.len() - 1));
        lemma_without(rest, b);
        let r = without(rest, b);
        let h = a.last();
        lemma_score_at(b, h.doc);
        lemma_hit_push(rest, h);
        assert(a =~= rest.push(h));
        lemma_hit_push(r, h);
        if score_at(b, h.doc) is None {
            assert forall|i: int, j: int| 0 <= i < j < r.push(h).len() implies (#[trigger] r.push(
                h,
            )[i]).doc < (#[trigger] r.push(h)[j]).doc by {
                if j == r.len() {
                    assert(hit(r, r[i].doc));
                    assert(hit(rest, r[i].doc));
                    let k = choose|k: int|
                        0 <= k < rest.len() && (#[trigger] rest[k]).doc == r[i].doc;
                    assert(a[k].doc < a[a.len() - 1].doc);
                }
            }
        }
        assert forall|d: u32| #[trigger]
            hit(without(a, b), d) <==> hit(a, d) && !hit(b, d) by {
            assert(hit(r, d) <==> hit(rest, d) && !hit(b, d));
        }
    }
}

/// Two lists merged ascend, and have what either has.
pub proof fn lemma_merged(a: Seq<HitView>, b: Seq<HitView>)
    requires
        ascending_hits(a),
        ascending_hits(b),
    ensures
        ascending_hits(merged(a, b)),
        forall|d: u32| #[trigger] hit(merged(a, b), d) <==> hit(a, d) || hit(b, d),
    decreases a.len() + b.len(),
{
    if a.len() > 0 && b.len() > 0 {
        let (x, y) = (a.last(), b.last());
        let ra = a.drop_last();
        let rb = b.drop_last();
        lemma_prefix_ascends(a, a.len() - 1);
        lemma_prefix_ascends(b, b.len() - 1);
        assert(ra =~= a.take(a.len() - 1));
        assert(rb =~= b.take(b.len() - 1));
        assert(a =~= ra.push(x));
        assert(b =~= rb.push(y));
        lemma_hit_push(ra, x);
        lemma_hit_push(rb, y);
        let (pa, pb, h) = if x.doc > y.doc {
            (ra, b, x)
        } else if x.doc < y.doc {
            (a, rb, y)
        } else {
            (ra, rb, HitView { doc: x.doc, score: sum_view(x.score, y.score) })
        };
        lemma_merged(pa, pb);
        let r = merged(pa, pb);
        assert(merged(a, b) == r.push(h));
        lemma_hit_push(r, h);
        assert forall|i: int, j: int| 0 <= i < j < r.push(h).len() implies (#[trigger] r.push(
            h,
        )[i]).doc < (#[trigger] r.push(h)[j]).doc by {
            if j == r.len() {
                let d = r[i].doc;
                assert(hit(r, d));
                if hit(pa, d) {
                    let k = choose|k: int| 0 <= k < pa.len() && (#[trigger] pa[k]).doc == d;
                    assert(a[k] == pa[k]);
                    assert(a[k].doc <= a[a.len() - 1].doc);
                } else {
                    assert(hit(pb, d));
                    let k = choose|k: int| 0 <= k < pb.len() && (#[trigger] pb[k]).doc == d;
                    assert(b[k] == pb[k]);
                    assert(b[k].doc <= b[b.len() - 1].doc);
                }
            }
        }
        assert forall|d: u32| #[trigger] hit(merged(a, b), d) <==> hit(a, d) || hit(b, d) by {
            assert(hit(r, d) <==> hit(pa, d) || hit(pb, d));
        }
    }
}

/// What is common to the first lists ascends, and is what each of them has.
pub(crate) proof fn lemma_joined_upto(ls: Seq<Seq<HitView>>, n: int)
    requires
        1 <= n <= ls.len(),
        all_ascending(ls),
    ensures
        ascending_hits(joined_upto(ls, n)),
        forall|d: u32| #[trigger]
            hit(joined_upto(ls, n), d) <==> forall|i: int| 0 <= i < n ==> hit(#[trigger] ls[i], d),
    decreases n,
{
    if n > 1 {
        lemma_joined_upto(ls, n - 1);
        lemma_joined(joined_upto(ls, n - 1), ls[n - 1]);
        assert forall|d: u32| #[trigger] hit(joined_upto(ls, n), d) <==> forall|i: int|
            0 <= i < n ==> hit(#[trigger] ls[i], d) by {
            let before = joined_upto(ls, n - 1);
            assert(hit(joined(before, ls[n - 1]), d) <==> hit(before, d) && hit(ls[n - 1], d));
            assert(hit(before, d) <==> forall|i: int| 0 <= i < n - 1 ==> hit(#[trigger] ls[i], d));
        }
    }
}

/// A shortest-first order of the lists exists and is `places`.
pub(crate) proof fn lemma_by_length(ls: Seq<Seq<HitView>>, places: Seq<usize>)
    requires
        is_order(lens(ls), places),
    ensures
        by_length(ls) == picked(ls, places),
{
    let other = choose|p: Seq<usize>| is_order(lens(ls), p);
    lemma_order_is_unique(lens(ls), places, other);
}

/// What is common to all lists ascends, and is what every list has.
pub proof fn lemma_intersected(ls: Seq<Seq<HitView>>)
    requires
        ls.len() <= usize::MAX,
        all_ascending(ls),
    ensures
        ascending_hits(intersected(ls)),
        forall|d: u32| #[trigger]
            hit(intersected(ls), d) <==> ls.len() > 0 && forall|i: int|
                0 <= i < ls.len() ==> hit(#[trigger] ls[i], d),
{
    let places = lemma_order_exists(lens(ls));
    lemma_by_length(ls, places);
    lemma_order_is_permutation(lens(ls), places);
    let sorted = picked(ls, places);
    if ls.len() > 0 && !(exists|i: int| 0 <= i < ls.len() && (#[trigger] ls[i]).len() == 0) {
        assert(all_ascending(sorted));
        lemma_joined_upto(sorted, ls.len() as int);
        assert forall|d: u32| #[trigger] hit(intersected(ls), d) <==> ls.len() > 0 && forall|i: int|
            0 <= i < ls.len() ==> hit(#[trigger] ls[i], d) by {
            if hit(intersected(ls), d) {
                assert forall|i: int| 0 <= i < ls.len() implies hit(#[trigger] ls[i], d) by {
                    assert(places.contains(i as usize));
                    let k = choose|k: int| 0 <= k < places.len() && places[k] == i as usize;
                    assert(hit(sorted[k], d));
                }
            }
            if forall|i: int| 0 <= i < ls.len() ==> hit(#[trigger] ls[i], d) {
                assert forall|i: int| 0 <= i < ls.len() implies hit(#[trigger] sorted[i], d) by {
                    assert(hit(ls[places[i] as int], d));
                }
            }
        }
    } else {
        assert forall|d: u32| #[trigger] hit(intersected(ls), d) <==> ls.len() > 0 && forall|i: int|
            0 <= i < ls.len() ==> hit(#[trigger] ls[i], d) by {
            if ls.len() > 0 {
                let i = choose|i: int| 0 <= i < ls.len() && (#[trigger] ls[i]).len() == 0;
                assert(!hit(ls[i], d));
            }
        }
    }
}

/// Takes the first list out.
fn take_first(lists: &mut Vec<Vec<Hit>>) -> (r: Vec<Hit>)
    requires
        list_views(old(lists)@).len() > 0,
    ensures
        hit_views(r@) == list_views(old(lists)@)[0],
        list_views(final(lists)@) == list_views(old(lists)@).skip(1),
{
    let ghost had = list_views(lists@);
    let r = lists.remove(0);
    assert(hit_views(r@) == had[0]);
    assert(list_views(lists@) =~= had.skip(1));
    r
}

/// The documents in every list; scores summed from the shortest list on.
pub fn intersect(lists: Vec<Vec<Hit>>) -> (r: Vec<Hit>)
    requires
        all_ascending(list_views(lists@)),
    ensures
        hit_views(r@) == intersected(list_views(lists@)),
        ascending_hits(hit_views(r@)),
        forall|d: u32| #[trigger]
            hit(hit_views(r@), d) <==> lists@.len() > 0 && forall|i: int|
                0 <= i < lists@.len() ==> hit(#[trigger] list_views(lists@)[i], d),
{
    let ghost ls = list_views(lists@);
    let n: usize = lists.len();
    let mut sizes: Vec<u64> = Vec::new();
    let mut i: usize = 0;
    while i < n
        invariant
            i <= n,
            n == lists@.len(),
            ls == list_views(lists@),
            sizes@ == lens(ls).take(i as int),
            forall|k: int| 0 <= k < i ==> (#[trigger] ls[k]).len() > 0,
        decreases n - i,
    {
        assert(ls[i as int] == hit_views(lists@[i as int]@));
        if lists[i].len() == 0 {
            assert(ls[i as int].len() == 0);
            assert(hit_views(Seq::<Hit>::empty()) =~= Seq::empty());
            assert forall|d: u32| !hit(ls[i as int], d) by {}
            return Vec::new();
        }
        sizes.push(lists[i].len() as u64);
        i = i + 1;
        assert(sizes@ =~= lens(ls).take(i as int));
    }
    assert(sizes@ =~= lens(ls));
    if n == 0 {
        assert(hit_views(Seq::<Hit>::empty()) =~= Seq::empty());
        return Vec::new();
    }
    let places = order(sizes.as_slice());
    proof {
        lemma_by_length(ls, places@);
        lemma_order_is_permutation(lens(ls), places@);
        lemma_intersected(ls);
    }
    let sorted = arrange(lists, places.as_slice());
    let ghost sv = picked(ls, places@);
    assert(list_views(sorted@) =~= sv);
    let mut sorted = sorted;
    let mut r = take_first(&mut sorted);
    let mut k: usize = 1;
    while k < n
        invariant
            1 <= k <= n,
            n == sv.len(),
            all_ascending(sv),
            list_views(sorted@) == sv.skip(k as int),
            hit_views(r@) == joined_upto(sv, k as int),
        decreases n - k,
    {
        let next = take_first(&mut sorted);
        proof {
            assert(sv.skip(k as int).skip(1) =~= sv.skip(k + 1));
            lemma_joined_upto(sv, k as int);
        }
        r = join(r, next);
        k = k + 1;
    }
    r
}

/// What any of the lists has ascends.
pub proof fn lemma_united(ls: Seq<Seq<HitView>>, n: int)
    requires
        0 <= n <= ls.len(),
        all_ascending(ls),
    ensures
        ascending_hits(united(ls, n)),
        forall|d: u32| #[trigger]
            hit(united(ls, n), d) <==> exists|i: int| 0 <= i < n && hit(#[trigger] ls[i], d),
    decreases n,
{
    if n > 0 {
        lemma_united(ls, n - 1);
        let before = united(ls, n - 1);
        lemma_merged(before, ls[n - 1]);
        assert forall|d: u32| #[trigger] hit(united(ls, n), d) <==> exists|i: int|
            0 <= i < n && hit(#[trigger] ls[i], d) by {
            assert(hit(merged(before, ls[n - 1]), d) <==> hit(before, d) || hit(ls[n - 1], d));
            assert(hit(before, d) <==> exists|i: int| 0 <= i < n - 1 && hit(#[trigger] ls[i], d));
        }
    } else {
        assert forall|d: u32| !#[trigger] hit(united(ls, n), d) by {}
    }
}

/// The documents in any list; scores summed in the order of the lists.
pub fn union(lists: Vec<Vec<Hit>>) -> (r: Vec<Hit>)
    requires
        all_ascending(list_views(lists@)),
    ensures
        hit_views(r@) == united(list_views(lists@), lists@.len() as int),
        ascending_hits(hit_views(r@)),
{
    let ghost ls = list_views(lists@);
    let n: usize = lists.len();
    let mut lists = lists;
    let mut r: Vec<Hit> = Vec::new();
    let mut k: usize = 0;
    assert(hit_views(r@) =~= Seq::empty());
    assert(ls.skip(0) =~= ls);
    while k < n
        invariant
            k <= n,
            n == ls.len(),
            list_views(lists@) == ls.skip(k as int),
            hit_views(r@) == united(ls, k as int),
        decreases n - k,
    {
        let next = take_first(&mut lists);
        assert(ls.skip(k as int).skip(1) =~= ls.skip(k + 1));
        r = merge_sum(r, next);
        k = k + 1;
    }
    proof {
        lemma_united(ls, n as int);
    }
    r
}

} // verus!
