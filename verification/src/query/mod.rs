//! Queries: parsing, evaluation and ranking.

pub mod exec;
pub mod hits;
pub mod laws;
pub mod lex_laws;
pub mod parse_laws;
pub mod parser;
pub mod rank_laws;
pub mod refuse_laws;
pub mod score_laws;

use vstd::prelude::*;

pub use exec::evaluate;
pub use hits::{Hit, Score};
pub use parser::Node;

use crate::error::{QueryError, QueryErrorView};
use crate::index::DocId;
use crate::sort::{is_order, order, Ranked};
use crate::text::{is_among, views};
use parser::{lemma_and_view, lemma_or_view, nodes, parsed, NodeView};

verus! {

/// A parsed query.
#[derive(Debug, PartialEq, Eq)]
pub struct Query {
    root: Node,
}

/// The terms with those of a list appended that are not there yet.
pub open spec fn with_new(out: Seq<Seq<char>>, ts: Seq<Seq<char>>) -> Seq<Seq<char>>
    decreases ts.len(),
{
    if ts.len() == 0 {
        out
    } else {
        let before = with_new(out, ts.drop_last());
        if before.contains(ts.last()) {
            before
        } else {
            before.push(ts.last())
        }
    }
}

/// The terms of a node in order, without negated ones, repeats included.
pub open spec fn positive_terms(n: NodeView) -> Seq<Seq<char>>
    decreases n,
{
    match n {
        NodeView::Term(t) => seq![t],
        NodeView::Phrase(ts) => ts,
        NodeView::And { must, must_not } => all_positive_terms(must),
        NodeView::Or(cs) => all_positive_terms(cs),
    }
}

/// The terms of several nodes in order.
pub open spec fn all_positive_terms(ns: Seq<NodeView>) -> Seq<Seq<char>>
    decreases ns,
{
    if ns.len() == 0 {
        Seq::empty()
    } else {
        all_positive_terms(ns.drop_last()) + positive_terms(ns.last())
    }
}

impl Query {
    /// The root of the query.
    pub closed spec fn node(&self) -> NodeView {
        self.root@
    }

    /// Parses a query.
    pub fn parse(input: &str) -> (r: Result<Query, QueryError>)
        requires
            input@.len() <= u32::MAX,
        ensures
            match r {
                Ok(q) => parsed(input@) == Ok::<NodeView, QueryErrorView>(q.node()),
                Err(e) => parsed(input@) == Err::<NodeView, QueryErrorView>(e@),
            },
    {
        let root = parser::parse(input)?;
        Ok(Query { root })
    }

    /// The root of the query.
    pub fn root(&self) -> (r: &Node)
        ensures
            r@ == self.node(),
    {
        &self.root
    }

    /// The distinct terms that are not negated, in the order of their first
    /// appearance: what snippets highlight.
    pub fn highlight_terms(&self) -> (r: Vec<String>)
        ensures
            views(r@) == with_new(Seq::empty(), positive_terms(self.node())),
    {
        let mut out: Vec<String> = Vec::new();
        assert(views(out@) =~= Seq::empty());
        add_terms(&self.root, &mut out);
        out
    }
}

proof fn lemma_with_new(out: Seq<Seq<char>>, a: Seq<Seq<char>>, b: Seq<Seq<char>>)
    ensures
        with_new(with_new(out, a), b) == with_new(out, a + b),
    decreases b.len(),
{
    if b.len() == 0 {
        assert(a + b =~= a);
    } else {
        assert((a + b).drop_last() =~= a + b.drop_last());
        lemma_with_new(out, a, b.drop_last());
    }
}

fn add_new(out: &mut Vec<String>, term: &str)
    ensures
        views(final(out)@) == with_new(views(old(out)@), seq![term@]),
{
    let ghost had = views(out@);
    proof {
        assert(seq![term@].drop_last() =~= Seq::empty());
        assert(with_new(had, Seq::empty()) == had);
    }
    if !is_among(out, term) {
        out.push(term.to_string());
        assert(views(out@) =~= had.push(term@));
    }
}

fn add_terms(node: &Node, out: &mut Vec<String>)
    ensures
        views(final(out)@) == with_new(views(old(out)@), positive_terms(node@)),
    decreases node,
{
    match node {
        Node::Term(t) => add_new(out, t.as_str()),
        Node::Phrase(ts) => {
            let ghost start = views(out@);
            let mut i: usize = 0;
            assert(views(ts@).take(0) =~= Seq::empty());
            while i < ts.len()
                invariant
                    i <= ts@.len(),
                    views(out@) == with_new(start, views(ts@).take(i as int)),
                decreases ts@.len() - i,
            {
                let ghost all = views(ts@);
                add_new(out, ts[i].as_str());
                i = i + 1;
                proof {
                    lemma_with_new(start, all.take(i - 1), seq![all[i - 1]]);
                    assert(all.take(i - 1) + seq![all[i - 1]] =~= all.take(i as int));
                }
            }
            assert(views(ts@).take(i as int) =~= views(ts@));
        },
        Node::And { must, must_not } => {
            proof {
                lemma_and_view(*must, *must_not);
            }
            add_all(must, out);
        },
        Node::Or(cs) => {
            proof {
                lemma_or_view(*cs);
            }
            add_all(cs, out);
        },
    }
}

fn add_all(ns: &Vec<Node>, out: &mut Vec<String>)
    ensures
        views(final(out)@) == with_new(views(old(out)@), all_positive_terms(nodes(ns@))),
    decreases ns,
{
    let ghost start = views(out@);
    let ghost vs = nodes(ns@);
    let mut i: usize = 0;
    assert(vs.take(0) =~= Seq::empty());
    while i < ns.len()
        invariant
            i <= ns@.len(),
            vs == nodes(ns@),
            views(out@) == with_new(start, all_positive_terms(vs.take(i as int))),
        decreases ns@.len() - i,
    {
        add_terms(&ns[i], out);
        i = i + 1;
        proof {
            assert(vs.take(i as int).drop_last() =~= vs.take(i - 1));
            assert(vs.take(i as int).last() == ns@[i - 1]@);
            lemma_with_new(
                start,
                all_positive_terms(vs.take(i - 1)),
                positive_terms(ns@[i - 1]@),
            );
        }
    }
    assert(vs.take(i as int) =~= vs);
}

/// What a hit is ranked by: a key that is larger for a better score, then the
/// document.
#[derive(Debug, Clone, Copy, PartialEq, Eq, Structural)]
pub struct RankKey {
    pub key: u32,
    pub doc: DocId,
}

impl Ranked for RankKey {
    open spec fn below(&self, other: &Self) -> bool {
        self.key > other.key || self.key == other.key && self.doc < other.doc
    }

    proof fn lemma_ranks(a: &Self, b: &Self, c: &Self) {
    }

    fn is_below(&self, other: &Self) -> (r: bool) {
        self.key > other.key || self.key == other.key && self.doc < other.doc
    }
}

/// The best `limit` of the hits: the best first, ties by document.
pub open spec fn is_top(keys: Seq<RankKey>, limit: nat, top: Seq<usize>) -> bool {
    exists|places: Seq<usize>| #[trigger]
        is_order(keys, places) && top == places.take(
            if limit < places.len() {
                limit as int
            } else {
                places.len() as int
            },
        )
}

/// The places of the best `limit` hits, best first.
pub fn rank(keys: &[RankKey], limit: usize) -> (top: Vec<usize>)
    ensures
        is_top(keys@, limit as nat, top@),
        top@.len() == if limit < keys@.len() {
            limit as nat
        } else {
            keys@.len()
        },
{
    let mut top = order(keys);
    let ghost places = top@;
    if limit < top.len() {
        top.truncate(limit);
    } else {
        assert(places.take(places.len() as int) =~= places);
    }
    assert(is_order(keys@, places));
    top
}

} // verus!
