//! What a query means, by how it is written: every operand counts, in any order, with or
//! without `AND` between them, and the pieces of a text are those written in it.

use vstd::prelude::*;

use super::parser::{
    and_at, atom_at, operand_node, or_at, parsed_toks, NodeView, TokView,
};
use crate::error::QueryErrorView;

verus! {

/// An operand as it is written: a word or a quoted phrase with its atoms, or clauses in
/// parentheses.
pub ghost enum Operand {
    Word { text: Seq<char>, atoms: Seq<Seq<char>> },
    Quoted { text: Seq<char>, atoms: Seq<Seq<char>> },
    Group(Seq<Seq<Item>>),
}

/// An operand in its place: with `AND` before it or not, with a minus or not.
pub ghost struct Item {
    pub and_before: bool,
    pub negated: bool,
    pub operand: Operand,
}

/// A piece with the atoms of its text.
pub type Piece = (TokView, Seq<Seq<char>>);

/// The pieces of an operand.
pub open spec fn operand_pieces(o: Operand) -> Seq<Piece>
    decreases o,
{
    match o {
        Operand::Word { text, atoms } => seq![(TokView::Word(text), atoms)],
        Operand::Quoted { text, atoms } => seq![(TokView::Phrase(text), atoms)],
        Operand::Group(cs) => seq![(TokView::LParen, Seq::empty())] + query_pieces(cs).push(
            (TokView::RParen, Seq::empty()),
        ),
    }
}

/// The pieces of an operand in its place.
pub open spec fn item_pieces(x: Item) -> Seq<Piece>
    decreases x,
{
    (if x.and_before {
        seq![(TokView::And, Seq::empty())]
    } else {
        Seq::empty()
    }) + (if x.negated {
        seq![(TokView::Minus, Seq::empty())]
    } else {
        Seq::empty()
    }) + operand_pieces(x.operand)
}

/// The pieces of a clause.
pub open spec fn clause_pieces(xs: Seq<Item>) -> Seq<Piece>
    decreases xs,
{
    if xs.len() == 0 {
        Seq::empty()
    } else {
        clause_pieces(xs.drop_last()) + item_pieces(xs.last())
    }
}

/// The pieces of clauses with `OR` between them.
pub open spec fn query_pieces(cs: Seq<Seq<Item>>) -> Seq<Piece>
    decreases cs,
{
    if cs.len() == 0 {
        Seq::empty()
    } else if cs.len() == 1 {
        clause_pieces(cs.last())
    } else {
        query_pieces(cs.drop_last()).push((TokView::Or, Seq::empty())) + clause_pieces(cs.last())
    }
}

/// What an operand means; nothing where it has no atoms.
pub open spec fn operand_means(o: Operand) -> Option<NodeView>
    decreases o, 0int,
{
    match o {
        Operand::Word { atoms, .. } => text_means(atoms),
        Operand::Quoted { atoms, .. } => text_means(atoms),
        Operand::Group(cs) => Some(query_means(cs)),
    }
}

/// One atom is a term, several are a phrase.
pub open spec fn text_means(atoms: Seq<Seq<char>>) -> Option<NodeView> {
    if atoms.len() == 0 {
        None
    } else if atoms.len() == 1 {
        Some(NodeView::Term(atoms[0]))
    } else {
        Some(NodeView::Phrase(atoms))
    }
}

/// The operands of a clause that are negated, or that are not, in order.
pub open spec fn operands(xs: Seq<Item>, negated: bool) -> Seq<NodeView>
    decreases xs, 0int,
{
    if xs.len() == 0 {
        Seq::empty()
    } else {
        let before = operands(xs.drop_last(), negated);
        match operand_means(xs.last().operand) {
            Some(n) => if xs.last().negated == negated {
                before.push(n)
            } else {
                before
            },
            None => before,
        }
    }
}

/// What a clause means: its operand, where it has one and nothing else, or that all of its
/// operands match and none of the negated ones.
pub open spec fn clause_means(xs: Seq<Item>) -> NodeView
    decreases xs, 1int,
{
    if operands(xs, false).len() == 1 && operands(xs, true).len() == 0 {
        operands(xs, false)[0]
    } else {
        NodeView::And { must: operands(xs, false), must_not: operands(xs, true) }
    }
}

/// What each clause means.
pub open spec fn clauses_mean(cs: Seq<Seq<Item>>) -> Seq<NodeView>
    decreases cs, 0int,
{
    if cs.len() == 0 {
        Seq::empty()
    } else {
        clauses_mean(cs.drop_last()).push(clause_means(cs.last()))
    }
}

/// What clauses mean: the one clause, or that one of them matches.
pub open spec fn query_means(cs: Seq<Seq<Item>>) -> NodeView
    decreases cs, 1int,
{
    if cs.len() == 1 {
        clauses_mean(cs)[0]
    } else {
        NodeView::Or(clauses_mean(cs))
    }
}

/// An operand is written well.
pub open spec fn operand_ok(o: Operand) -> bool
    decreases o,
{
    match o {
        Operand::Group(cs) => query_ok(cs),
        _ => true,
    }
}

/// A clause is written well as far as it goes: `AND` stands behind an operand that counts.
pub open spec fn items_ok(xs: Seq<Item>) -> bool
    decreases xs,
{
    xs.len() == 0 || (items_ok(xs.drop_last()) && operand_ok(xs.last().operand) && (
    xs.last().and_before ==> operands(xs.drop_last(), false).len() + operands(
        xs.drop_last(),
        true,
    ).len() > 0))
}

/// Clauses are written well: there is one, and each has an operand that is not negated.
pub open spec fn query_ok(cs: Seq<Seq<Item>>) -> bool
    decreases cs,
{
    &&& cs.len() > 0
    &&& items_ok(cs.last()) && operands(cs.last(), false).len() > 0 && !cs.last()[0].and_before
    &&& cs.len() > 1 ==> query_ok(cs.drop_last())
}

/// The pieces stand among those of a query from `i` on.
pub open spec fn stand_at(
    ts: Seq<(nat, TokView)>,
    ops: Seq<Seq<Seq<char>>>,
    i: int,
    ps: Seq<Piece>,
) -> bool {
    &&& 0 <= i
    &&& i + ps.len() <= ts.len()
    &&& ops.len() == ts.len()
    &&& forall|k: int|
        #![trigger ps[k]]
        0 <= k < ps.len() ==> ts[i + k].1 == ps[k].0 && ((ps[k].0 is Word || ps[k].0 is Phrase)
            ==> ops[i + k] == ps[k].1)
}

proof fn lemma_stand_split(
    ts: Seq<(nat, TokView)>,
    ops: Seq<Seq<Seq<char>>>,
    i: int,
    a: Seq<Piece>,
    b: Seq<Piece>,
)
    requires
        stand_at(ts, ops, i, a + b),
    ensures
        stand_at(ts, ops, i, a),
        stand_at(ts, ops, i + a.len(), b),
{
    let all = a + b;
    assert forall|k: int| #![trigger a[k]] 0 <= k < a.len() implies ts[i + k].1 == a[k].0 && ((
    a[k].0 is Word || a[k].0 is Phrase) ==> ops[i + k] == a[k].1) by {
        assert(all[k] == a[k]);
    }
    assert forall|k: int| #![trigger b[k]] 0 <= k < b.len() implies ts[i + a.len() + k].1
        == b[k].0 && ((b[k].0 is Word || b[k].0 is Phrase) ==> ops[i + a.len() + k] == b[k].1) by {
        assert(all[a.len() + k] == b[k]);
    }
}

proof fn lemma_operand_starts(o: Operand)
    ensures
        operand_pieces(o).len() > 0,
        operand_pieces(o)[0].0 is Word || operand_pieces(o)[0].0 is Phrase
            || operand_pieces(o)[0].0 is LParen,
{
}

/// An operand is read as what it means.
proof fn lemma_operand(ts: Seq<(nat, TokView)>, ops: Seq<Seq<Seq<char>>>, i: int, o: Operand)
    requires
        operand_ok(o),
        stand_at(ts, ops, i, operand_pieces(o)),
    ensures
        atom_at(ts, ops, i) == Ok::<(Option<NodeView>, int), QueryErrorView>(
            (operand_means(o), i + operand_pieces(o).len()),
        ),
    decreases o, 0int,
{
    let ps = operand_pieces(o);
    match o {
        Operand::Word { text, atoms } => {
            assert(ps[0].0 is Word);
            assert(operand_node(ops[i]) == text_means(atoms));
        },
        Operand::Quoted { text, atoms } => {
            assert(ps[0].0 is Phrase);
            assert(operand_node(ops[i]) == text_means(atoms));
        },
        Operand::Group(cs) => {
            let open: Seq<Piece> = seq![(TokView::LParen, Seq::empty())];
            let close: Seq<Piece> = seq![(TokView::RParen, Seq::empty())];
            let inner = query_pieces(cs);
            assert(ps =~= open + (inner + close));
            lemma_stand_split(ts, ops, i, open, inner + close);
            lemma_stand_split(ts, ops, i + 1, inner, close);
            assert(ps[0].0 is LParen);
            let e = i + 1 + inner.len();
            assert(close[0].0 is RParen);
            assert(ts[e + 0].1 is RParen);
            lemma_query(ts, ops, i + 1, cs);
        },
    }
}

/// Clauses are read as what they mean, up to what ends them.
pub(crate) proof fn lemma_query(
    ts: Seq<(nat, TokView)>,
    ops: Seq<Seq<Seq<char>>>,
    i: int,
    cs: Seq<Seq<Item>>,
)
    requires
        query_ok(cs),
        stand_at(ts, ops, i, query_pieces(cs)),
        ({
            let e = i + query_pieces(cs).len();
            e >= ts.len() || ts[e].1 is RParen
        }),
    ensures
        or_at(ts, ops, i, Seq::empty()) == Ok::<(NodeView, int), QueryErrorView>(
            (query_means(cs), i + query_pieces(cs).len()),
        ),
    decreases cs, 2int,
{
    let e = i + query_pieces(cs).len();
    if cs.len() == 1 {
        let one = cs.last();
        lemma_clause(ts, ops, i, one);
        lemma_clauses_mean(cs);
        assert(clauses_mean(cs)[0] == clause_means(one));
        assert(Seq::<NodeView>::empty().push(clause_means(one)).len() == 1);
    } else {
        let before = cs.drop_last();
        let head = query_pieces(before);
        let or: Seq<Piece> = seq![(TokView::Or, Seq::empty())];
        let tail = clause_pieces(cs.last());
        assert(query_pieces(cs) =~= head + (or + tail));
        lemma_stand_split(ts, ops, i, head, or + tail);
        lemma_stand_split(ts, ops, i + head.len(), or, tail);
        let j = i + head.len();
        assert(or[0].0 is Or);
        assert(ts[j + 0].1 is Or);
        lemma_clause(ts, ops, j + 1, cs.last());
        lemma_first_starts(ts, ops, j + 1, cs.last());
        lemma_clauses_mean(cs);
        lemma_or_chain(ts, ops, i, before, clause_means(cs.last()), e);
    }
}

/// A clause that is written well starts with something that can start an operand.
proof fn lemma_first_starts(
    ts: Seq<(nat, TokView)>,
    ops: Seq<Seq<Seq<char>>>,
    i: int,
    xs: Seq<Item>,
)
    requires
        xs.len() > 0,
        !xs[0].and_before,
        stand_at(ts, ops, i, clause_pieces(xs)),
    ensures
        i < ts.len(),
        ts[i].1 is Word || ts[i].1 is Phrase || ts[i].1 is Minus || ts[i].1 is LParen,
    decreases xs.len(),
{
    if xs.len() == 1 {
        let ps = item_pieces(xs[0]);
        lemma_operand_starts(xs[0].operand);
        assert(xs.drop_last() =~= Seq::empty());
        assert(clause_pieces(xs.drop_last()) =~= Seq::empty());
        assert(clause_pieces(xs) =~= ps);
        let minus: Seq<Piece> = if xs[0].negated {
            seq![(TokView::Minus, Seq::empty())]
        } else {
            Seq::empty()
        };
        assert(ps =~= minus + operand_pieces(xs[0].operand));
        assert(ps[0].0 == ts[i + 0].1);
    } else {
        let before = xs.drop_last();
        lemma_stand_split(ts, ops, i, clause_pieces(before), item_pieces(xs.last()));
        lemma_first_starts(ts, ops, i, before);
    }
}

proof fn lemma_clauses_mean(cs: Seq<Seq<Item>>)
    ensures
        clauses_mean(cs).len() == cs.len(),
        cs.len() > 0 ==> clauses_mean(cs).last() == clause_means(cs.last())
            && clauses_mean(cs).drop_last() == clauses_mean(cs.drop_last()),
    decreases cs.len(),
{
    if cs.len() > 0 {
        lemma_clauses_mean(cs.drop_last());
        assert(clauses_mean(cs).drop_last() =~= clauses_mean(cs.drop_last()));
    }
}

/// Clauses before the last one, with `OR` behind them.
proof fn lemma_or_chain(
    ts: Seq<(nat, TokView)>,
    ops: Seq<Seq<Seq<char>>>,
    i: int,
    before: Seq<Seq<Item>>,
    last: NodeView,
    e: int,
)
    requires
        query_ok(before),
        stand_at(ts, ops, i, query_pieces(before)),
        ({
            let j = i + query_pieces(before).len();
            &&& j + 1 < ts.len()
            &&& ts[j].1 is Or
            &&& ts[j + 1].1 is Word || ts[j + 1].1 is Phrase || ts[j + 1].1 is Minus || ts[j
                + 1].1 is LParen
            &&& and_at(ts, ops, j + 1, Seq::empty(), Seq::empty()) == Ok::<
                (NodeView, int),
                QueryErrorView,
            >((last, e))
            &&& j + 1 <= e
        }),
        e >= ts.len() || ts[e].1 is RParen,
    ensures
        or_at(ts, ops, i, Seq::empty()) == Ok::<(NodeView, int), QueryErrorView>(
            (NodeView::Or(clauses_mean(before).push(last)), e),
        ),
    decreases before, 1int,
{
    let j = i + query_pieces(before).len();
    let n = before.len() as int;
    lemma_or_upto(ts, ops, i, before, Seq::empty());
    lemma_clauses_mean(before);
    assert(Seq::<NodeView>::empty() + clauses_mean(before) =~= clauses_mean(before));
    let cs = clauses_mean(before);
    assert(or_at(ts, ops, i, Seq::empty()) == or_at(ts, ops, j + 1, cs));
    assert(cs.push(last).len() > 1);
}

/// Clauses that `OR` follows are gathered in order.
proof fn lemma_or_upto(
    ts: Seq<(nat, TokView)>,
    ops: Seq<Seq<Seq<char>>>,
    i: int,
    cs: Seq<Seq<Item>>,
    had: Seq<NodeView>,
)
    requires
        query_ok(cs),
        stand_at(ts, ops, i, query_pieces(cs)),
        ({
            let j = i + query_pieces(cs).len();
            &&& j + 1 < ts.len()
            &&& ts[j].1 is Or
            &&& ts[j + 1].1 is Word || ts[j + 1].1 is Phrase || ts[j + 1].1 is Minus || ts[j
                + 1].1 is LParen
        }),
    ensures
        or_at(ts, ops, i, had) == or_at(
            ts,
            ops,
            i + query_pieces(cs).len() + 1,
            had + clauses_mean(cs),
        ),
    decreases cs, 0int,
{
    let j = i + query_pieces(cs).len();
    lemma_clauses_mean(cs);
    if cs.len() == 1 {
        lemma_clause(ts, ops, i, cs.last());
        assert(had.push(clause_means(cs.last())) =~= had + clauses_mean(cs));
    } else {
        let before = cs.drop_last();
        let head = query_pieces(before);
        let or: Seq<Piece> = seq![(TokView::Or, Seq::empty())];
        let tail = clause_pieces(cs.last());
        assert(query_pieces(cs) =~= head + (or + tail));
        lemma_stand_split(ts, ops, i, head, or + tail);
        lemma_stand_split(ts, ops, i + head.len(), or, tail);
        let k = i + head.len();
        assert(or[0].0 is Or);
        assert(ts[k + 0].1 is Or);
        lemma_first_starts(ts, ops, k + 1, cs.last());
        lemma_or_upto(ts, ops, i, before, had);
        lemma_clause(ts, ops, k + 1, cs.last());
        let now = had + clauses_mean(before);
        assert(now.push(clause_means(cs.last())) =~= had + clauses_mean(cs));
    }
}

/// A clause is read as what it means, up to what ends it.
proof fn lemma_clause(ts: Seq<(nat, TokView)>, ops: Seq<Seq<Seq<char>>>, i: int, xs: Seq<Item>)
    requires
        items_ok(xs),
        operands(xs, false).len() > 0,
        stand_at(ts, ops, i, clause_pieces(xs)),
        ({
            let e = i + clause_pieces(xs).len();
            e >= ts.len() || ts[e].1 is Or || ts[e].1 is RParen
        }),
    ensures
        and_at(ts, ops, i, Seq::empty(), Seq::empty()) == Ok::<(NodeView, int), QueryErrorView>(
            (clause_means(xs), i + clause_pieces(xs).len()),
        ),
    decreases xs, 1int,
{
    lemma_clause_upto(ts, ops, i, xs);
}

/// The operands of a clause are gathered in order.
pub(crate) proof fn lemma_clause_upto(
    ts: Seq<(nat, TokView)>,
    ops: Seq<Seq<Seq<char>>>,
    i: int,
    xs: Seq<Item>,
)
    requires
        items_ok(xs),
        stand_at(ts, ops, i, clause_pieces(xs)),
    ensures
        and_at(ts, ops, i, Seq::empty(), Seq::empty()) == and_at(
            ts,
            ops,
            i + clause_pieces(xs).len(),
            operands(xs, false),
            operands(xs, true),
        ),
    decreases xs, 0int,
{
    if xs.len() > 0 {
        let before = xs.drop_last();
        let x = xs.last();
        let head = clause_pieces(before);
        let and: Seq<Piece> = if x.and_before {
            seq![(TokView::And, Seq::empty())]
        } else {
            Seq::empty()
        };
        let minus: Seq<Piece> = if x.negated {
            seq![(TokView::Minus, Seq::empty())]
        } else {
            Seq::empty()
        };
        let own = operand_pieces(x.operand);
        assert(item_pieces(x) =~= and + (minus + own));
        lemma_stand_split(ts, ops, i, head, item_pieces(x));
        let j = i + head.len();
        lemma_stand_split(ts, ops, j, and, minus + own);
        let k = j + and.len();
        lemma_stand_split(ts, ops, k, minus, own);
        let o = k + minus.len();
        lemma_clause_upto(ts, ops, i, before);
        lemma_operand_starts(x.operand);
        assert(own[0].0 == ts[o + 0].1);
        lemma_operand(ts, ops, o, x.operand);
        let (m, q) = (operands(before, false), operands(before, true));
        if x.negated {
            assert(minus[0].0 == ts[k + 0].1);
        }
        if x.and_before {
            assert(and[0].0 == ts[j + 0].1);
            assert(and_at(ts, ops, j, m, q) == and_at(ts, ops, k, m, q));
        }
        assert(and_at(ts, ops, k, m, q) == and_at(
            ts,
            ops,
            o + own.len(),
            operands(xs, false),
            operands(xs, true),
        ));
    }
}

/// A query that is written well is read as what it means, wherever its pieces stand in the
/// text.
pub proof fn lemma_reads_what_is_written(
    ts: Seq<(nat, TokView)>,
    ops: Seq<Seq<Seq<char>>>,
    cs: Seq<Seq<Item>>,
)
    requires
        query_ok(cs),
        ts.len() == query_pieces(cs).len(),
        stand_at(ts, ops, 0, query_pieces(cs)),
    ensures
        parsed_toks(ts, ops) == Ok::<NodeView, QueryErrorView>(query_means(cs)),
{
    lemma_query(ts, ops, 0, cs);
    if cs.len() > 1 {
        assert(query_pieces(cs).len() > 0);
    } else {
        lemma_first_starts(ts, ops, 0, cs.last());
    }
}

/// The node holds, where `holds` says which operands do, by their atoms.
pub open spec fn node_holds(n: NodeView, holds: spec_fn(Seq<Seq<char>>) -> bool) -> bool
    decreases n,
{
    match n {
        NodeView::Term(t) => holds(seq![t]),
        NodeView::Phrase(ts) => holds(ts),
        NodeView::And { must, must_not } => {
            &&& all_are(must, holds, true)
            &&& all_are(must_not, holds, false)
        },
        NodeView::Or(cs) => !all_are(cs, holds, false),
    }
}

/// All nodes hold, or none does.
pub open spec fn all_are(
    ns: Seq<NodeView>,
    holds: spec_fn(Seq<Seq<char>>) -> bool,
    want: bool,
) -> bool
    decreases ns,
{
    ns.len() == 0 || node_holds(ns.last(), holds) == want && all_are(ns.drop_last(), holds, want)
}

/// The operand holds.
pub open spec fn operand_holds(o: Operand, holds: spec_fn(Seq<Seq<char>>) -> bool) -> bool
    decreases o,
{
    match o {
        Operand::Word { atoms, .. } => holds(atoms),
        Operand::Quoted { atoms, .. } => holds(atoms),
        Operand::Group(cs) => query_holds(cs, holds),
    }
}

/// The operand says something.
pub open spec fn counts(o: Operand) -> bool {
    match o {
        Operand::Word { atoms, .. } => atoms.len() > 0,
        Operand::Quoted { atoms, .. } => atoms.len() > 0,
        Operand::Group(_) => true,
    }
}

/// The clause holds: every operand that is not negated does, and none that is negated.
pub open spec fn clause_holds(xs: Seq<Item>, holds: spec_fn(Seq<Seq<char>>) -> bool) -> bool
    decreases xs,
{
    xs.len() == 0 || (clause_holds(xs.drop_last(), holds) && (counts(xs.last().operand)
        ==> operand_holds(xs.last().operand, holds) == !xs.last().negated))
}

/// The query holds: one of its clauses does.
pub open spec fn query_holds(
    cs: Seq<Seq<Item>>,
    holds: spec_fn(Seq<Seq<char>>) -> bool,
) -> bool
    decreases cs,
{
    cs.len() > 0 && (clause_holds(cs.last(), holds) || query_holds(cs.drop_last(), holds))
}

proof fn lemma_operand_holds(o: Operand, holds: spec_fn(Seq<Seq<char>>) -> bool)
    ensures
        operand_means(o) is Some <==> counts(o),
        operand_means(o) matches Some(n) ==> (node_holds(n, holds) <==> operand_holds(o, holds)),
    decreases o, 0int,
{
    match o {
        Operand::Word { atoms, .. } => {
            if atoms.len() == 1 {
                assert(seq![atoms[0]] =~= atoms);
            }
        },
        Operand::Quoted { atoms, .. } => {
            if atoms.len() == 1 {
                assert(seq![atoms[0]] =~= atoms);
            }
        },
        Operand::Group(cs) => lemma_query_holds(cs, holds),
    }
}

proof fn lemma_operands_hold(xs: Seq<Item>, holds: spec_fn(Seq<Seq<char>>) -> bool)
    ensures
        all_are(operands(xs, false), holds, true) && all_are(operands(xs, true), holds, false)
            <==> clause_holds(xs, holds),
    decreases xs, 0int,
{
    if xs.len() > 0 {
        let before = xs.drop_last();
        let x = xs.last();
        lemma_operands_hold(before, holds);
        lemma_operand_holds(x.operand, holds);
        if counts(x.operand) {
            let n = operand_means(x.operand)->Some_0;
            let was = operands(before, x.negated);
            let now = operands(xs, x.negated);
            assert(now == was.push(n));
            assert(now.drop_last() =~= was);
        }
    }
}

proof fn lemma_clause_holds(xs: Seq<Item>, holds: spec_fn(Seq<Seq<char>>) -> bool)
    ensures
        node_holds(clause_means(xs), holds) <==> clause_holds(xs, holds),
    decreases xs, 1int,
{
    lemma_operands_hold(xs, holds);
    let must = operands(xs, false);
    if must.len() == 1 && operands(xs, true).len() == 0 {
        assert(must.drop_last() =~= Seq::empty());
        assert(all_are(must.drop_last(), holds, true));
        assert(must.last() == must[0]);
    }
}

proof fn lemma_query_holds(cs: Seq<Seq<Item>>, holds: spec_fn(Seq<Seq<char>>) -> bool)
    ensures
        node_holds(query_means(cs), holds) <==> query_holds(cs, holds),
    decreases cs, 1int,
{
    lemma_each_clause(cs, holds);
    let ms = clauses_mean(cs);
    if cs.len() == 1 {
        assert(ms.drop_last() =~= Seq::empty());
        assert(all_are(ms.drop_last(), holds, false));
        assert(ms.last() == ms[0]);
    }
}

proof fn lemma_each_clause(cs: Seq<Seq<Item>>, holds: spec_fn(Seq<Seq<char>>) -> bool)
    ensures
        clauses_mean(cs).len() == cs.len(),
        !all_are(clauses_mean(cs), holds, false) <==> query_holds(cs, holds),
    decreases cs, 0int,
{
    if cs.len() > 0 {
        lemma_each_clause(cs.drop_last(), holds);
        lemma_clause_holds(cs.last(), holds);
        lemma_clauses_mean(cs);
    }
}

/// A query that is written well asks for what it says: whatever the operands match, what is
/// read holds exactly where one of its clauses does, and a clause where every operand in it
/// does that is not negated and none that is, in any order, with or without `AND`.
pub proof fn lemma_query_asks_what_it_says(
    ts: Seq<(nat, TokView)>,
    ops: Seq<Seq<Seq<char>>>,
    cs: Seq<Seq<Item>>,
    holds: spec_fn(Seq<Seq<char>>) -> bool,
)
    requires
        query_ok(cs),
        ts.len() == query_pieces(cs).len(),
        stand_at(ts, ops, 0, query_pieces(cs)),
    ensures
        parsed_toks(ts, ops) matches Ok(n) && (node_holds(n, holds) <==> query_holds(cs, holds)),
{
    lemma_reads_what_is_written(ts, ops, cs);
    lemma_query_holds(cs, holds);
}

} // verus!
