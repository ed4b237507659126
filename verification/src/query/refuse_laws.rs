//! What is read as a query was written as one, and what other texts are refused with.

use vstd::prelude::*;

use super::parse_laws::{
    clause_means, clause_pieces, clauses_mean, item_pieces, items_ok, lemma_clause_upto,
    lemma_query, lemma_query_asks_what_it_says, lemma_reads_what_is_written, node_holds, operand_ok,
    operand_means, operand_pieces, operands, query_holds, query_means, query_ok, query_pieces,
    stand_at, Item, Operand, Piece,
};
use super::parser::{
    and_at, atom_at, atom_terms_of, described, lexed, operand_terms, or_at, parsed, NodeView, TokView,
};
use crate::error::QueryErrorView;
use crate::token_laws::in_lower_case;
use crate::tokenizer::{text_atoms, text_tokens, tokens_of, Atom};

verus! {

proof fn lemma_stand_join(
    ts: Seq<(nat, TokView)>,
    ops: Seq<Seq<Seq<char>>>,
    i: int,
    a: Seq<Piece>,
    b: Seq<Piece>,
)
    requires
        stand_at(ts, ops, i, a),
        stand_at(ts, ops, i + a.len(), b),
    ensures
        stand_at(ts, ops, i, a + b),
{
    let all = a + b;
    assert forall|k: int| #![trigger all[k]] 0 <= k < all.len() implies ts[i + k].1 == all[k].0 && ((
    all[k].0 is Word || all[k].0 is Phrase) ==> ops[i + k] == all[k].1) by {
        if k < a.len() {
            assert(all[k] == a[k]);
        } else {
            assert(all[k] == b[k - a.len()]);
            let m = k - a.len();
            assert(ts[i + a.len() + m].1 == b[m].0);
        }
    }
}

proof fn lemma_stand_one(ts: Seq<(nat, TokView)>, ops: Seq<Seq<Seq<char>>>, i: int, p: Piece)
    requires
        0 <= i < ts.len(),
        ops.len() == ts.len(),
        ts[i].1 == p.0,
        p.0 is Word || p.0 is Phrase ==> ops[i] == p.1,
    ensures
        stand_at(ts, ops, i, seq![p]),
{
    let ps = seq![p];
    assert forall|k: int| #![trigger ps[k]] 0 <= k < ps.len() implies ts[i + k].1 == ps[k].0 && ((
    ps[k].0 is Word || ps[k].0 is Phrase) ==> ops[i + k] == ps[k].1) by {
        assert(k == 0);
    }
}

/// One more clause in front.
proof fn lemma_clause_before(xs: Seq<Item>, cs: Seq<Seq<Item>>)
    requires
        query_ok(cs),
        items_ok(xs),
        xs.len() > 0,
        operands(xs, false).len() > 0,
        !xs[0].and_before,
    ensures
        query_ok(seq![xs] + cs),
        query_pieces(seq![xs] + cs) == clause_pieces(xs).push((TokView::Or, Seq::empty()))
            + query_pieces(cs),
        clauses_mean(seq![xs] + cs) == seq![clause_means(xs)] + clauses_mean(cs),
        clauses_mean(cs).len() == cs.len(),
    decreases cs.len(),
{
    let all = seq![xs] + cs;
    assert(all.last() == cs.last());
    assert(all.drop_last() =~= seq![xs] + cs.drop_last());
    if cs.len() == 1 {
        assert(cs.drop_last() =~= Seq::empty());
        assert(all.drop_last() =~= seq![xs]);
        lemma_one_clause(xs);
        lemma_one_clause(cs.last());
        assert(cs =~= seq![cs.last()]);
        assert(clauses_mean(all) =~= seq![clause_means(xs)] + clauses_mean(cs));
    } else {
        lemma_clause_before(xs, cs.drop_last());
        assert(query_pieces(all) =~= clause_pieces(xs).push((TokView::Or, Seq::empty()))
            + query_pieces(cs));
        assert(clauses_mean(all) =~= seq![clause_means(xs)] + clauses_mean(cs));
    }
}

proof fn lemma_one_clause(xs: Seq<Item>)
    requires
        items_ok(xs),
        xs.len() > 0,
        operands(xs, false).len() > 0,
        !xs[0].and_before,
    ensures
        query_ok(seq![xs]),
        query_pieces(seq![xs]) == clause_pieces(xs),
        clauses_mean(seq![xs]) == seq![clause_means(xs)],
{
    let one = seq![xs];
    assert(one.last() == xs);
    assert(one.drop_last() =~= Seq::empty());
    assert(clauses_mean(one.drop_last()) =~= Seq::empty());
    assert(clauses_mean(one) == clauses_mean(one.drop_last()).push(clause_means(one.last())));
    assert(clauses_mean(one) =~= seq![clause_means(xs)]);
}

proof fn lemma_first_bare(xs: Seq<Item>)
    requires
        items_ok(xs),
        xs.len() > 0,
    ensures
        !xs[0].and_before,
    decreases xs.len(),
{
    if xs.len() == 1 {
        assert(xs.drop_last() =~= Seq::empty());
    } else {
        lemma_first_bare(xs.drop_last());
    }
}

/// Clauses, one or several.
pub open spec fn any_of(ns: Seq<NodeView>) -> NodeView {
    if ns.len() == 1 {
        ns[0]
    } else {
        NodeView::Or(ns)
    }
}

proof fn lemma_written_clauses(
    ts: Seq<(nat, TokView)>,
    ops: Seq<Seq<Seq<char>>>,
    i: int,
    children: Seq<NodeView>,
) -> (cs: Seq<Seq<Item>>)
    requires
        0 <= i <= ts.len(),
        ops.len() == ts.len(),
        or_at(ts, ops, i, children) is Ok,
    ensures
        ({
            let (n, j) = or_at(ts, ops, i, children)->Ok_0;
            &&& query_ok(cs)
            &&& stand_at(ts, ops, i, query_pieces(cs))
            &&& j == i + query_pieces(cs).len()
            &&& n == any_of(children + clauses_mean(cs))
        }),
    decreases ts.len() - i, 3int,
{
    let xs = lemma_written_items(ts, ops, i, i, Seq::empty());
    let (n, j) = and_at(ts, ops, i, Seq::empty(), Seq::empty())->Ok_0;
    lemma_first_bare(xs);
    lemma_one_clause(xs);
    if i <= j < ts.len() && ts[j].1 is Or {
        let rest = lemma_written_clauses(ts, ops, j + 1, children.push(n));
        let cs = seq![xs] + rest;
        lemma_clause_before(xs, rest);
        lemma_stand_one(ts, ops, j, (TokView::Or, Seq::empty()));
        let or: Seq<Piece> = seq![(TokView::Or, Seq::empty())];
        lemma_stand_join(ts, ops, i, clause_pieces(xs), or);
        assert(clause_pieces(xs) + or =~= clause_pieces(xs).push((TokView::Or, Seq::empty())));
        lemma_stand_join(
            ts,
            ops,
            i,
            clause_pieces(xs).push((TokView::Or, Seq::empty())),
            query_pieces(rest),
        );
        assert(children.push(n) + clauses_mean(rest) =~= children + clauses_mean(cs));
        cs
    } else {
        assert(children.push(n) =~= children + clauses_mean(seq![xs]));
        seq![xs]
    }
}

/// The operands from `i` on, behind those that were read from `from` on.
proof fn lemma_written_items(
    ts: Seq<(nat, TokView)>,
    ops: Seq<Seq<Seq<char>>>,
    from: int,
    i: int,
    had: Seq<Item>,
) -> (xs: Seq<Item>)
    requires
        0 <= from <= i <= ts.len(),
        ops.len() == ts.len(),
        items_ok(had),
        stand_at(ts, ops, from, clause_pieces(had)),
        i == from + clause_pieces(had).len(),
        and_at(ts, ops, i, operands(had, false), operands(had, true)) is Ok,
    ensures
        ({
            let (n, j) = and_at(ts, ops, i, operands(had, false), operands(had, true))->Ok_0;
            &&& items_ok(xs)
            &&& xs.len() > 0
            &&& operands(xs, false).len() > 0
            &&& stand_at(ts, ops, from, clause_pieces(xs))
            &&& j == from + clause_pieces(xs).len()
            &&& n == clause_means(xs)
        }),
    decreases ts.len() - i, 2int,
{
    if i >= ts.len() || ts[i].1 is Or || ts[i].1 is RParen {
        if had.len() == 0 {
            assert(operands(had, false) =~= Seq::empty());
        }
        had
    } else if ts[i].1 is And {
        lemma_written_operand(ts, ops, from, i + 1, had, true)
    } else {
        lemma_written_operand(ts, ops, from, i, had, false)
    }
}

/// The operand at `i` and those behind it.
proof fn lemma_written_operand(
    ts: Seq<(nat, TokView)>,
    ops: Seq<Seq<Seq<char>>>,
    from: int,
    i: int,
    had: Seq<Item>,
    and_before: bool,
) -> (xs: Seq<Item>)
    requires
        0 <= from <= i < ts.len(),
        ops.len() == ts.len(),
        items_ok(had),
        stand_at(ts, ops, from, clause_pieces(had)),
        i == from + clause_pieces(had).len() + if and_before {
            1int
        } else {
            0
        },
        and_before ==> ts[i - 1].1 is And && operands(had, false).len() + operands(had, true).len()
            > 0,
        !(ts[i].1 is And || ts[i].1 is Or || ts[i].1 is RParen),
        and_at(ts, ops, i, operands(had, false), operands(had, true)) is Ok,
    ensures
        ({
            let (n, j) = and_at(ts, ops, i, operands(had, false), operands(had, true))->Ok_0;
            &&& items_ok(xs)
            &&& xs.len() > 0
            &&& operands(xs, false).len() > 0
            &&& stand_at(ts, ops, from, clause_pieces(xs))
            &&& j == from + clause_pieces(xs).len()
            &&& n == clause_means(xs)
        }),
    decreases ts.len() - i, 1int,
{
    let negated = ts[i].1 is Minus;
    let k = if negated {
        i + 1
    } else {
        i
    };
    let o = lemma_written_atom(ts, ops, k);
    let j = atom_at(ts, ops, k)->Ok_0.1;
    let x = Item { and_before, negated, operand: o };
    let now = had.push(x);
    assert(now.drop_last() =~= had);
    let and: Seq<Piece> = if and_before {
        seq![(TokView::And, Seq::empty())]
    } else {
        Seq::empty()
    };
    let minus: Seq<Piece> = if negated {
        seq![(TokView::Minus, Seq::empty())]
    } else {
        Seq::empty()
    };
    let at = from + clause_pieces(had).len();
    if and_before {
        lemma_stand_one(ts, ops, at, (TokView::And, Seq::empty()));
    }
    if negated {
        lemma_stand_one(ts, ops, i, (TokView::Minus, Seq::empty()));
    }
    lemma_stand_join(ts, ops, at, and, minus);
    lemma_stand_join(ts, ops, at, and + minus, operand_pieces(o));
    assert(item_pieces(x) == and + minus + operand_pieces(o));
    lemma_stand_join(ts, ops, from, clause_pieces(had), item_pieces(x));
    assert(clause_pieces(now) == clause_pieces(had) + item_pieces(x));
    lemma_written_items(ts, ops, from, j, now)
}

proof fn lemma_written_atom(ts: Seq<(nat, TokView)>, ops: Seq<Seq<Seq<char>>>, i: int) -> (o:
    Operand)
    requires
        0 <= i <= ts.len(),
        ops.len() == ts.len(),
        atom_at(ts, ops, i) is Ok,
    ensures
        ({
            let (n, j) = atom_at(ts, ops, i)->Ok_0;
            &&& operand_ok(o)
            &&& stand_at(ts, ops, i, operand_pieces(o))
            &&& j == i + operand_pieces(o).len()
            &&& i < j <= ts.len()
            &&& n == operand_means(o)
        }),
    decreases ts.len() - i, 0int,
{
    match ts[i].1 {
        TokView::LParen => {
            let cs = lemma_written_clauses(ts, ops, i + 1, Seq::empty());
            let (n, j) = or_at(ts, ops, i + 1, Seq::empty())->Ok_0;
            let open: Seq<Piece> = seq![(TokView::LParen, Seq::empty())];
            let close: Seq<Piece> = seq![(TokView::RParen, Seq::empty())];
            lemma_stand_one(ts, ops, i, (TokView::LParen, Seq::empty()));
            lemma_stand_one(ts, ops, j, (TokView::RParen, Seq::empty()));
            lemma_stand_join(ts, ops, i + 1, query_pieces(cs), close);
            assert(query_pieces(cs) + close =~= query_pieces(cs).push(
                (TokView::RParen, Seq::empty()),
            ));
            lemma_stand_join(
                ts,
                ops,
                i,
                open,
                query_pieces(cs).push((TokView::RParen, Seq::empty())),
            );
            assert(Seq::<NodeView>::empty() + clauses_mean(cs) =~= clauses_mean(cs));
            lemma_means(cs);
            Operand::Group(cs)
        },
        TokView::Word(w) => {
            lemma_stand_one(ts, ops, i, (TokView::Word(w), ops[i]));
            Operand::Word { text: w, atoms: ops[i] }
        },
        TokView::Phrase(w) => {
            lemma_stand_one(ts, ops, i, (TokView::Phrase(w), ops[i]));
            Operand::Quoted { text: w, atoms: ops[i] }
        },
        _ => { Operand::Group(Seq::empty()) },
    }
}

proof fn lemma_means(cs: Seq<Seq<Item>>)
    requires
        query_ok(cs),
    ensures
        any_of(clauses_mean(cs)) == query_means(cs),
        clauses_mean(cs).len() == cs.len(),
    decreases cs.len(),
{
    if cs.len() > 1 {
        lemma_means(cs.drop_last());
    } else {
        assert(cs.drop_last() =~= Seq::empty());
        assert(clauses_mean(cs.drop_last()).len() == 0);
    }
}

/// The pieces of the text are those of the clauses.
pub open spec fn written(input: Seq<char>, cs: Seq<Seq<Item>>) -> bool {
    &&& lexed(input, 0) is Ok
    &&& ({
        let ts = lexed(input, 0)->Ok_0;
        ts.len() == query_pieces(cs).len() && stand_at(ts, operand_terms(ts), 0, query_pieces(cs))
    })
}

/// A text is read as a query exactly where clauses are written in it that are written well,
/// and then as what these mean.
pub proof fn lemma_read_is_written(input: Seq<char>)
    ensures
        forall|cs: Seq<Seq<Item>>|
            query_ok(cs) && #[trigger] written(input, cs) ==> parsed(input) == Ok::<
                NodeView,
                QueryErrorView,
            >(query_means(cs)),
        parsed(input) matches Ok(n) ==> exists|cs: Seq<Seq<Item>>|
            query_ok(cs) && #[trigger] written(input, cs) && n == query_means(cs),
{
    assert forall|cs: Seq<Seq<Item>>| query_ok(cs) && #[trigger] written(input, cs) implies parsed(
        input,
    ) == Ok::<NodeView, QueryErrorView>(query_means(cs)) by {
        let ts = lexed(input, 0)->Ok_0;
        lemma_reads_what_is_written(ts, operand_terms(ts), cs);
    }
    if parsed(input) is Ok {
        let ts = lexed(input, 0)->Ok_0;
        let ops = operand_terms(ts);
        let cs = lemma_written_clauses(ts, ops, 0, Seq::empty());
        assert(Seq::<NodeView>::empty() + clauses_mean(cs) =~= clauses_mean(cs));
        lemma_means(cs);
        assert(written(input, cs));
    }
}

/// A query holds of whatever its clauses say: of what each positive operand of some clause
/// holds, and none of its negated ones.
pub proof fn lemma_text_asks_what_it_says(
    input: Seq<char>,
    cs: Seq<Seq<Item>>,
    holds: spec_fn(Seq<Seq<char>>) -> bool,
)
    requires
        query_ok(cs),
        written(input, cs),
    ensures
        parsed(input) matches Ok(n) && (node_holds(n, holds) <==> query_holds(cs, holds)),
{
    let ts = lexed(input, 0)->Ok_0;
    lemma_query_asks_what_it_says(ts, operand_terms(ts), cs, holds);
}

proof fn lemma_one_token_each(atoms: Seq<Atom>, n: int)
    requires
        0 <= n <= atoms.len(),
    ensures
        tokens_of(atoms, n, false).len() == n,
        forall|i: int|
            0 <= i < n ==> (#[trigger] tokens_of(atoms, n, false)[i]).term == in_lower_case(
                atoms[i].text,
            ),
    decreases n,
{
    if n > 0 {
        lemma_one_token_each(atoms, n - 1);
        let now = tokens_of(atoms, n, false);
        let before = tokens_of(atoms, n - 1, false);
        assert forall|i: int| 0 <= i < n implies (#[trigger] now[i]).term == in_lower_case(
            atoms[i].text,
        ) by {
            if i < n - 1 {
                assert(now[i] == before[i]);
            }
        }
    }
}

/// The terms of a word or a phrase in a query are its atoms, all of them in order, in lower
/// case.
pub proof fn lemma_terms_of_operand(text: Seq<char>)
    ensures
        atom_terms_of(text).len() == text_atoms(text).len(),
        forall|i: int|
            0 <= i < text_atoms(text).len() ==> (#[trigger] atom_terms_of(text)[i])
                == in_lower_case(text_atoms(text)[i].text),
{
    lemma_one_token_each(text_atoms(text), text_atoms(text).len() as int);
    let ts = text_tokens(text, false);
    assert forall|i: int| 0 <= i < text_atoms(text).len() implies (#[trigger] atom_terms_of(
        text,
    )[i]) == in_lower_case(text_atoms(text)[i].text) by {
        assert(atom_terms_of(text)[i] == ts[i].term);
    }
}

/// A text without a piece is refused as empty; one that starts with what cannot start an
/// operand, with that.
pub proof fn lemma_refuses_bad_starts(input: Seq<char>)
    requires
        lexed(input, 0) is Ok,
    ensures
        ({
            let ts = lexed(input, 0)->Ok_0;
            &&& ts.len() == 0 ==> parsed(input) == Err::<NodeView, _>(QueryErrorView::Empty)
            &&& ts.len() > 0 && ts[0].1 is And ==> parsed(input) == Err::<NodeView, _>(
                QueryErrorView::Unexpected { found: seq!['A', 'N', 'D'], at: ts[0].0 },
            )
            &&& ts.len() > 0 && ts[0].1 is Or ==> parsed(input) == Err::<NodeView, _>(
                QueryErrorView::Unexpected { found: seq!['O', 'R'], at: ts[0].0 },
            )
            &&& ts.len() > 0 && ts[0].1 is RParen ==> parsed(input) == Err::<NodeView, _>(
                QueryErrorView::Unexpected { found: seq![')'], at: ts[0].0 },
            )
        }),
{
    reveal_strlit("AND");
    reveal_strlit("OR");
    reveal_strlit(")");
    assert("AND"@ =~= seq!['A', 'N', 'D']);
    assert("OR"@ =~= seq!['O', 'R']);
    assert(")"@ =~= seq![')']);
    let ts = lexed(input, 0)->Ok_0;
    let ops = operand_terms(ts);
    if ts.len() > 0 && (ts[0].1 is And || ts[0].1 is Or || ts[0].1 is RParen) {
        assert(!(Seq::<NodeView>::empty().len() > 0));
        assert(and_at(ts, ops, 0, Seq::empty(), Seq::empty()) == Err::<(NodeView, int), _>(
            QueryErrorView::Unexpected { found: described(ts[0].1), at: ts[0].0 },
        ));
        assert(or_at(ts, ops, 0, Seq::empty()) == Err::<(NodeView, int), _>(
            QueryErrorView::Unexpected { found: described(ts[0].1), at: ts[0].0 },
        ));
    }
}

/// Operands that are all negated are refused as such.
pub proof fn lemma_refuses_only_negation(input: Seq<char>, xs: Seq<Item>)
    requires
        items_ok(xs),
        operands(xs, false).len() == 0,
        operands(xs, true).len() > 0,
        lexed(input, 0) is Ok,
        ({
            let ts = lexed(input, 0)->Ok_0;
            ts.len() == clause_pieces(xs).len() && stand_at(
                ts,
                operand_terms(ts),
                0,
                clause_pieces(xs),
            )
        }),
    ensures
        parsed(input) == Err::<NodeView, _>(QueryErrorView::OnlyNegation),
{
    let ts = lexed(input, 0)->Ok_0;
    lemma_clause_upto(ts, operand_terms(ts), 0, xs);
    if ts.len() == 0 {
        if xs.len() > 0 {
            assert(item_pieces(xs.last()).len() > 0);
        }
        assert(xs.len() == 0);
    }
}

/// A parenthesis that is not closed, or closes nothing, is refused with its place.
pub proof fn lemma_refuses_lone_parentheses(input: Seq<char>, cs: Seq<Seq<Item>>)
    requires
        query_ok(cs),
        lexed(input, 0) is Ok,
    ensures
        ({
            let ts = lexed(input, 0)->Ok_0;
            let n = query_pieces(cs).len();
            &&& ts.len() == n + 1 && ts[0].1 is LParen && stand_at(
                ts,
                operand_terms(ts),
                1,
                query_pieces(cs),
            ) ==> parsed(input) == Err::<NodeView, _>(
                QueryErrorView::UnbalancedParen { at: ts[0].0 },
            )
            &&& ts.len() > n && ts[n as int].1 is RParen && stand_at(
                ts,
                operand_terms(ts),
                0,
                query_pieces(cs),
            ) ==> parsed(input) == Err::<NodeView, _>(
                QueryErrorView::UnbalancedParen { at: ts[n as int].0 },
            )
        }),
{
    let ts = lexed(input, 0)->Ok_0;
    let ops = operand_terms(ts);
    let n = query_pieces(cs).len();
    if ts.len() == n + 1 && ts[0].1 is LParen && stand_at(ts, ops, 1, query_pieces(cs)) {
        lemma_query(ts, ops, 1, cs);
        assert(atom_at(ts, ops, 0) == Err::<(Option<NodeView>, int), _>(
            QueryErrorView::UnbalancedParen { at: ts[0].0 },
        ));
        assert(and_at(ts, ops, 0, Seq::empty(), Seq::empty()) is Err);
    }
    if ts.len() > n && ts[n as int].1 is RParen && stand_at(ts, ops, 0, query_pieces(cs)) {
        lemma_query(ts, ops, 0, cs);
    }
}

} // verus!
