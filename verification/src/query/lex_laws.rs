//! The pieces of a query are those written in it: how they follow from the parts of a text.

use vstd::prelude::*;

use super::parser::{
    after_tok, ends_word, lemma_quote_at, lemma_word_end, lexed, quote_at, tok_at, word_end,
    TokView,
};
use crate::error::QueryErrorView;
use crate::text::{byte_len, lemma_encode_concat, whitespace};

verus! {

/// What reading the pieces of a text gives.
pub type Lexed = Result<Seq<(nat, TokView)>, QueryErrorView>;

/// The pieces, and behind them others that are `by` bytes further on than they say.
pub open spec fn and_then_at(ts: Seq<(nat, TokView)>, rest: Lexed, by: nat) -> Lexed {
    match rest {
        Ok(more) => Ok(
            ts + Seq::new(more.len(), |i: int| ((more[i].0 + by) as nat, more[i].1)),
        ),
        Err(QueryErrorView::UnterminatedPhrase { at }) => Err(
            QueryErrorView::UnterminatedPhrase { at: at + by },
        ),
        Err(e) => Err(e),
    }
}

proof fn lemma_quote_shift(x: Seq<char>, b: Seq<char>, i: int)
    requires
        0 <= i <= b.len(),
    ensures
        quote_at(x + b, x.len() + i) == x.len() + quote_at(b, i),
    decreases b.len() - i,
{
    let s = x + b;
    if i < b.len() {
        assert(s[x.len() + i] == b[i]);
        if b[i] != '"' {
            lemma_quote_shift(x, b, i + 1);
        }
    }
}

proof fn lemma_word_shift(x: Seq<char>, b: Seq<char>, i: int)
    requires
        0 <= i <= b.len(),
    ensures
        word_end(x + b, x.len() + i) == x.len() + word_end(b, i),
    decreases b.len() - i,
{
    let s = x + b;
    if i < b.len() {
        assert(s[x.len() + i] == b[i]);
        if !ends_word(b[i]) {
            lemma_word_shift(x, b, i + 1);
        }
    }
}

/// The pieces of the end of a text are those of that end alone.
proof fn lemma_shift(x: Seq<char>, b: Seq<char>, i: int)
    requires
        0 <= i,
    ensures
        lexed(x + b, x.len() + i) == and_then_at(Seq::empty(), lexed(b, i), byte_len(x)),
    decreases b.len() - i,
{
    let s = x + b;
    let j = x.len() + i;
    if i < b.len() {
        assert(s[j] == b[i]);
        lemma_quote_at(b, i + 1);
        lemma_word_end(b, i);
        lemma_quote_at(s, j + 1);
        lemma_word_end(s, j);
        lemma_quote_shift(x, b, i + 1);
        lemma_word_shift(x, b, i);
        assert(s.take(j) =~= x + b.take(i));
        lemma_encode_concat(x, b.take(i));
        let at = byte_len(b.take(i));
        if !(b[i] == '"' && !whitespace(b[i]) && quote_at(b, i + 1) >= b.len()) {
            let n = after_tok(b, i);
            assert(after_tok(s, j) == x.len() + n);
            lemma_shift(x, b, n);
            assert(tok_at(s, j) == tok_at(b, i)) by {
                if i + 1 < b.len() {
                    assert(s[j + 1] == b[i + 1]);
                }
                assert(s.subrange(j + 1, quote_at(s, j + 1)) =~= b.subrange(
                    i + 1,
                    quote_at(b, i + 1),
                ));
                assert(s.subrange(j, word_end(s, j)) =~= b.subrange(i, word_end(b, i)));
            }
            match (tok_at(b, i), lexed(b, n)) {
                (Some(t), Ok(more)) => {
                    let all = seq![(at, t)] + more;
                    let by = byte_len(x);
                    let moved = Seq::new(more.len(), |k: int| ((more[k].0 + by) as nat, more[k].1));
                    let moved_all = Seq::new(
                        all.len(),
                        |k: int| ((all[k].0 + by) as nat, all[k].1),
                    );
                    assert(Seq::<(nat, TokView)>::empty() + moved =~= moved);
                    assert(Seq::<(nat, TokView)>::empty() + moved_all =~= seq![((at + by) as nat, t)]
                        + moved);
                },
                _ => {},
            }
        }
    } else {
        assert(Seq::<(nat, TokView)>::empty() + Seq::new(
            0,
            |k: int| ((lexed(b, i)->Ok_0[k].0 + byte_len(x)) as nat, lexed(b, i)->Ok_0[k].1),
        ) =~= Seq::empty());
    }
}

proof fn lemma_quote_prefix(a: Seq<char>, s: Seq<char>, i: int)
    requires
        0 <= i <= a.len() <= s.len(),
        s.take(a.len() as int) == a,
        quote_at(a, i) < a.len(),
    ensures
        quote_at(s, i) == quote_at(a, i),
    decreases a.len() - i,
{
    if i < a.len() {
        assert(s[i] == s.take(a.len() as int)[i]);
        if a[i] != '"' {
            lemma_quote_prefix(a, s, i + 1);
        }
    }
}

proof fn lemma_word_prefix(a: Seq<char>, s: Seq<char>, i: int)
    requires
        0 <= i <= a.len() < s.len(),
        s.take(a.len() as int) == a,
        ends_word(s[a.len() as int]),
    ensures
        word_end(s, i) == word_end(a, i),
    decreases a.len() - i,
{
    if i < a.len() {
        assert(s[i] == s.take(a.len() as int)[i]);
        if !ends_word(a[i]) {
            lemma_word_prefix(a, s, i + 1);
        }
    }
}

/// The pieces of the front of a text, where something that ends a word follows it.
proof fn lemma_front(a: Seq<char>, s: Seq<char>, i: int)
    requires
        0 <= i <= a.len() < s.len(),
        s.take(a.len() as int) == a,
        ends_word(s[a.len() as int]),
        whitespace(s[a.len() as int]) || a.len() == 0 || a.last() != '-',
        lexed(a, i) is Ok,
    ensures
        lexed(s, i) == and_then_at(lexed(a, i)->Ok_0, lexed(s, a.len() as int), 0),
    decreases a.len() - i,
{
    let n = a.len() as int;
    if i < n {
        assert(s[i] == s.take(n)[i]);
        lemma_quote_at(a, i + 1);
        lemma_word_end(a, i);
        lemma_quote_at(s, i + 1);
        lemma_word_end(s, i);
        lemma_word_prefix(a, s, i);
        if quote_at(a, i + 1) < n {
            lemma_quote_prefix(a, s, i + 1);
        }
        assert(s.take(i) =~= a.take(i));
        let x = after_tok(a, i);
        assert(after_tok(s, i) == x);
        assert(tok_at(s, i) == tok_at(a, i)) by {
            if i + 1 < n {
                assert(s[i + 1] == s.take(n)[i + 1]);
            } else {
                assert(a.last() == a[i]);
            }
            assert(s.subrange(i, word_end(s, i)) =~= a.subrange(i, word_end(a, i)));
            if quote_at(a, i + 1) < n {
                assert(s.subrange(i + 1, quote_at(s, i + 1)) =~= a.subrange(
                    i + 1,
                    quote_at(a, i + 1),
                ));
            }
        }
        lemma_front(a, s, x);
        match (tok_at(a, i), lexed(a, x), lexed(s, n)) {
            (Some(t), Ok(more), Ok(rest)) => {
                let at = byte_len(a.take(i));
                let moved = Seq::new(rest.len(), |k: int| ((rest[k].0 + 0) as nat, rest[k].1));
                assert(seq![(at, t)] + (more + moved) =~= (seq![(at, t)] + more) + moved);
            },
            _ => {},
        }
    } else {
        match lexed(s, n) {
            Ok(rest) => {
                let moved = Seq::new(rest.len(), |k: int| ((rest[k].0 + 0) as nat, rest[k].1));
                assert(Seq::<(nat, TokView)>::empty() + moved =~= rest);
            },
            Err(_) => {},
        }
    }
}

/// Space parts a query: its pieces are those before the space and those behind it.
pub proof fn lemma_space_parts(a: Seq<char>, c: char, b: Seq<char>)
    requires
        lexed(a, 0) is Ok,
        whitespace(c),
    ensures
        lexed(a.push(c) + b, 0) == and_then_at(
            lexed(a, 0)->Ok_0,
            lexed(b, 0),
            byte_len(a.push(c)),
        ),
{
    let s = a.push(c) + b;
    let n = a.len() as int;
    assert(s.take(n) =~= a);
    assert(s[n] == c);
    lemma_front(a, s, 0);
    lemma_shift(a.push(c), b, 0);
    assert(lexed(s, n) == lexed(s, n + 1));
    lemma_twice(lexed(a, 0)->Ok_0, lexed(b, 0), byte_len(a.push(c)));
}

proof fn lemma_twice(ts: Seq<(nat, TokView)>, rest: Lexed, by: nat)
    ensures
        and_then_at(ts, and_then_at(Seq::empty(), rest, by), 0) == and_then_at(ts, rest, by),
        and_then_at(Seq::empty(), and_then_at(ts, rest, by), 0) == and_then_at(ts, rest, by),
{
    match rest {
        Ok(more) => {
            let moved = Seq::new(more.len(), |i: int| ((more[i].0 + by) as nat, more[i].1));
            let e = Seq::<(nat, TokView)>::empty() + moved;
            assert(Seq::new(e.len(), |i: int| ((e[i].0 + 0) as nat, e[i].1)) =~= moved);
            let f = ts + moved;
            assert(Seq::<(nat, TokView)>::empty() + Seq::new(
                f.len(),
                |i: int| ((f[i].0 + 0) as nat, f[i].1),
            ) =~= f);
        },
        Err(_) => {},
    }
}

proof fn lemma_all_word(w: Seq<char>, i: int)
    requires
        0 <= i <= w.len(),
        forall|k: int|
            0 <= k < w.len() ==> !whitespace(#[trigger] w[k]) && w[k] != '(' && w[k] != ')' && w[k]
                != '"',
    ensures
        word_end(w, i) == w.len(),
    decreases w.len() - i,
{
    if i < w.len() {
        lemma_all_word(w, i + 1);
    }
}

/// A word without space, parentheses and quotation marks that does not begin with a minus is
/// one piece: a keyword where it is `AND` or `OR`, else an operand, whole.
pub proof fn lemma_word_is_one_piece(w: Seq<char>)
    requires
        w.len() > 0,
        w[0] != '-',
        forall|k: int|
            0 <= k < w.len() ==> !whitespace(#[trigger] w[k]) && w[k] != '(' && w[k] != ')' && w[k]
                != '"',
    ensures
        lexed(w, 0) matches Ok(ts) && ts.len() == 1 && ts[0] == (
            0nat,
            if w == seq!['A', 'N', 'D'] {
                TokView::And
            } else if w == seq!['O', 'R'] {
                TokView::Or
            } else {
                TokView::Word(w)
            },
        ),
{
    reveal_strlit("AND");
    reveal_strlit("OR");
    assert("AND"@ =~= seq!['A', 'N', 'D']);
    assert("OR"@ =~= seq!['O', 'R']);
    lemma_all_word(w, 0);
    lemma_word_end(w, 0);
    assert(w.subrange(0, w.len() as int) =~= w);
    lemma_no_bytes(w);
    assert(lexed(w, w.len() as int) == Ok::<_, QueryErrorView>(Seq::<(nat, TokView)>::empty()));
}

proof fn lemma_no_bytes(s: Seq<char>)
    ensures
        byte_len(s.take(0)) == 0,
{
    assert(s.take(0) =~= Seq::empty());
    crate::text::lemma_byte_len(s.take(0));
}

/// A parenthesis is a piece of its own: the others are those of the text behind it.
pub proof fn lemma_parenthesis_opens(x: Seq<char>)
    ensures
        lexed(seq!['('] + x, 0) == and_then_at(
            seq![(0nat, TokView::LParen)],
            lexed(x, 0),
            byte_len(seq!['(']),
        ),
{
    let s = seq!['('] + x;
    lemma_shift(seq!['('], x, 0);
    lemma_no_bytes(s);
    lemma_not_white();
    lemma_put_before((0nat, TokView::LParen), lexed(x, 0), byte_len(seq!['(']));
}

proof fn lemma_not_white()
    ensures
        !whitespace('('),
        !whitespace(')'),
        !whitespace('-'),
        !whitespace('"'),
{
    assert('(' as u32 == 0x28);
    assert(')' as u32 == 0x29);
    assert('-' as u32 == 0x2d);
    assert('"' as u32 == 0x22);
}

proof fn lemma_put_before(t: (nat, TokView), rest: Lexed, by: nat)
    ensures
        super::parser::followed(t, and_then_at(Seq::empty(), rest, by)) == and_then_at(
            seq![t],
            rest,
            by,
        ),
{
    match rest {
        Ok(more) => {
            let moved = Seq::new(more.len(), |i: int| ((more[i].0 + by) as nat, more[i].1));
            assert(Seq::<(nat, TokView)>::empty() + moved =~= moved);
        },
        Err(_) => {},
    }
}

/// A closing parenthesis ends what stands before it, and is a piece of its own.
pub proof fn lemma_parenthesis_closes(a: Seq<char>, x: Seq<char>)
    requires
        lexed(a, 0) is Ok,
        a.len() == 0 || a.last() != '-',
    ensures
        lexed(a.push(')') + x, 0) == and_then_at(
            lexed(a, 0)->Ok_0.push((byte_len(a), TokView::RParen)),
            lexed(x, 0),
            byte_len(a.push(')')),
        ),
{
    let s = a.push(')') + x;
    let n = a.len() as int;
    let ts = lexed(a, 0)->Ok_0;
    let by = byte_len(a.push(')'));
    assert(s.take(n) =~= a);
    lemma_not_white();
    lemma_front(a, s, 0);
    lemma_shift(a.push(')'), x, 0);
    let t = (byte_len(a), TokView::RParen);
    lemma_put_before(t, lexed(x, 0), by);
    assert(lexed(s, n) == and_then_at(seq![t], lexed(x, 0), by));
    match lexed(x, 0) {
        Ok(more) => {
            let moved = Seq::new(more.len(), |i: int| ((more[i].0 + by) as nat, more[i].1));
            let e = seq![t] + moved;
            assert(ts + Seq::new(e.len(), |i: int| ((e[i].0 + 0) as nat, e[i].1)) =~= ts.push(t)
                + moved);
        },
        Err(_) => {},
    }
}

/// A minus directly before something is a piece of its own; one before space or at the end is
/// passed over.
pub proof fn lemma_minus(x: Seq<char>)
    ensures
        x.len() > 0 && !whitespace(x[0]) ==> lexed(seq!['-'] + x, 0) == and_then_at(
            seq![(0nat, TokView::Minus)],
            lexed(x, 0),
            byte_len(seq!['-']),
        ),
        x.len() == 0 || whitespace(x[0]) ==> lexed(seq!['-'] + x, 0) == and_then_at(
            Seq::empty(),
            lexed(x, 0),
            byte_len(seq!['-']),
        ),
{
    let s = seq!['-'] + x;
    lemma_shift(seq!['-'], x, 0);
    lemma_no_bytes(s);
    lemma_not_white();
    if x.len() > 0 {
        assert(s[1] == x[0]);
    }
    lemma_put_before((0nat, TokView::Minus), lexed(x, 0), byte_len(seq!['-']));
}

proof fn lemma_no_quote(p: Seq<char>, s: Seq<char>, i: int)
    requires
        1 <= i <= p.len() + 1,
        p.len() + 1 <= s.len(),
        forall|k: int| 0 <= k < p.len() ==> #[trigger] p[k] != '"' && s[k + 1] == p[k],
        s.len() > p.len() + 1 ==> s[p.len() as int + 1] == '"',
    ensures
        quote_at(s, i) == p.len() + 1,
    decreases p.len() + 1 - i,
{
    if i < p.len() + 1 {
        assert(p[i - 1] != '"' && s[i - 1 + 1] == p[i - 1]);
        lemma_no_quote(p, s, i + 1);
    }
}

/// A text in quotation marks is one piece, whole; where no second mark follows, the query is
/// refused.
pub proof fn lemma_quoted(p: Seq<char>, x: Seq<char>)
    requires
        forall|k: int| 0 <= k < p.len() ==> #[trigger] p[k] != '"',
    ensures
        lexed((seq!['"'] + p).push('"') + x, 0) == and_then_at(
            seq![(0nat, TokView::Phrase(p))],
            lexed(x, 0),
            byte_len((seq!['"'] + p).push('"')),
        ),
        lexed(seq!['"'] + p, 0) == Err::<Seq<(nat, TokView)>, QueryErrorView>(
            QueryErrorView::UnterminatedPhrase { at: 0 },
        ),
{
    let front = (seq!['"'] + p).push('"');
    let s = front + x;
    lemma_shift(front, x, 0);
    lemma_no_bytes(s);
    lemma_not_white();
    lemma_no_quote(p, s, 1);
    assert(s.subrange(1, p.len() as int + 1) =~= p);
    lemma_put_before((0nat, TokView::Phrase(p)), lexed(x, 0), byte_len(front));
    let open = seq!['"'] + p;
    lemma_no_bytes(open);
    lemma_no_quote(p, open, 1);
}

} // verus!
