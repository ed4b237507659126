//! Query syntax.
//!
//! ```text
//! query  := and ( "OR" and )*
//! and    := unary ( "AND"? unary )+
//! unary  := "-" atom | atom
//! atom   := "(" query ")" | '"' WORD* '"' | WORD
//! ```
//!
//! `AND` and `OR` are keywords in upper case only. A word that holds several
//! atoms (`foo.bar`, `std::fs::read`) is a phrase of them, for that is what it
//! was in the source; a quoted phrase of one atom is a term. Negation needs
//! something positive next to it. A minus sign negates only where it directly
//! precedes an operand; inside a word it is punctuation, and on its own it is
//! passed over.

use vstd::prelude::*;

use crate::error::{QueryError, QueryErrorView};
use crate::text::{
    byte_len, char_width, chars_of, lemma_encode_concat, lemma_encode_push, same, text_of, views,
    whitespace,
};
use crate::tokenizer::{atoms, text_tokens, token_views};

verus! {

/// A parsed query.
#[derive(Debug, PartialEq, Eq)]
pub enum Node {
    /// A single lowercased whole-atom term.
    Term(String),
    /// Two or more terms that must appear at consecutive positions.
    Phrase(Vec<String>),
    /// Every `must` matches and no `must_not` matches. `must` is not empty.
    And { must: Vec<Node>, must_not: Vec<Node> },
    /// At least one child matches. Every child has a positive clause.
    Or(Vec<Node>),
}

/// A [`Node`] by value.
pub ghost enum NodeView {
    Term(Seq<char>),
    Phrase(Seq<Seq<char>>),
    And { must: Seq<NodeView>, must_not: Seq<NodeView> },
    Or(Seq<NodeView>),
}

/// A node by value.
pub open spec fn node_view(n: Node) -> NodeView
    decreases n,
{
    match n {
        Node::Term(t) => NodeView::Term(t@),
        Node::Phrase(ts) => NodeView::Phrase(views(ts@)),
        Node::And { must, must_not } => NodeView::And {
            must: Seq::new(
                must@.len(),
                |i: int|
                    if 0 <= i < must@.len() {
                        node_view(must@[i])
                    } else {
                        arbitrary()
                    },
            ),
            must_not: Seq::new(
                must_not@.len(),
                |i: int|
                    if 0 <= i < must_not@.len() {
                        node_view(must_not@[i])
                    } else {
                        arbitrary()
                    },
            ),
        },
        Node::Or(cs) => NodeView::Or(
            Seq::new(
                cs@.len(),
                |i: int|
                    if 0 <= i < cs@.len() {
                        node_view(cs@[i])
                    } else {
                        arbitrary()
                    },
            ),
        ),
    }
}

impl View for Node {
    type V = NodeView;

    open spec fn view(&self) -> NodeView {
        node_view(*self)
    }
}

/// Nodes by value.
pub open spec fn nodes(ns: Seq<Node>) -> Seq<NodeView> {
    Seq::new(ns.len(), |i: int| node_view(ns[i]))
}

pub proof fn lemma_and_view(must: Vec<Node>, must_not: Vec<Node>)
    ensures
        node_view(Node::And { must, must_not }) == (NodeView::And {
            must: nodes(must@),
            must_not: nodes(must_not@),
        }),
{
    let v = node_view(Node::And { must, must_not });
    assert(v->must =~= nodes(must@));
    assert(v->must_not =~= nodes(must_not@));
}

pub proof fn lemma_or_view(cs: Vec<Node>)
    ensures
        node_view(Node::Or(cs)) == NodeView::Or(nodes(cs@)),
{
    assert(node_view(Node::Or(cs))->Or_0 =~= nodes(cs@));
}

/// A piece of a query.
#[derive(Debug, PartialEq, Eq)]
pub enum Tok {
    Word(String),
    Phrase(String),
    And,
    Or,
    Minus,
    LParen,
    RParen,
}

/// A [`Tok`] by value.
pub ghost enum TokView {
    Word(Seq<char>),
    Phrase(Seq<char>),
    And,
    Or,
    Minus,
    LParen,
    RParen,
}

impl View for Tok {
    type V = TokView;

    open spec fn view(&self) -> TokView {
        match self {
            Tok::Word(w) => TokView::Word(w@),
            Tok::Phrase(p) => TokView::Phrase(p@),
            Tok::And => TokView::And,
            Tok::Or => TokView::Or,
            Tok::Minus => TokView::Minus,
            Tok::LParen => TokView::LParen,
            Tok::RParen => TokView::RParen,
        }
    }
}

/// The pieces with their offsets, by value.
pub open spec fn tok_views(ts: Seq<(usize, Tok)>) -> Seq<(nat, TokView)> {
    Seq::new(ts.len(), |i: int| (ts[i].0 as nat, ts[i].1@))
}

/// How a piece is shown in an error.
pub open spec fn described(t: TokView) -> Seq<char> {
    match t {
        TokView::Word(w) => w,
        TokView::Phrase(p) => "\""@ + p + "\""@,
        TokView::And => "AND"@,
        TokView::Or => "OR"@,
        TokView::Minus => "-"@,
        TokView::LParen => "("@,
        TokView::RParen => ")"@,
    }
}

impl Tok {
    /// How the piece is shown in an error.
    fn describe(&self) -> (r: String)
        ensures
            r@ == described(self@),
    {
        match self {
            Tok::Word(w) => w.clone(),
            Tok::Phrase(p) => {
                let mut r: String = "\"".to_string();
                r.push_str(p.as_str());
                r.push_str("\"");
                r
            },
            Tok::And => "AND".to_string(),
            Tok::Or => "OR".to_string(),
            Tok::Minus => "-".to_string(),
            Tok::LParen => "(".to_string(),
            Tok::RParen => ")".to_string(),
        }
    }
}

/// The place of the next quotation mark, or the end.
pub open spec fn quote_at(s: Seq<char>, i: int) -> int
    decreases s.len() - i,
{
    if i < s.len() && s[i] != '"' {
        quote_at(s, i + 1)
    } else {
        i
    }
}

/// The character ends a word.
pub open spec fn ends_word(c: char) -> bool {
    whitespace(c) || c == '(' || c == ')' || c == '"'
}

/// Where the word from `i` on ends.
pub open spec fn word_end(s: Seq<char>, i: int) -> int
    decreases s.len() - i,
{
    if i < s.len() && !ends_word(s[i]) {
        word_end(s, i + 1)
    } else {
        i
    }
}

/// What a word is: a keyword or an operand.
pub open spec fn word_tok(w: Seq<char>) -> TokView {
    if w == "AND"@ {
        TokView::And
    } else if w == "OR"@ {
        TokView::Or
    } else {
        TokView::Word(w)
    }
}

/// `t` and what follows it.
pub open spec fn followed(
    t: (nat, TokView),
    rest: Result<Seq<(nat, TokView)>, QueryErrorView>,
) -> Result<Seq<(nat, TokView)>, QueryErrorView> {
    match rest {
        Ok(ts) => Ok(seq![t] + ts),
        Err(e) => Err(e),
    }
}

/// Where the next piece is looked for after the one at `i`.
pub open spec fn after_tok(s: Seq<char>, i: int) -> int {
    let c = s[i];
    if whitespace(c) || c == '(' || c == ')' || c == '-' {
        i + 1
    } else if c == '"' {
        quote_at(s, i + 1) + 1
    } else {
        word_end(s, i)
    }
}

/// The piece at character `i`, if there is one.
pub open spec fn tok_at(s: Seq<char>, i: int) -> Option<TokView> {
    let c = s[i];
    if whitespace(c) {
        None
    } else if c == '(' {
        Some(TokView::LParen)
    } else if c == ')' {
        Some(TokView::RParen)
    } else if c == '"' {
        Some(TokView::Phrase(s.subrange(i + 1, quote_at(s, i + 1))))
    } else if c == '-' {
        if i + 1 < s.len() && !whitespace(s[i + 1]) {
            Some(TokView::Minus)
        } else {
            None
        }
    } else {
        Some(word_tok(s.subrange(i, word_end(s, i))))
    }
}

pub proof fn lemma_quote_at(s: Seq<char>, i: int)
    requires
        0 <= i <= s.len(),
    ensures
        i <= quote_at(s, i) <= s.len(),
    decreases s.len() - i,
{
    if i < s.len() && s[i] != '"' {
        lemma_quote_at(s, i + 1);
    }
}

pub proof fn lemma_word_end(s: Seq<char>, i: int)
    requires
        0 <= i <= s.len(),
    ensures
        i <= word_end(s, i) <= s.len(),
        i < s.len() && !ends_word(s[i]) ==> i < word_end(s, i),
    decreases s.len() - i,
{
    if i < s.len() && !ends_word(s[i]) {
        lemma_word_end(s, i + 1);
    }
}

/// The pieces of a query from character `i` on, with their byte offsets.
pub open spec fn lexed(s: Seq<char>, i: int) -> Result<Seq<(nat, TokView)>, QueryErrorView>
    decreases s.len() - i,
{
    if i < 0 || i >= s.len() {
        Ok(Seq::empty())
    } else {
        proof {
            lemma_quote_at(s, i + 1);
            lemma_word_end(s, i);
        }
        let at = byte_len(s.take(i));
        if s[i] == '"' && !whitespace(s[i]) && quote_at(s, i + 1) >= s.len() {
            Err(QueryErrorView::UnterminatedPhrase { at })
        } else {
            match tok_at(s, i) {
                Some(t) => followed((at, t), lexed(s, after_tok(s, i))),
                None => lexed(s, after_tok(s, i)),
            }
        }
    }
}

/// What was found and what follows it.
spec fn preceded(
    ts: Seq<(nat, TokView)>,
    rest: Result<Seq<(nat, TokView)>, QueryErrorView>,
) -> Result<Seq<(nat, TokView)>, QueryErrorView> {
    match rest {
        Ok(more) => Ok(ts + more),
        Err(e) => Err(e),
    }
}

/// The bytes of the characters from `a` up to `b`, added to `off`.
fn advance(cs: &[char], a: usize, b: usize, off: usize) -> (r: usize)
    requires
        a <= b <= cs@.len(),
        off == byte_len(cs@.take(a as int)),
        byte_len(cs@) <= usize::MAX,
    ensures
        r == byte_len(cs@.take(b as int)),
{
    let mut i: usize = a;
    let mut off: usize = off;
    while i < b
        invariant
            a <= i <= b <= cs@.len(),
            off == byte_len(cs@.take(i as int)),
            byte_len(cs@) <= usize::MAX,
        decreases b - i,
    {
        proof {
            let head = cs@.take(i as int);
            lemma_encode_push(head, cs@[i as int]);
            assert(cs@.take(i + 1) =~= head.push(cs@[i as int]));
            lemma_encode_concat(cs@.take(i + 1), cs@.skip(i + 1));
            assert(cs@ =~= cs@.take(i + 1) + cs@.skip(i + 1));
        }
        off = off + char_width(cs[i]);
        i = i + 1;
    }
    off
}

fn find_quote(cs: &[char], i: usize) -> (r: usize)
    requires
        i <= cs@.len(),
    ensures
        r == quote_at(cs@, i as int),
        i <= r <= cs@.len(),
{
    let mut j: usize = i;
    while j < cs.len() && cs[j] != '"'
        invariant
            i <= j <= cs@.len(),
            quote_at(cs@, i as int) == quote_at(cs@, j as int),
        decreases cs@.len() - j,
    {
        j = j + 1;
    }
    j
}

fn find_word_end(cs: &[char], i: usize) -> (r: usize)
    requires
        i <= cs@.len(),
    ensures
        r == word_end(cs@, i as int),
        i <= r <= cs@.len(),
{
    let mut j: usize = i;
    while j < cs.len() && !(cs[j].is_whitespace() || cs[j] == '(' || cs[j] == ')' || cs[j] == '"')
        invariant
            i <= j <= cs@.len(),
            word_end(cs@, i as int) == word_end(cs@, j as int),
        decreases cs@.len() - j,
    {
        j = j + 1;
    }
    j
}

/// The piece at character `i` and where the next is looked for; the end where a
/// quotation mark is missing.
fn next_tok(cs: &[char], i: usize) -> (r: (Option<Tok>, usize))
    requires
        i < cs@.len(),
        !(cs@[i as int] == '"' && !whitespace(cs@[i as int]) && quote_at(cs@, i + 1) >= cs@.len()),
    ensures
        match r.0 {
            Some(t) => tok_at(cs@, i as int) == Some(t@),
            None => tok_at(cs@, i as int) is None,
        },
        r.1 == after_tok(cs@, i as int),
        i < r.1 <= cs@.len(),
{
    let c: char = cs[i];
    if c.is_whitespace() {
        (None, i + 1)
    } else if c == '(' {
        (Some(Tok::LParen), i + 1)
    } else if c == ')' {
        (Some(Tok::RParen), i + 1)
    } else if c == '"' {
        let j: usize = find_quote(cs, i + 1);
        (Some(Tok::Phrase(text_of(cs, i + 1, j))), j + 1)
    } else if c == '-' {
        if i + 1 < cs.len() && !cs[i + 1].is_whitespace() {
            (Some(Tok::Minus), i + 1)
        } else {
            (None, i + 1)
        }
    } else {
        let j: usize = find_word_end(cs, i);
        proof {
            lemma_word_end(cs@, i as int);
        }
        let w: String = text_of(cs, i, j);
        let t = if same(w.as_str(), "AND") {
            Tok::And
        } else if same(w.as_str(), "OR") {
            Tok::Or
        } else {
            Tok::Word(w)
        };
        (Some(t), j)
    }
}

/// The pieces of a query with their byte offsets.
pub fn lex(src: &str) -> (r: Result<Vec<(usize, Tok)>, QueryError>)
    ensures
        match r {
            Ok(ts) => lexed(src@, 0) == Ok::<Seq<(nat, TokView)>, QueryErrorView>(tok_views(ts@)),
            Err(e) => lexed(src@, 0) == Err::<Seq<(nat, TokView)>, QueryErrorView>(e@),
        },
{
    let cs = chars_of(src);
    let bytes: &[u8] = src.as_bytes();
    let mut toks: Vec<(usize, Tok)> = Vec::new();
    let mut i: usize = 0;
    let mut off: usize = 0;
    proof {
        assert(bytes@.len() == bytes.len());
        assert(src@.take(0) =~= Seq::empty());
        assert(tok_views(toks@) =~= Seq::empty());
        match lexed(src@, 0) {
            Ok(ts) => {
                assert(Seq::<(nat, TokView)>::empty() + ts =~= ts);
            },
            Err(_) => {},
        }
    }
    while i < cs.len()
        invariant
            cs@ == src@,
            i <= cs@.len(),
            off == byte_len(cs@.take(i as int)),
            byte_len(cs@) <= usize::MAX,
            lexed(src@, 0) == preceded(tok_views(toks@), lexed(src@, i as int)),
        decreases cs@.len() - i,
    {
        let c: char = cs[i];
        if c == '"' && !c.is_whitespace() && find_quote(cs.as_slice(), i + 1) >= cs.len() {
            return Err(QueryError::UnterminatedPhrase { at: off });
        }
        let (tok, next): (Option<Tok>, usize) = next_tok(cs.as_slice(), i);
        let ghost had = tok_views(toks@);
        match tok {
            Some(t) => {
                toks.push((off, t));
                proof {
                    let now = tok_views(toks@);
                    assert(now =~= had.push((off as nat, t@)));
                    match lexed(src@, next as int) {
                        Ok(more) => {
                            assert(had + (seq![(off as nat, t@)] + more) =~= now + more);
                        },
                        Err(_) => {},
                    }
                }
            },
            None => {},
        }
        off = advance(cs.as_slice(), i, next, off);
        i = next;
    }
    assert(tok_views(toks@) + Seq::<(nat, TokView)>::empty() =~= tok_views(toks@));
    Ok(toks)
}

/// The node of an operand with these atoms; none where there is no atom.
pub open spec fn operand_node(terms: Seq<Seq<char>>) -> Option<NodeView> {
    if terms.len() == 0 {
        None
    } else if terms.len() == 1 {
        Some(NodeView::Term(terms[0]))
    } else {
        Some(NodeView::Phrase(terms))
    }
}

/// An operand can start at place `i`.
pub open spec fn starts_operand(ts: Seq<(nat, TokView)>, i: int) -> bool {
    i < ts.len() && (ts[i].1 is Word || ts[i].1 is Phrase || ts[i].1 is Minus
        || ts[i].1 is LParen)
}

/// One clause or several of them.
pub open spec fn or_node(children: Seq<NodeView>) -> NodeView {
    if children.len() == 1 {
        children[0]
    } else {
        NodeView::Or(children)
    }
}

/// One operand or several of them.
pub open spec fn and_node(must: Seq<NodeView>, must_not: Seq<NodeView>) -> NodeView {
    if must.len() == 1 && must_not.len() == 0 {
        must[0]
    } else {
        NodeView::And { must, must_not }
    }
}

/// Clauses joined by `OR` from place `i` on, after `children`; the node and the
/// place behind it.
pub open spec fn or_at(
    ts: Seq<(nat, TokView)>,
    ops: Seq<Seq<Seq<char>>>,
    i: int,
    children: Seq<NodeView>,
) -> Result<(NodeView, int), QueryErrorView>
    decreases ts.len() - i, 3int,
{
    match and_at(ts, ops, i, Seq::empty(), Seq::empty()) {
        Err(e) => Err(e),
        Ok((n, j)) => if i <= j < ts.len() && ts[j].1 is Or {
            if starts_operand(ts, j + 1) {
                or_at(ts, ops, j + 1, children.push(n))
            } else {
                Err(QueryErrorView::Unexpected { found: "OR"@, at: ts[j].0 })
            }
        } else {
            Ok((or_node(children.push(n)), j))
        },
    }
}

/// Operands from place `i` on, after those already there.
pub open spec fn and_at(
    ts: Seq<(nat, TokView)>,
    ops: Seq<Seq<Seq<char>>>,
    i: int,
    must: Seq<NodeView>,
    must_not: Seq<NodeView>,
) -> Result<(NodeView, int), QueryErrorView>
    decreases ts.len() - i, 2int,
{
    if i >= ts.len() || ts[i].1 is Or || ts[i].1 is RParen {
        if must.len() > 0 {
            Ok((and_node(must, must_not), i))
        } else if must_not.len() > 0 {
            Err(QueryErrorView::OnlyNegation)
        } else if i < ts.len() {
            Err(QueryErrorView::Unexpected { found: described(ts[i].1), at: ts[i].0 })
        } else {
            Err(QueryErrorView::Empty)
        }
    } else if ts[i].1 is And {
        if must.len() + must_not.len() > 0 && starts_operand(ts, i + 1) {
            and_at(ts, ops, i + 1, must, must_not)
        } else {
            Err(QueryErrorView::Unexpected { found: "AND"@, at: ts[i].0 })
        }
    } else {
        let negated = ts[i].1 is Minus;
        let k = if negated {
            i + 1
        } else {
            i
        };
        match atom_at(ts, ops, k) {
            Err(e) => Err(e),
            Ok((n, j)) => if j <= i || j > ts.len() {
                arbitrary()
            } else {
                match n {
                    None => and_at(ts, ops, j, must, must_not),
                    Some(n) => if negated {
                        and_at(ts, ops, j, must, must_not.push(n))
                    } else {
                        and_at(ts, ops, j, must.push(n), must_not)
                    },
                }
            },
        }
    }
}

/// The operand at place `i`: a group, or a word or phrase with its atoms.
pub open spec fn atom_at(
    ts: Seq<(nat, TokView)>,
    ops: Seq<Seq<Seq<char>>>,
    i: int,
) -> Result<(Option<NodeView>, int), QueryErrorView>
    decreases ts.len() - i, 1int,
{
    if i >= ts.len() {
        Err(QueryErrorView::Empty)
    } else {
        match ts[i].1 {
            TokView::LParen => match or_at(ts, ops, i + 1, Seq::empty()) {
                Err(e) => Err(e),
                Ok((n, j)) => if j < ts.len() && ts[j].1 is RParen {
                    Ok((Some(n), j + 1))
                } else {
                    Err(QueryErrorView::UnbalancedParen { at: ts[i].0 })
                },
            },
            TokView::Word(_) => Ok((operand_node(ops[i]), i + 1)),
            TokView::Phrase(_) => Ok((operand_node(ops[i]), i + 1)),
            other => Err(QueryErrorView::Unexpected { found: described(other), at: ts[i].0 }),
        }
    }
}

/// What the pieces of a query mean, `ops` being the atoms of each.
pub open spec fn parsed_toks(
    ts: Seq<(nat, TokView)>,
    ops: Seq<Seq<Seq<char>>>,
) -> Result<NodeView, QueryErrorView> {
    if ts.len() == 0 {
        Err(QueryErrorView::Empty)
    } else {
        match or_at(ts, ops, 0, Seq::empty()) {
            Err(e) => Err(e),
            Ok((n, j)) => if j < ts.len() {
                Err(
                    if ts[j].1 is RParen {
                        QueryErrorView::UnbalancedParen { at: ts[j].0 }
                    } else {
                        QueryErrorView::Unexpected { found: described(ts[j].1), at: ts[j].0 }
                    },
                )
            } else {
                Ok(n)
            },
        }
    }
}

/// The terms by value.
pub open spec fn term_lists(ops: Seq<Vec<String>>) -> Seq<Seq<Seq<char>>> {
    Seq::new(ops.len(), |i: int| views(ops[i]@))
}

/// Descends over the pieces of a query.
struct Parser<'a> {
    toks: &'a [(usize, Tok)],
    ops: &'a [Vec<String>],
    idx: usize,
}

impl<'a> Parser<'a> {
    spec fn wf(&self) -> bool {
        &&& self.idx <= self.toks@.len()
        &&& self.ops@.len() == self.toks@.len()
    }

    spec fn ts(&self) -> Seq<(nat, TokView)> {
        tok_views(self.toks@)
    }

    spec fn terms(&self) -> Seq<Seq<Seq<char>>> {
        term_lists(self.ops@)
    }

    fn can_start(&self) -> (r: bool)
        requires
            self.wf(),
        ensures
            r == starts_operand(self.ts(), self.idx as int),
    {
        if self.idx < self.toks.len() {
            assert(self.ts()[self.idx as int].1 == self.toks@[self.idx as int].1@);
            matches!(self.toks[self.idx].1, Tok::Word(_) | Tok::Phrase(_) | Tok::Minus | Tok::LParen)
        } else {
            false
        }
    }

    fn parse_or(&mut self) -> (r: Result<Node, QueryError>)
        requires
            old(self).wf(),
        ensures
            final(self).wf(),
            final(self).toks == old(self).toks,
            final(self).ops == old(self).ops,
            old(self).idx <= final(self).idx,
            match r {
                Ok(n) => or_at(
                    old(self).ts(),
                    old(self).terms(),
                    old(self).idx as int,
                    Seq::empty(),
                ) == Ok::<(NodeView, int), QueryErrorView>((n@, final(self).idx as int)),
                Err(e) => or_at(
                    old(self).ts(),
                    old(self).terms(),
                    old(self).idx as int,
                    Seq::empty(),
                ) == Err::<(NodeView, int), QueryErrorView>(e@),
            },
        decreases old(self).toks@.len() - old(self).idx, 3int,
    {
        let ghost ts = self.ts();
        let ghost ops = self.terms();
        let ghost start = self.idx;
        let mut children: Vec<Node> = Vec::new();
        assert(nodes(children@) =~= Seq::empty());
        let mut more: bool = true;
        while more
            invariant
                self.wf(),
                self.toks == old(self).toks,
                self.ops == old(self).ops,
                ts == old(self).ts(),
                ops == old(self).terms(),
                start == old(self).idx,
                start <= self.idx,
                more ==> or_at(ts, ops, start as int, Seq::empty()) == or_at(
                    ts,
                    ops,
                    self.idx as int,
                    nodes(children@),
                ),
                !more ==> children@.len() > 0 && or_at(ts, ops, start as int, Seq::empty()) == Ok::<
                    (NodeView, int),
                    QueryErrorView,
                >((or_node(nodes(children@)), self.idx as int)),
            decreases
                    self.toks@.len() - self.idx + if more {
                        1int
                    } else {
                        0int
                    },
        {
            let ghost had = nodes(children@);
            let n = self.parse_and()?;
            children.push(n);
            assert(nodes(children@) =~= had.push(n@));
            if self.idx < self.toks.len() {
                assert(ts[self.idx as int] == (
                    self.toks@[self.idx as int].0 as nat,
                    self.toks@[self.idx as int].1@,
                ));
                if matches!(self.toks[self.idx].1, Tok::Or) {
                    let at: usize = self.toks[self.idx].0;
                    self.idx = self.idx + 1;
                    if !self.can_start() {
                        return Err(QueryError::Unexpected { found: "OR".to_string(), at });
                    }
                } else {
                    more = false;
                }
            } else {
                more = false;
            }
        }
        if children.len() == 1 {
            let ghost cs = nodes(children@);
            match children.pop() {
                Some(n) => {
                    assert(cs[0] == n@);
                    Ok(n)
                },
                None => Err(QueryError::Empty),
            }
        } else {
            proof {
                lemma_or_view(children);
            }
            Ok(Node::Or(children))
        }
    }

    fn parse_and(&mut self) -> (r: Result<Node, QueryError>)
        requires
            old(self).wf(),
        ensures
            final(self).wf(),
            final(self).toks == old(self).toks,
            final(self).ops == old(self).ops,
            old(self).idx <= final(self).idx,
            match r {
                Ok(n) => and_at(
                    old(self).ts(),
                    old(self).terms(),
                    old(self).idx as int,
                    Seq::empty(),
                    Seq::empty(),
                ) == Ok::<(NodeView, int), QueryErrorView>((n@, final(self).idx as int)),
                Err(e) => and_at(
                    old(self).ts(),
                    old(self).terms(),
                    old(self).idx as int,
                    Seq::empty(),
                    Seq::empty(),
                ) == Err::<(NodeView, int), QueryErrorView>(e@),
            },
        decreases old(self).toks@.len() - old(self).idx, 2int,
    {
        let ghost ts = self.ts();
        let ghost ops = self.terms();
        let ghost start = self.idx;
        let mut must: Vec<Node> = Vec::new();
        let mut must_not: Vec<Node> = Vec::new();
        assert(nodes(must@) =~= Seq::empty());
        assert(nodes(must_not@) =~= Seq::empty());
        while self.idx < self.toks.len() && !matches!(self.toks[self.idx].1, Tok::Or | Tok::RParen)
            invariant
                self.wf(),
                self.toks == old(self).toks,
                self.ops == old(self).ops,
                ts == old(self).ts(),
                ops == old(self).terms(),
                start == old(self).idx,
                start <= self.idx,
                and_at(ts, ops, start as int, Seq::empty(), Seq::empty()) == and_at(
                    ts,
                    ops,
                    self.idx as int,
                    nodes(must@),
                    nodes(must_not@),
                ),
            decreases self.toks@.len() - self.idx,
        {
            let ghost i = self.idx;
            assert(ts[i as int] == (self.toks@[i as int].0 as nat, self.toks@[i as int].1@));
            if matches!(self.toks[self.idx].1, Tok::And) {
                let at: usize = self.toks[self.idx].0;
                self.idx = self.idx + 1;
                if must.len() == 0 && must_not.len() == 0 || !self.can_start() {
                    return Err(QueryError::Unexpected { found: "AND".to_string(), at });
                }
            } else {
                let negated: bool = matches!(self.toks[self.idx].1, Tok::Minus);
                if negated {
                    self.idx = self.idx + 1;
                }
                match self.parse_atom()? {
                    None => {},
                    Some(n) => if negated {
                        let ghost had = nodes(must_not@);
                        must_not.push(n);
                        assert(nodes(must_not@) =~= had.push(n@));
                    } else {
                        let ghost had = nodes(must@);
                        must.push(n);
                        assert(nodes(must@) =~= had.push(n@));
                    },
                }
            }
        }
        if self.idx < self.toks.len() {
            assert(ts[self.idx as int] == (
                self.toks@[self.idx as int].0 as nat,
                self.toks@[self.idx as int].1@,
            ));
        }
        if must.len() == 0 {
            if must_not.len() > 0 {
                return Err(QueryError::OnlyNegation);
            }
            return Err(
                if self.idx < self.toks.len() {
                    QueryError::Unexpected {
                        found: self.toks[self.idx].1.describe(),
                        at: self.toks[self.idx].0,
                    }
                } else {
                    QueryError::Empty
                },
            );
        }
        if must.len() == 1 && must_not.len() == 0 {
            let ghost ms = nodes(must@);
            match must.pop() {
                Some(n) => {
                    assert(ms[0] == n@);
                    Ok(n)
                },
                None => Err(QueryError::Empty),
            }
        } else {
            proof {
                lemma_and_view(must, must_not);
            }
            Ok(Node::And { must, must_not })
        }
    }

    /// Nothing for an operand without atoms; it is passed over.
    fn parse_atom(&mut self) -> (r: Result<Option<Node>, QueryError>)
        requires
            old(self).wf(),
        ensures
            final(self).wf(),
            final(self).toks == old(self).toks,
            final(self).ops == old(self).ops,
            old(self).idx <= final(self).idx,
            match r {
                Ok(n) => {
                    &&& old(self).idx < final(self).idx
                    &&& atom_at(old(self).ts(), old(self).terms(), old(self).idx as int) == Ok::<
                        (Option<NodeView>, int),
                        QueryErrorView,
                    >(
                        (
                            match n {
                                Some(n) => Some(n@),
                                None => None,
                            },
                            final(self).idx as int,
                        ),
                    )
                },
                Err(e) => atom_at(old(self).ts(), old(self).terms(), old(self).idx as int) == Err::<
                    (Option<NodeView>, int),
                    QueryErrorView,
                >(e@),
            },
        decreases old(self).toks@.len() - old(self).idx, 1int,
    {
        if self.idx >= self.toks.len() {
            return Err(QueryError::Empty);
        }
        let here: usize = self.idx;
        let at: usize = self.toks[here].0;
        assert(self.ts()[here as int] == (at as nat, self.toks@[here as int].1@));
        self.idx = here + 1;
        match &self.toks[here].1 {
            Tok::LParen => {
                let node = self.parse_or()?;
                if self.idx < self.toks.len() {
                    assert(self.ts()[self.idx as int].1 == self.toks@[self.idx as int].1@);
                    if matches!(self.toks[self.idx].1, Tok::RParen) {
                        self.idx = self.idx + 1;
                        return Ok(Some(node));
                    }
                }
                Err(QueryError::UnbalancedParen { at })
            },
            Tok::Word(_) => {
                assert(self.terms()[here as int] == views(self.ops@[here as int]@));
                Ok(terms_to_node(&self.ops[here]))
            },
            Tok::Phrase(_) => {
                assert(self.terms()[here as int] == views(self.ops@[here as int]@));
                Ok(terms_to_node(&self.ops[here]))
            },
            other => Err(QueryError::Unexpected { found: other.describe(), at }),
        }
    }
}

/// One atom is a term, several are a phrase.
fn terms_to_node(terms: &Vec<String>) -> (r: Option<Node>)
    ensures
        match r {
            Some(n) => operand_node(views(terms@)) == Some(n@),
            None => operand_node(views(terms@)) is None,
        },
{
    if terms.len() == 0 {
        return None;
    }
    if terms.len() == 1 {
        assert(views(terms@)[0] == terms@[0]@);
        return Some(Node::Term(terms[0].clone()));
    }
    let mut copy: Vec<String> = Vec::new();
    let mut i: usize = 0;
    while i < terms.len()
        invariant
            i <= terms@.len(),
            views(copy@) == views(terms@).take(i as int),
        decreases terms@.len() - i,
    {
        let ghost had = views(copy@);
        copy.push(terms[i].clone());
        i = i + 1;
        assert(views(copy@) =~= had.push(views(terms@)[i - 1]));
        assert(views(copy@) =~= views(terms@).take(i as int));
    }
    assert(views(copy@) =~= views(terms@));
    Some(Node::Phrase(copy))
}

/// What the pieces of a query mean. `ops` holds the atoms of each word and
/// phrase.
pub fn parse_toks(toks: &[(usize, Tok)], ops: &[Vec<String>]) -> (r: Result<Node, QueryError>)
    requires
        ops@.len() == toks@.len(),
    ensures
        match r {
            Ok(n) => parsed_toks(tok_views(toks@), term_lists(ops@)) == Ok::<
                NodeView,
                QueryErrorView,
            >(n@),
            Err(e) => parsed_toks(tok_views(toks@), term_lists(ops@)) == Err::<
                NodeView,
                QueryErrorView,
            >(e@),
        },
{
    if toks.len() == 0 {
        return Err(QueryError::Empty);
    }
    let mut p = Parser { toks, ops, idx: 0 };
    let node = p.parse_or()?;
    if p.idx < toks.len() {
        let at: usize = toks[p.idx].0;
        assert(tok_views(toks@)[p.idx as int] == (at as nat, toks@[p.idx as int].1@));
        return Err(
            if matches!(toks[p.idx].1, Tok::RParen) {
                QueryError::UnbalancedParen { at }
            } else {
                QueryError::Unexpected { found: toks[p.idx].1.describe(), at }
            },
        );
    }
    Ok(node)
}

/// The atoms of a text.
pub open spec fn atom_terms_of(text: Seq<char>) -> Seq<Seq<char>> {
    let ts = text_tokens(text, false);
    Seq::new(ts.len(), |i: int| ts[i].term)
}

/// The atoms of each word and phrase.
pub open spec fn operand_terms(ts: Seq<(nat, TokView)>) -> Seq<Seq<Seq<char>>> {
    Seq::new(
        ts.len(),
        |i: int|
            match ts[i].1 {
                TokView::Word(w) => atom_terms_of(w),
                TokView::Phrase(w) => atom_terms_of(w),
                _ => Seq::empty(),
            },
    )
}

/// What a query means.
pub open spec fn parsed(input: Seq<char>) -> Result<NodeView, QueryErrorView> {
    match lexed(input, 0) {
        Err(e) => Err(e),
        Ok(ts) => parsed_toks(ts, operand_terms(ts)),
    }
}

fn atom_list(text: &str) -> (r: Vec<String>)
    requires
        text@.len() <= u32::MAX,
    ensures
        views(r@) == atom_terms_of(text@),
{
    let ts = atoms(text);
    let mut r: Vec<String> = Vec::new();
    let mut i: usize = 0;
    while i < ts.len()
        invariant
            i <= ts@.len(),
            token_views(ts@) == text_tokens(text@, false),
            views(r@) == atom_terms_of(text@).take(i as int),
        decreases ts@.len() - i,
    {
        let ghost had = views(r@);
        assert(token_views(ts@)[i as int] == ts@[i as int]@);
        r.push(ts[i].term.clone());
        i = i + 1;
        assert(views(r@) =~= had.push(atom_terms_of(text@)[i - 1]));
        assert(views(r@) =~= atom_terms_of(text@).take(i as int));
    }
    assert(views(r@) =~= atom_terms_of(text@));
    r
}

/// Every text of the pieces fits.
spec fn toks_fit(ts: Seq<(nat, TokView)>) -> bool {
    forall|i: int|
        #![trigger ts[i]]
        0 <= i < ts.len() ==> match ts[i].1 {
            TokView::Word(w) => w.len() <= u32::MAX,
            TokView::Phrase(w) => w.len() <= u32::MAX,
            _ => true,
        }
}

proof fn lemma_lexed_fits(s: Seq<char>, i: int)
    requires
        0 <= i,
        s.len() <= u32::MAX,
    ensures
        lexed(s, i) matches Ok(ts) ==> toks_fit(ts),
    decreases s.len() - i,
{
    if i < s.len() {
        lemma_quote_at(s, i + 1);
        lemma_word_end(s, i);
        let at = byte_len(s.take(i));
        if !(s[i] == '"' && !whitespace(s[i]) && quote_at(s, i + 1) >= s.len()) {
            lemma_lexed_fits(s, after_tok(s, i));
            match (tok_at(s, i), lexed(s, after_tok(s, i))) {
                (Some(t), Ok(more)) => {
                    let ts = seq![(at, t)] + more;
                    assert forall|k: int| #![trigger ts[k]] 0 <= k < ts.len() implies (
                    match ts[k].1 {
                        TokView::Word(w) => w.len() <= u32::MAX,
                        TokView::Phrase(w) => w.len() <= u32::MAX,
                        _ => true,
                    }) by {
                        if k > 0 {
                            assert(ts[k] == more[k - 1]);
                        }
                    }
                },
                _ => {},
            }
        }
    }
}

/// Parses a query, which may have as many characters as [`crate::tokenizer::atoms`] takes.
pub fn parse(input: &str) -> (r: Result<Node, QueryError>)
    requires
        input@.len() <= u32::MAX,
    ensures
        match r {
            Ok(n) => parsed(input@) == Ok::<NodeView, QueryErrorView>(n@),
            Err(e) => parsed(input@) == Err::<NodeView, QueryErrorView>(e@),
        },
{
    let toks = lex(input)?;
    let ghost ts = tok_views(toks@);
    proof {
        lemma_lexed_fits(input@, 0);
    }
    let mut ops: Vec<Vec<String>> = Vec::new();
    let mut i: usize = 0;
    while i < toks.len()
        invariant
            i <= toks@.len(),
            ts == tok_views(toks@),
            toks_fit(ts),
            term_lists(ops@) == operand_terms(ts).take(i as int),
        decreases toks@.len() - i,
    {
        let ghost had = term_lists(ops@);
        assert(ts[i as int].1 == toks@[i as int].1@);
        let own: Vec<String> = match &toks[i].1 {
            Tok::Word(w) => atom_list(w.as_str()),
            Tok::Phrase(w) => atom_list(w.as_str()),
            _ => Vec::new(),
        };
        ops.push(own);
        i = i + 1;
        proof {
            assert(views(own@) =~= operand_terms(ts)[i - 1]);
            assert(term_lists(ops@) =~= had.push(views(own@)));
            assert(term_lists(ops@) =~= operand_terms(ts).take(i as int));
        }
    }
    assert(term_lists(ops@) =~= operand_terms(ts));
    parse_toks(toks.as_slice(), ops.as_slice())
}

/// A node as parsing gives it: phrases of two terms or more, conjunctions with a
/// positive operand and two operands or more, disjunctions of two clauses or
/// more, and so all the way down.
pub open spec fn proper(n: NodeView) -> bool
    decreases n,
{
    match n {
        NodeView::Term(_) => true,
        NodeView::Phrase(ts) => ts.len() >= 2,
        NodeView::And { must, must_not } => {
            &&& must.len() >= 1
            &&& must.len() + must_not.len() >= 2
            &&& forall|i: int| 0 <= i < must.len() ==> proper(#[trigger] must[i])
            &&& forall|i: int| 0 <= i < must_not.len() ==> proper(#[trigger] must_not[i])
        },
        NodeView::Or(cs) => {
            &&& cs.len() >= 2
            &&& forall|i: int| 0 <= i < cs.len() ==> proper(#[trigger] cs[i])
        },
    }
}

spec fn all_proper(ns: Seq<NodeView>) -> bool {
    forall|i: int| 0 <= i < ns.len() ==> proper(#[trigger] ns[i])
}

proof fn lemma_or_proper(
    ts: Seq<(nat, TokView)>,
    ops: Seq<Seq<Seq<char>>>,
    i: int,
    children: Seq<NodeView>,
)
    requires
        0 <= i <= ts.len(),
        all_proper(children),
    ensures
        or_at(ts, ops, i, children) matches Ok((n, j)) ==> proper(n) && i <= j <= ts.len(),
    decreases ts.len() - i, 3int,
{
    lemma_and_proper(ts, ops, i, Seq::empty(), Seq::empty());
    match and_at(ts, ops, i, Seq::empty(), Seq::empty()) {
        Err(e) => {},
        Ok((n, j)) => {
            let cs = children.push(n);
            assert(all_proper(cs));
            if j < ts.len() && ts[j].1 is Or && starts_operand(ts, j + 1) {
                lemma_or_proper(ts, ops, j + 1, cs);
            }
        },
    }
}

proof fn lemma_and_proper(
    ts: Seq<(nat, TokView)>,
    ops: Seq<Seq<Seq<char>>>,
    i: int,
    must: Seq<NodeView>,
    must_not: Seq<NodeView>,
)
    requires
        0 <= i <= ts.len(),
        all_proper(must),
        all_proper(must_not),
    ensures
        and_at(ts, ops, i, must, must_not) matches Ok((n, j)) ==> proper(n) && i <= j <= ts.len(),
    decreases ts.len() - i, 2int,
{
    if i >= ts.len() || ts[i].1 is Or || ts[i].1 is RParen {
    } else if ts[i].1 is And {
        if must.len() + must_not.len() > 0 && starts_operand(ts, i + 1) {
            lemma_and_proper(ts, ops, i + 1, must, must_not);
        }
    } else {
        let negated = ts[i].1 is Minus;
        let k = if negated {
            i + 1
        } else {
            i
        };
        lemma_atom_proper(ts, ops, k);
        match atom_at(ts, ops, k) {
            Err(e) => {},
            Ok((None, j)) => {
                lemma_and_proper(ts, ops, j, must, must_not);
            },
            Ok((Some(n), j)) => {
                if negated {
                    assert(all_proper(must_not.push(n)));
                    lemma_and_proper(ts, ops, j, must, must_not.push(n));
                } else {
                    assert(all_proper(must.push(n)));
                    lemma_and_proper(ts, ops, j, must.push(n), must_not);
                }
            },
        }
    }
}

proof fn lemma_atom_proper(ts: Seq<(nat, TokView)>, ops: Seq<Seq<Seq<char>>>, i: int)
    requires
        0 <= i <= ts.len(),
    ensures
        atom_at(ts, ops, i) matches Ok((n, j)) ==> i < j <= ts.len() && (n matches Some(m)
            ==> proper(m)),
    decreases ts.len() - i, 1int,
{
    if i < ts.len() && ts[i].1 is LParen {
        lemma_or_proper(ts, ops, i + 1, Seq::empty());
    }
}

/// Whatever is parsed has a positive clause everywhere, and no node that says
/// nothing: a conjunction holds a positive operand, and phrases, conjunctions
/// and disjunctions have two members or more.
pub proof fn lemma_parsed_is_proper(input: Seq<char>)
    ensures
        parsed(input) matches Ok(n) ==> proper(n),
{
    match lexed(input, 0) {
        Err(e) => {},
        Ok(ts) => {
            lemma_or_proper(ts, operand_terms(ts), 0, Seq::empty());
        },
    }
}

} // verus!
