//! Unicode-aware tokenizer with code-identifier splitting.
//!
//! Text is cut at Unicode word boundaries and each word further at punctuation,
//! which is right for code (`std.fs.read`, `a:b`). Combining marks and format
//! characters are no cut points. The runs that hold a letter or a digit are
//! atoms; each atom takes one position, in source order.
//!
//! On the index side an atom is also split at underscores and at camelCase
//! boundaries. The parts take the position of the whole atom, so that a single
//! term finds them while phrases go from atom to atom. The query side uses whole
//! atoms only.
//!
//! Terms are lower case. There is no stemming and there are no stop words.

use core::ops::Range;

use unicode_segmentation::UnicodeSegmentation;
use vstd::prelude::*;

use crate::text::{
    alphabetic, alphanumeric, byte_len, char_width, chars_of, is_among, lemma_byte_len,
    lemma_encode_concat, lemma_encode_push, lemma_push_contains, lowercase, numeric, same, text_of,
    uppercase, views,
};

verus! {

/// What a character is for the camelCase rules.
#[derive(Debug, Clone, Copy, PartialEq, Eq, Structural)]
pub enum Class {
    Upper,
    /// Lower case, or of a script without case: never a boundary.
    Lower,
    Digit,
    /// Combining marks and format characters: they continue any run.
    Other,
}

/// The class of a character.
pub open spec fn class_of(c: char) -> Class {
    if uppercase(c) {
        Class::Upper
    } else if numeric(c) {
        Class::Digit
    } else if alphabetic(c) {
        Class::Lower
    } else {
        Class::Other
    }
}

fn class(c: char) -> (r: Class)
    ensures
        r == class_of(c),
{
    if c.is_uppercase() {
        Class::Upper
    } else if c.is_numeric() {
        Class::Digit
    } else if c.is_alphabetic() {
        Class::Lower
    } else {
        Class::Other
    }
}

/// What splits a text into runs.
#[derive(Debug, Clone, Copy, PartialEq, Eq, Structural)]
pub enum Separator {
    /// Punctuation, of which word boundaries leave some inside words.
    Punctuation,
    /// The underscore.
    Underscore,
}

/// ASCII punctuation but for the underscore, and the marks that word boundaries
/// leave inside words.
pub open spec fn is_cut(c: char) -> bool {
    let u = c as u32;
    if u < 0x80 {
        &&& 0x21 <= u <= 0x2F || 0x3A <= u <= 0x40 || 0x5B <= u <= 0x60 || 0x7B <= u <= 0x7E
        &&& u != 0x5F
    } else {
        // between letters
        ||| u == 0xB7 || u == 0x387 || u == 0x55F || u == 0x5F4 || u == 0x2027 || u == 0xFE13
        ||| u == 0xFE55 || u == 0xFF1A
        // between letters or digits

        ||| u == 0x2018 || u == 0x2019 || u == 0x2024 || u == 0xFE52 || u == 0xFF07 || u == 0xFF0E
        // between digits

        ||| u == 0x37E || u == 0x589 || u == 0x60C || u == 0x60D || u == 0x66C || u == 0x7F8
        ||| u == 0x2044 || u == 0xFE10 || u == 0xFE14 || u == 0xFE50 || u == 0xFE54 || u == 0xFF0C
        ||| u == 0xFF1B
    }
}

/// The character ends a run.
pub open spec fn separates(sep: Separator, c: char) -> bool {
    match sep {
        Separator::Punctuation => is_cut(c),
        Separator::Underscore => c == '_',
    }
}

fn is_separator(sep: Separator, c: char) -> (r: bool)
    ensures
        r == separates(sep, c),
{
    match sep {
        Separator::Underscore => c == '_',
        Separator::Punctuation => {
            let u: u32 = c as u32;
            if u < 0x80 {
                (0x21 <= u && u <= 0x2F || 0x3A <= u && u <= 0x40 || 0x5B <= u && u <= 0x60 || 0x7B
                    <= u && u <= 0x7E) && u != 0x5F
            } else {
                u == 0xB7 || u == 0x387 || u == 0x55F || u == 0x5F4 || u == 0x2027 || u == 0xFE13
                    || u == 0xFE55 || u == 0xFF1A || u == 0x2018 || u == 0x2019 || u == 0x2024 || u
                    == 0xFE52 || u == 0xFF07 || u == 0xFF0E || u == 0x37E || u == 0x589 || u
                    == 0x60C || u == 0x60D || u == 0x66C || u == 0x7F8 || u == 0x2044 || u == 0xFE10
                    || u == 0xFE14 || u == 0xFE50 || u == 0xFE54 || u == 0xFF0C || u == 0xFF1B
            }
        },
    }
}

/// The first place from `i` on that is no separator.
pub open spec fn run_start(s: Seq<char>, i: int, sep: Separator) -> int
    decreases s.len() - i,
{
    if i < s.len() && separates(sep, s[i]) {
        run_start(s, i + 1, sep)
    } else {
        i
    }
}

/// The first place from `i` on that is a separator or the end.
pub open spec fn run_end(s: Seq<char>, i: int, sep: Separator) -> int
    decreases s.len() - i,
{
    if i < s.len() && !separates(sep, s[i]) {
        run_end(s, i + 1, sep)
    } else {
        i
    }
}

/// Where a run starts.
pub proof fn lemma_run_start(s: Seq<char>, i: int, sep: Separator)
    ensures
        i <= run_start(s, i, sep),
        i <= s.len() ==> run_start(s, i, sep) <= s.len(),
        run_start(s, i, sep) < s.len() ==> !separates(sep, s[run_start(s, i, sep)]),
    decreases s.len() - i,
{
    if i < s.len() && separates(sep, s[i]) {
        lemma_run_start(s, i + 1, sep);
    }
}

/// Where a run ends.
pub proof fn lemma_run_end(s: Seq<char>, i: int, sep: Separator)
    ensures
        i <= run_end(s, i, sep),
        i <= s.len() ==> run_end(s, i, sep) <= s.len(),
        i < s.len() && !separates(sep, s[i]) ==> i < run_end(s, i, sep),
    decreases s.len() - i,
{
    if i < s.len() && !separates(sep, s[i]) {
        lemma_run_end(s, i + 1, sep);
    }
}

/// The maximal runs without a separator, from `i` on.
pub open spec fn runs(s: Seq<char>, i: int, sep: Separator) -> Seq<(int, int)>
    decreases s.len() - i,
{
    let a = run_start(s, i, sep);
    let b = run_end(s, a, sep);
    if a >= s.len() {
        Seq::empty()
    } else {
        proof {
            lemma_run_start(s, i, sep);
            lemma_run_end(s, a, sep);
        }
        seq![(a, b)] + runs(s, b, sep)
    }
}

/// The next run from `i` on.
fn next_run(s: &[char], i: usize, sep: Separator) -> (r: Option<(usize, usize)>)
    requires
        i <= s@.len(),
    ensures
        match r {
            None => runs(s@, i as int, sep) == Seq::<(int, int)>::empty(),
            Some((a, b)) => {
                &&& i <= a < b <= s@.len()
                &&& runs(s@, i as int, sep) == seq![(a as int, b as int)] + runs(s@, b as int, sep)
            },
        },
{
    let mut a: usize = i;
    while a < s.len() && is_separator(sep, s[a])
        invariant
            i <= a <= s@.len(),
            run_start(s@, i as int, sep) == run_start(s@, a as int, sep),
        decreases s@.len() - a,
    {
        a = a + 1;
    }
    if a >= s.len() {
        return None;
    }
    let mut b: usize = a;
    while b < s.len() && !is_separator(sep, s[b])
        invariant
            a <= b <= s@.len(),
            run_end(s@, a as int, sep) == run_end(s@, b as int, sep),
        decreases s@.len() - b,
    {
        b = b + 1;
    }
    proof {
        lemma_run_end(s@, a as int, sep);
    }
    Some((a, b))
}

/// A new part starts at place `i` of the segment: a capital after something
/// else than a capital, or the last capital of several before a lower case
/// letter.
pub open spec fn boundary(seg: Seq<char>, i: int) -> bool {
    let prev = class_of(seg[i - 1]);
    &&& class_of(seg[i]) == Class::Upper
    &&& {
        ||| prev != Class::Upper && prev != Class::Other
        ||| prev == Class::Upper && i + 1 < seg.len() && class_of(seg[i + 1]) == Class::Lower
    }
}

/// The parts of a segment, the first of which starts at `start`; boundaries are
/// looked for from `i` on.
pub open spec fn camel_parts(seg: Seq<char>, start: int, i: int) -> Seq<Seq<char>>
    decreases seg.len() - i,
{
    if i >= seg.len() {
        seq![seg.subrange(start, seg.len() as int)]
    } else if boundary(seg, i) {
        seq![seg.subrange(start, i)] + camel_parts(seg, i, i + 1)
    } else {
        camel_parts(seg, start, i + 1)
    }
}

/// The parts of the segments between underscores.
pub open spec fn raw_parts(atom: Seq<char>, i: int) -> Seq<Seq<char>>
    decreases atom.len() - i,
{
    let a = run_start(atom, i, Separator::Underscore);
    let b = run_end(atom, a, Separator::Underscore);
    if a >= atom.len() {
        Seq::empty()
    } else {
        proof {
            lemma_run_start(atom, i, Separator::Underscore);
            lemma_run_end(atom, a, Separator::Underscore);
        }
        camel_parts(atom.subrange(a, b), 0, 1) + raw_parts(atom, b)
    }
}

/// The parts of an identifier; none where the only part is the whole.
pub open spec fn parts_of(atom: Seq<char>) -> Seq<Seq<char>> {
    let parts = raw_parts(atom, 0);
    if parts.len() == 1 && parts[0].len() == atom.len() {
        Seq::empty()
    } else {
        parts
    }
}

fn is_boundary(seg: &[char], i: usize) -> (r: bool)
    requires
        1 <= i < seg@.len(),
    ensures
        r == boundary(seg@, i as int),
{
    if class(seg[i]) != Class::Upper {
        return false;
    }
    let prev = class(seg[i - 1]);
    let after_non_upper: bool = prev != Class::Upper && prev != Class::Other;
    let acronym_end: bool = prev == Class::Upper && i < seg.len() - 1 && class(seg[i + 1])
        == Class::Lower;
    after_non_upper || acronym_end
}

/// Appends the camelCase parts of the segment from `a` up to `b`.
fn split_camel(atom: &[char], a: usize, b: usize, out: &mut Vec<String>)
    requires
        a < b <= atom@.len(),
    ensures
        views(final(out)@) == views(old(out)@) + camel_parts(
            atom@.subrange(a as int, b as int),
            0,
            1,
        ),
{
    let ghost seg = atom@.subrange(a as int, b as int);
    let ghost had = views(out@);
    let part = &atom[a..b];
    assert(part@ =~= seg);
    let mut start: usize = 0;
    let mut i: usize = 1;
    assert(had + camel_parts(seg, 0, 1) =~= views(out@) + camel_parts(seg, 0, 1));
    while i < part.len()
        invariant
            part@ == seg,
            start < i <= seg.len(),
            had + camel_parts(seg, 0, 1) == views(out@) + camel_parts(
                seg,
                start as int,
                i as int,
            ),
        decreases seg.len() - i,
    {
        if is_boundary(part, i) {
            let ghost before = views(out@);
            out.push(text_of(part, start, i));
            proof {
                let piece = seg.subrange(start as int, i as int);
                assert(views(out@) =~= before.push(piece));
                assert(before + (seq![piece] + camel_parts(seg, i as int, i + 1)) =~= views(out@)
                    + camel_parts(seg, i as int, i + 1));
            }
            start = i;
        }
        i = i + 1;
    }
    let ghost before = views(out@);
    out.push(text_of(part, start, part.len()));
    proof {
        let piece = seg.subrange(start as int, seg.len() as int);
        assert(views(out@) =~= before.push(piece));
        assert(before + seq![piece] =~= before.push(piece));
    }
}

/// Splits one atom into the parts of an identifier, in their own case.
///
/// Nothing where there is nothing to add: `sha256`, `Foo` and `HTTP` are one
/// part each. `parseHTTPResponse` gives `parse`, `HTTP` and `Response`;
/// `utf8Decode` gives `utf8` and `Decode`; `__init__` gives `init`.
pub fn identifier_parts(atom: &str) -> (parts: Vec<String>)
    ensures
        views(parts@) == parts_of(atom@),
{
    let cs = chars_of(atom);
    let mut parts: Vec<String> = Vec::new();
    let mut at: usize = 0;
    let mut more: bool = true;
    assert(views(parts@) + raw_parts(atom@, 0) =~= raw_parts(atom@, 0));
    while more
        invariant
            cs@ == atom@,
            at <= cs@.len(),
            raw_parts(atom@, 0) == views(parts@) + if more {
                raw_parts(atom@, at as int)
            } else {
                Seq::empty()
            },
        decreases
                cs@.len() - at + if more {
                    1int
                } else {
                    0int
                },
    {
        match next_run(cs.as_slice(), at, Separator::Underscore) {
            None => {
                more = false;
                proof {
                    lemma_no_run(atom@, at as int);
                    assert(raw_parts(atom@, at as int) =~= Seq::empty());
                }
            },
            Some((a, b)) => {
                let ghost before = views(parts@);
                split_camel(cs.as_slice(), a, b, &mut parts);
                proof {
                    lemma_one_run(atom@, at as int, a as int, b as int);
                    let own = camel_parts(atom@.subrange(a as int, b as int), 0, 1);
                    assert(before + (own + raw_parts(atom@, b as int)) =~= (before + own)
                        + raw_parts(atom@, b as int));
                }
                at = b;
            },
        }
    }
    assert(raw_parts(atom@, 0) =~= views(parts@));
    if parts.len() == 1 {
        let only = chars_of(parts[0].as_str());
        assert(views(parts@)[0] == only@);
        if only.len() == cs.len() {
            return Vec::new();
        }
    }
    parts
}

proof fn lemma_no_run(s: Seq<char>, i: int)
    requires
        runs(s, i, Separator::Underscore) == Seq::<(int, int)>::empty(),
    ensures
        run_start(s, i, Separator::Underscore) >= s.len(),
{
    let a = run_start(s, i, Separator::Underscore);
    if a < s.len() {
        let b = run_end(s, a, Separator::Underscore);
        assert((seq![(a, b)] + runs(s, b, Separator::Underscore)).len() > 0);
    }
}

proof fn lemma_one_run(s: Seq<char>, i: int, a: int, b: int)
    requires
        0 <= i,
        runs(s, i, Separator::Underscore) == seq![(a, b)] + runs(s, b, Separator::Underscore),
    ensures
        a == run_start(s, i, Separator::Underscore) < s.len(),
        b == run_end(s, a, Separator::Underscore),
{
    let x = run_start(s, i, Separator::Underscore);
    let y = run_end(s, x, Separator::Underscore);
    assert(runs(s, i, Separator::Underscore).len() > 0);
    assert(x < s.len());
    assert((seq![(x, y)] + runs(s, y, Separator::Underscore))[0] == (x, y));
    assert((seq![(a, b)] + runs(s, b, Separator::Underscore))[0] == (a, b));
}

/// An atom: where its bytes start, and its characters.
pub ghost struct Atom {
    pub start: nat,
    pub text: Seq<char>,
}

/// The run holds a letter or a digit.
pub open spec fn has_alphanumeric(s: Seq<char>) -> bool {
    exists|i: int| 0 <= i < s.len() && alphanumeric(#[trigger] s[i])
}

/// The atoms among the runs of a word that starts at byte `base`, from character
/// `i` on.
pub open spec fn word_atoms(base: nat, w: Seq<char>, i: int) -> Seq<Atom>
    decreases w.len() - i,
{
    let a = run_start(w, i, Separator::Punctuation);
    let b = run_end(w, a, Separator::Punctuation);
    if a >= w.len() {
        Seq::empty()
    } else {
        proof {
            lemma_run_start(w, i, Separator::Punctuation);
            lemma_run_end(w, a, Separator::Punctuation);
        }
        if has_alphanumeric(w.subrange(a, b)) {
            seq![Atom { start: base + byte_len(w.take(a)), text: w.subrange(a, b) }] + word_atoms(
                base,
                w,
                b,
            )
        } else {
            word_atoms(base, w, b)
        }
    }
}

/// The words with where their bytes start, by value.
pub open spec fn word_views(words: Seq<(usize, &str)>) -> Seq<(nat, Seq<char>)> {
    Seq::new(words.len(), |i: int| (words[i].0 as nat, words[i].1@))
}

/// The atoms of the first `n` words.
pub open spec fn atoms_of(words: Seq<(nat, Seq<char>)>, n: int) -> Seq<Atom>
    decreases n,
{
    if n <= 0 {
        Seq::empty()
    } else {
        atoms_of(words, n - 1) + word_atoms(words[n - 1].0, words[n - 1].1, 0)
    }
}

/// Text as terms have it: in lower case.
pub open spec fn folded(s: Seq<char>) -> Seq<char> {
    if exists|i: int| 0 <= i < s.len() && uppercase(#[trigger] s[i]) {
        lowercase(s)
    } else {
        s
    }
}

/// The terms of the first `n` parts, each once and none the whole.
pub open spec fn part_terms(whole: Seq<char>, parts: Seq<Seq<char>>, n: int) -> Seq<Seq<char>>
    decreases n,
{
    if n <= 0 {
        Seq::empty()
    } else {
        let before = part_terms(whole, parts, n - 1);
        let term = folded(parts[n - 1]);
        if term != whole && !before.contains(term) {
            before.push(term)
        } else {
            before
        }
    }
}

/// A [`Token`] by value.
pub ghost struct TokenView {
    pub term: Seq<char>,
    pub position: u32,
    pub start: nat,
    pub end: nat,
}

/// The terms of an atom: the whole, then, where identifiers are split, its
/// parts.
pub open spec fn atom_terms(text: Seq<char>, split: bool) -> Seq<Seq<char>> {
    let whole = folded(text);
    let parts = parts_of(text);
    if split {
        seq![whole] + part_terms(whole, parts, parts.len() as int)
    } else {
        seq![whole]
    }
}

/// The tokens of an atom at a position.
pub open spec fn atom_tokens(atom: Atom, position: nat, split: bool) -> Seq<TokenView> {
    let terms = atom_terms(atom.text, split);
    Seq::new(
        terms.len(),
        |i: int|
            TokenView {
                term: terms[i],
                position: position as u32,
                start: atom.start,
                end: atom.start + byte_len(atom.text),
            },
    )
}

/// The tokens of the first `n` atoms.
pub open spec fn tokens_of(atoms: Seq<Atom>, n: int, split: bool) -> Seq<TokenView>
    decreases n,
{
    if n <= 0 {
        Seq::empty()
    } else {
        tokens_of(atoms, n - 1, split) + atom_tokens(atoms[n - 1], (n - 1) as nat, split)
    }
}

/// A term occurrence.
#[derive(Debug, PartialEq, Eq)]
pub struct Token {
    /// The term, in lower case.
    pub term: String,
    /// The number of the atom within the document, from zero.
    pub position: u32,
    /// The bytes of the source atom, of the whole atom even for a part.
    pub span: Range<usize>,
}

impl View for Token {
    type V = TokenView;

    open spec fn view(&self) -> TokenView {
        TokenView {
            term: self.term@,
            position: self.position,
            start: self.span.start as nat,
            end: self.span.end as nat,
        }
    }
}

/// The tokens by value.
pub open spec fn token_views(ts: Seq<Token>) -> Seq<TokenView> {
    Seq::new(ts.len(), |i: int| ts[i]@)
}

/// The text in lower case.
fn fold(cs: &[char]) -> (r: String)
    ensures
        r@ == folded(cs@),
{
    let s: String = text_of(cs, 0, cs.len());
    assert(cs@.subrange(0, cs@.len() as int) =~= cs@);
    let mut i: usize = 0;
    while i < cs.len()
        invariant
            i <= cs@.len(),
            s@ == cs@,
            forall|k: int| 0 <= k < i ==> !uppercase(#[trigger] cs@[k]),
        decreases cs@.len() - i,
    {
        if cs[i].is_uppercase() {
            return s.as_str().to_lowercase();
        }
        i = i + 1;
    }
    s
}

/// The terms of the parts of an atom.
fn fold_parts(whole: &str, parts: &Vec<String>) -> (r: Vec<String>)
    ensures
        views(r@) == part_terms(whole@, views(parts@), parts@.len() as int),
{
    let mut r: Vec<String> = Vec::new();
    let mut i: usize = 0;
    assert(views(r@) =~= Seq::empty());
    while i < parts.len()
        invariant
            i <= parts@.len(),
            views(r@) == part_terms(whole@, views(parts@), i as int),
        decreases parts@.len() - i,
    {
        let ghost had = views(r@);
        let cs = chars_of(parts[i].as_str());
        let term = fold(cs.as_slice());
        assert(cs@ == views(parts@)[i as int]);
        if !same(term.as_str(), whole) && !is_among(&r, term.as_str()) {
            r.push(term);
            assert(views(r@) =~= had.push(term@));
        }
        i = i + 1;
    }
    r
}

/// Appends a token for each of the terms.
fn push_terms(out: &mut Vec<Token>, terms: &Vec<String>, position: u32, start: usize, end: usize)
    requires
        start <= end,
    ensures
        token_views(final(out)@) == token_views(old(out)@) + Seq::new(
            terms@.len(),
            |i: int|
                TokenView {
                    term: views(terms@)[i],
                    position,
                    start: start as nat,
                    end: end as nat,
                },
        ),
{
    let ghost had = token_views(out@);
    let ghost all = Seq::new(
        terms@.len(),
        |i: int|
            TokenView {
                term: views(terms@)[i],
                position,
                start: start as nat,
                end: end as nat,
            },
    );
    let mut i: usize = 0;
    assert(token_views(out@) =~= had + all.take(0));
    while i < terms.len()
        invariant
            i <= terms@.len(),
            all.len() == terms@.len(),
            forall|k: int|
                #![trigger all[k]]
                0 <= k < all.len() ==> all[k] == (TokenView {
                    term: terms@[k]@,
                    position,
                    start: start as nat,
                    end: end as nat,
                }),
            token_views(out@) == had + all.take(i as int),
        decreases terms@.len() - i,
    {
        let ghost before = token_views(out@);
        out.push(Token { term: terms[i].clone(), position, span: start..end });
        i = i + 1;
        proof {
            assert(token_views(out@) =~= before.push(all[i - 1]));
            assert(had + all.take(i as int) =~= (had + all.take(i - 1)).push(all[i - 1]));
        }
    }
    assert(all.take(i as int) =~= all);
}

/// Appends the tokens of one atom.
fn push_atom(out: &mut Vec<Token>, atom: &[char], start: usize, position: u32, split: bool)
    requires
        start + byte_len(atom@) <= usize::MAX,
    ensures
        token_views(final(out)@) == token_views(old(out)@) + atom_tokens(
            Atom { start: start as nat, text: atom@ },
            position as nat,
            split,
        ),
{
    let ghost had = token_views(out@);
    let end: usize = start + bytes_of(atom);
    let whole = fold(atom);
    let mut terms: Vec<String> = Vec::new();
    if split {
        let text: String = text_of(atom, 0, atom.len());
        assert(atom@.subrange(0, atom@.len() as int) =~= atom@);
        let parts = identifier_parts(text.as_str());
        let mut more = fold_parts(whole.as_str(), &parts);
        let ghost more_views = views(more@);
        terms.push(whole);
        assert(views(terms@) =~= seq![whole@]);
        terms.append(&mut more);
        assert(views(terms@) =~= seq![whole@] + more_views);
    } else {
        terms.push(whole);
        assert(views(terms@) =~= seq![whole@]);
    }
    assert(views(terms@) == atom_terms(atom@, split));
    push_terms(out, &terms, position, start, end);
    assert(token_views(out@) =~= had + atom_tokens(
        Atom { start: start as nat, text: atom@ },
        position as nat,
        split,
    ));
}

/// The bytes that the characters take.
fn bytes_of(cs: &[char]) -> (n: usize)
    requires
        byte_len(cs@) <= usize::MAX,
    ensures
        n == byte_len(cs@),
{
    let mut n: usize = 0;
    let mut i: usize = 0;
    while i < cs.len()
        invariant
            i <= cs@.len(),
            byte_len(cs@) <= usize::MAX,
            n == byte_len(cs@.take(i as int)),
        decreases cs@.len() - i,
    {
        proof {
            let head = cs@.take(i as int);
            lemma_encode_push(head, cs@[i as int]);
            assert(cs@.take(i + 1) =~= head.push(cs@[i as int]));
            lemma_encode_concat(cs@.take(i + 1), cs@.skip(i + 1));
            assert(cs@ =~= cs@.take(i + 1) + cs@.skip(i + 1));
        }
        n = n + char_width(cs[i]);
        i = i + 1;
    }
    assert(cs@.take(i as int) =~= cs@);
    n
}

fn holds_alphanumeric(cs: &[char]) -> (r: bool)
    ensures
        r == has_alphanumeric(cs@),
{
    let mut i: usize = 0;
    while i < cs.len()
        invariant
            i <= cs@.len(),
            forall|k: int| 0 <= k < i ==> !alphanumeric(#[trigger] cs@[k]),
        decreases cs@.len() - i,
    {
        if cs[i].is_alphanumeric() {
            assert(alphanumeric(cs@[i as int]));
            return true;
        }
        i = i + 1;
    }
    false
}

proof fn lemma_subrange_bytes(w: Seq<char>, a: int, b: int)
    requires
        0 <= a <= b <= w.len(),
    ensures
        byte_len(w.take(b)) == byte_len(w.take(a)) + byte_len(w.subrange(a, b)),
        byte_len(w.take(b)) <= byte_len(w),
{
    lemma_encode_concat(w.take(a), w.subrange(a, b));
    assert(w.take(b) =~= w.take(a) + w.subrange(a, b));
    lemma_encode_concat(w.take(b), w.skip(b));
    assert(w =~= w.take(b) + w.skip(b));
}

proof fn lemma_word_atoms(base: nat, w: Seq<char>, i: int)
    requires
        0 <= i <= w.len(),
    ensures
        word_atoms(base, w, i).len() <= w.len() - i,
    decreases w.len() - i,
{
    let a = run_start(w, i, Separator::Punctuation);
    let b = run_end(w, a, Separator::Punctuation);
    lemma_run_start(w, i, Separator::Punctuation);
    lemma_run_end(w, a, Separator::Punctuation);
    if a < w.len() {
        lemma_word_atoms(base, w, b);
    }
}

proof fn lemma_word_step(base: nat, w: Seq<char>, i: int, a: int, b: int)
    requires
        0 <= i <= a < b <= w.len(),
        runs(w, i, Separator::Punctuation) == seq![(a, b)] + runs(w, b, Separator::Punctuation),
    ensures
        word_atoms(base, w, i) == if has_alphanumeric(w.subrange(a, b)) {
            seq![Atom { start: base + byte_len(w.take(a)), text: w.subrange(a, b) }] + word_atoms(
                base,
                w,
                b,
            )
        } else {
            word_atoms(base, w, b)
        },
{
    let x = run_start(w, i, Separator::Punctuation);
    let y = run_end(w, x, Separator::Punctuation);
    assert(runs(w, i, Separator::Punctuation).len() > 0);
    assert(x < w.len());
    assert((seq![(x, y)] + runs(w, y, Separator::Punctuation))[0] == (x, y));
    assert((seq![(a, b)] + runs(w, b, Separator::Punctuation))[0] == (a, b));
}

proof fn lemma_word_done(base: nat, w: Seq<char>, i: int)
    requires
        runs(w, i, Separator::Punctuation) == Seq::<(int, int)>::empty(),
    ensures
        word_atoms(base, w, i) == Seq::<Atom>::empty(),
{
    let a = run_start(w, i, Separator::Punctuation);
    if a < w.len() {
        let b = run_end(w, a, Separator::Punctuation);
        assert((seq![(a, b)] + runs(w, b, Separator::Punctuation)).len() > 0);
    }
}

/// Appends the tokens of one word; `atoms` are those before it.
fn push_word(
    out: &mut Vec<Token>,
    base: usize,
    word: &str,
    position: u32,
    split: bool,
    Ghost(atoms): Ghost<Seq<Atom>>,
) -> (next: u32)
    requires
        position == atoms.len(),
        position + word@.len() <= u32::MAX,
        base + byte_len(word@) <= usize::MAX,
        token_views(old(out)@) == tokens_of(atoms, atoms.len() as int, split),
    ensures
        ({
            let all = atoms + word_atoms(base as nat, word@, 0);
            &&& next == all.len()
            &&& token_views(final(out)@) == tokens_of(all, all.len() as int, split)
        }),
{
    let cs = chars_of(word);
    let mut at: usize = 0;
    let mut next: u32 = position;
    let mut more: bool = true;
    let ghost mut done = atoms;
    let ghost all = atoms + word_atoms(base as nat, word@, 0);
    while more
        invariant
            cs@ == word@,
            at <= cs@.len(),
            next == done.len(),
            next + (cs@.len() - at) <= u32::MAX,
            base + byte_len(word@) <= usize::MAX,
            token_views(out@) == tokens_of(done, done.len() as int, split),
            all == done + if more {
                word_atoms(base as nat, word@, at as int)
            } else {
                Seq::empty()
            },
        decreases
                cs@.len() - at + if more {
                    1int
                } else {
                    0int
                },
    {
        match next_run(cs.as_slice(), at, Separator::Punctuation) {
            None => {
                more = false;
                proof {
                    lemma_word_done(base as nat, word@, at as int);
                }
            },
            Some((a, b)) => {
                let run = &cs[a..b];
                proof {
                    lemma_word_step(base as nat, word@, at as int, a as int, b as int);
                    lemma_subrange_bytes(word@, 0, a as int);
                    lemma_subrange_bytes(word@, a as int, b as int);
                }
                if holds_alphanumeric(run) {
                    let head = &cs[0..a];
                    assert(head@ =~= word@.take(a as int));
                    let start: usize = base + bytes_of(head);
                    push_atom(out, run, start, next, split);
                    proof {
                        let atom = Atom { start: start as nat, text: run@ };
                        let grown = done.push(atom);
                        lemma_tokens_prefix(done, grown, done.len() as int, split);
                        assert(done + (seq![atom] + word_atoms(base as nat, word@, b as int))
                            =~= grown + word_atoms(base as nat, word@, b as int));
                        done = grown;
                    }
                    next = next + 1;
                }
                at = b;
            },
        }
    }
    assert(all =~= done);
    next
}

proof fn lemma_tokens_prefix(a: Seq<Atom>, b: Seq<Atom>, n: int, split: bool)
    requires
        0 <= n <= a.len(),
        n <= b.len(),
        forall|i: int| 0 <= i < n ==> a[i] == b[i],
    ensures
        tokens_of(a, n, split) == tokens_of(b, n, split),
    decreases n,
{
    if n > 0 {
        lemma_tokens_prefix(a, b, n - 1, split);
    }
}

/// The characters of the first `n` words.
pub open spec fn chars_upto(words: Seq<(nat, Seq<char>)>, n: int) -> nat
    decreases n,
{
    if n <= 0 {
        0
    } else {
        chars_upto(words, n - 1) + words[n - 1].1.len()
    }
}

/// The numbers of atoms and bytes fit.
pub open spec fn words_fit(words: Seq<(nat, Seq<char>)>) -> bool {
    &&& chars_upto(words, words.len() as int) <= u32::MAX
    &&& forall|i: int|
        #![trigger words[i]]
        0 <= i < words.len() ==> words[i].0 + byte_len(words[i].1) <= usize::MAX
}

proof fn lemma_chars_upto(words: Seq<(nat, Seq<char>)>, i: int, n: int)
    requires
        0 <= i <= n <= words.len(),
    ensures
        chars_upto(words, i) <= chars_upto(words, n),
    decreases n - i,
{
    if i < n {
        lemma_chars_upto(words, i, n - 1);
    }
}

/// The tokens of words that start at the given bytes.
pub fn tokens_of_words(words: &[(usize, &str)], split: bool) -> (out: Vec<Token>)
    requires
        words_fit(word_views(words@)),
    ensures
        ({
            let atoms = atoms_of(word_views(words@), words@.len() as int);
            token_views(out@) == tokens_of(atoms, atoms.len() as int, split)
        }),
{
    let ghost ws = word_views(words@);
    let mut out: Vec<Token> = Vec::new();
    let mut position: u32 = 0;
    let mut i: usize = 0;
    assert(token_views(out@) =~= Seq::empty());
    while i < words.len()
        invariant
            i <= words@.len(),
            ws == word_views(words@),
            words_fit(ws),
            position == atoms_of(ws, i as int).len() <= chars_upto(ws, i as int),
            token_views(out@) == tokens_of(
                atoms_of(ws, i as int),
                atoms_of(ws, i as int).len() as int,
                split,
            ),
        decreases words@.len() - i,
    {
        proof {
            assert(ws[i as int] == (words@[i as int].0 as nat, words@[i as int].1@));
            lemma_chars_upto(ws, i + 1, ws.len() as int);
            lemma_word_atoms(ws[i as int].0, ws[i as int].1, 0);
        }
        position = push_word(
            &mut out,
            words[i].0,
            words[i].1,
            position,
            split,
            Ghost(atoms_of(ws, i as int)),
        );
        i = i + 1;
    }
    out
}

/// The words of a text between Unicode word boundaries, each with where its
/// bytes start.
pub uninterp spec fn word_bounds(text: Seq<char>) -> Seq<(nat, Seq<char>)>;

/// The text of the first `n` words.
pub open spec fn words_text(words: Seq<(nat, Seq<char>)>, n: int) -> Seq<char>
    decreases n,
{
    if n <= 0 {
        Seq::empty()
    } else {
        words_text(words, n - 1) + words[n - 1].1
    }
}

/// `UnicodeSegmentation::split_word_bound_indices`: the substrings between word
/// boundaries with their byte offsets. Together they are the text, and each
/// starts where those before it end.
#[verifier::external_body]
fn split_words(text: &str) -> (r: Vec<(usize, &str)>)
    ensures
        word_views(r@) == word_bounds(text@),
        words_text(word_views(r@), r@.len() as int) == text@,
        forall|i: int|
            #![trigger word_views(r@)[i]]
            0 <= i < r@.len() ==> word_views(r@)[i].0 == byte_len(words_text(word_views(r@), i)),
{
    text.split_word_bound_indices().collect()
}

proof fn lemma_words_text(words: Seq<(nat, Seq<char>)>, i: int, n: int)
    requires
        0 <= i <= n <= words.len(),
    ensures
        chars_upto(words, n) == words_text(words, n).len(),
        byte_len(words_text(words, i)) <= byte_len(words_text(words, n)),
    decreases n,
{
    if n > 0 {
        lemma_words_text(
            words,
            if i < n {
                i
            } else {
                n - 1
            },
            n - 1,
        );
        lemma_encode_concat(words_text(words, n - 1), words[n - 1].1);
    }
}

proof fn lemma_atoms_upto(words: Seq<(nat, Seq<char>)>, n: int)
    requires
        0 <= n <= words.len(),
    ensures
        atoms_of(words, n).len() <= chars_upto(words, n),
    decreases n,
{
    if n > 0 {
        lemma_atoms_upto(words, n - 1);
        lemma_word_atoms(words[n - 1].0, words[n - 1].1, 0);
    }
}

/// The atoms of a text.
pub open spec fn text_atoms(text: Seq<char>) -> Seq<Atom> {
    atoms_of(word_bounds(text), word_bounds(text).len() as int)
}

/// The tokens of a text.
pub open spec fn text_tokens(text: Seq<char>, split: bool) -> Seq<TokenView> {
    tokens_of(text_atoms(text), text_atoms(text).len() as int, split)
}

/// The atom is the stretch of the text from character `a` on.
pub open spec fn stands_at(text: Seq<char>, atom: Atom, a: int) -> bool {
    &&& 0 <= a
    &&& a + atom.text.len() <= text.len()
    &&& atom.text == text.subrange(a, a + atom.text.len())
    &&& atom.start == byte_len(text.take(a))
}

/// The atom is a stretch of the text, and holds a letter or a digit.
pub open spec fn stands_in(text: Seq<char>, atom: Atom) -> bool {
    has_alphanumeric(atom.text) && exists|a: int| #[trigger] stands_at(text, atom, a)
}

/// The atoms are stretches of the text, one behind the other, and none touches the
/// bytes of another.
pub open spec fn atoms_apart(text: Seq<char>, atoms: Seq<Atom>) -> bool {
    &&& forall|i: int| 0 <= i < atoms.len() ==> stands_in(text, #[trigger] atoms[i])
    &&& forall|i: int, j: int|
        0 <= i < j < atoms.len() ==> (#[trigger] atoms[i]).start + byte_len(atoms[i].text) <= (
        #[trigger] atoms[j]).start
}

/// An atom ends within the text that it stands in.
pub proof fn lemma_stands(text: Seq<char>, atom: Atom)
    requires
        stands_in(text, atom),
    ensures
        atom.start < atom.start + byte_len(atom.text) <= byte_len(text),
{
    let a = choose|a: int| #[trigger] stands_at(text, atom, a);
    let b = a + atom.text.len();
    assert(text.take(a) + atom.text =~= text.take(b));
    assert(text.take(b) + text.skip(b) =~= text);
    lemma_encode_concat(text.take(a), atom.text);
    lemma_encode_concat(text.take(b), text.skip(b));
    lemma_byte_len(atom.text);
}

/// An atom stands in a longer text where it stands in a shorter one.
proof fn lemma_stands_longer(text: Seq<char>, more: Seq<char>, atom: Atom)
    requires
        stands_in(text, atom),
    ensures
        stands_in(text + more, atom),
{
    let a = choose|a: int| #[trigger] stands_at(text, atom, a);
    let all = text + more;
    assert(all.subrange(a, a + atom.text.len()) =~= text.subrange(a, a + atom.text.len()));
    assert(all.take(a) =~= text.take(a));
    assert(stands_at(all, atom, a));
}

/// The atoms of the last word of a text, from character `i` of the word on.
proof fn lemma_word_apart(front: Seq<char>, w: Seq<char>, i: int)
    requires
        0 <= i <= w.len(),
    ensures
        ({
            let atoms = word_atoms(byte_len(front), w, i);
            &&& atoms_apart(front + w, atoms)
            &&& forall|k: int|
                0 <= k < atoms.len() ==> byte_len(front) + byte_len(w.take(i)) <= (
                #[trigger] atoms[k]).start
        }),
    decreases w.len() - i,
{
    let base = byte_len(front);
    let a = run_start(w, i, Separator::Punctuation);
    let b = run_end(w, a, Separator::Punctuation);
    lemma_run_start(w, i, Separator::Punctuation);
    lemma_run_end(w, a, Separator::Punctuation);
    if a < w.len() {
        lemma_word_apart(front, w, b);
        let rest = word_atoms(base, w, b);
        assert(w.take(i) + w.subrange(i, a) =~= w.take(a));
        assert(w.take(a) + w.subrange(a, b) =~= w.take(b));
        lemma_encode_concat(w.take(i), w.subrange(i, a));
        lemma_encode_concat(w.take(a), w.subrange(a, b));
        if has_alphanumeric(w.subrange(a, b)) {
            let atom = Atom { start: base + byte_len(w.take(a)), text: w.subrange(a, b) };
            let all = front + w;
            let at = front.len() + a;
            assert(all.subrange(at, at + atom.text.len()) =~= atom.text);
            assert(all.take(at) =~= front + w.take(a));
            lemma_encode_concat(front, w.take(a));
            assert(stands_at(all, atom, at));
            let atoms = word_atoms(base, w, i);
            assert(atoms == seq![atom] + rest);
            assert forall|k: int| 0 <= k < atoms.len() implies stands_in(all, #[trigger] atoms[k])
                && base + byte_len(w.take(i)) <= atoms[k].start by {
                if k > 0 {
                    assert(atoms[k] == rest[k - 1]);
                }
            }
            assert forall|j: int, k: int| 0 <= j < k < atoms.len() implies (
            #[trigger] atoms[j]).start + byte_len(atoms[j].text) <= (
            #[trigger] atoms[k]).start by {
                assert(atoms[k] == rest[k - 1]);
                if j > 0 {
                    assert(atoms[j] == rest[j - 1]);
                }
            }
        }
    }
}

/// The atoms of words that make a text are apart in it.
proof fn lemma_words_apart(words: Seq<(nat, Seq<char>)>, n: int)
    requires
        0 <= n <= words.len(),
        forall|i: int|
            #![trigger words[i]]
            0 <= i < words.len() ==> words[i].0 == byte_len(words_text(words, i)),
    ensures
        atoms_apart(words_text(words, n), atoms_of(words, n)),
    decreases n,
{
    if n > 0 {
        lemma_words_apart(words, n - 1);
        let front = words_text(words, n - 1);
        let w = words[n - 1].1;
        let before = atoms_of(words, n - 1);
        let own = word_atoms(words[n - 1].0, w, 0);
        let all = atoms_of(words, n);
        lemma_word_apart(front, w, 0);
        assert(all == before + own);
        assert forall|i: int| 0 <= i < all.len() implies stands_in(
            front + w,
            #[trigger] all[i],
        ) by {
            if i < before.len() {
                assert(all[i] == before[i]);
                lemma_stands_longer(front, w, before[i]);
            } else {
                assert(all[i] == own[i - before.len()]);
            }
        }
        assert forall|i: int, j: int| 0 <= i < j < all.len() implies (#[trigger] all[i]).start
            + byte_len(all[i].text) <= (#[trigger] all[j]).start by {
            if j < before.len() {
                assert(all[i] == before[i] && all[j] == before[j]);
            } else if i < before.len() {
                assert(all[i] == before[i] && all[j] == own[j - before.len()]);
                lemma_stands(front, before[i]);
            } else {
                assert(all[i] == own[i - before.len()] && all[j] == own[j - before.len()]);
            }
        }
    }
}

/// The tokens of a text, in source order.
pub type Tokens = Vec<Token>;

fn tokens(text: &str, split: bool) -> (r: Tokens)
    requires
        text@.len() <= u32::MAX,
    ensures
        token_views(r@) == text_tokens(text@, split),
        text_atoms(text@).len() <= text@.len(),
        atoms_apart(text@, text_atoms(text@)),
{
    let words = split_words(text);
    let bytes: &[u8] = text.as_bytes();
    proof {
        assert(bytes@.len() == bytes.len());
        let ws = word_views(words@);
        let n = ws.len() as int;
        lemma_words_text(ws, n, n);
        lemma_atoms_upto(ws, n);
        lemma_words_apart(ws, n);
        assert forall|i: int| #![trigger ws[i]] 0 <= i < n implies ws[i].0 + byte_len(ws[i].1)
            <= usize::MAX by {
            lemma_encode_concat(words_text(ws, i), ws[i].1);
            lemma_words_text(ws, i + 1, n);
        }
    }
    tokens_of_words(words.as_slice(), split)
}

/// Index-side tokens: every atom, followed by its identifier parts. Positions take 32
/// bits. How many atoms a text has is known only once it is cut, so it is the
/// characters, of which there are at least as many, that must not be more.
pub fn tokenize(text: &str) -> (r: Tokens)
    requires
        text@.len() <= u32::MAX,
    ensures
        token_views(r@) == text_tokens(text@, true),
        text_atoms(text@).len() <= text@.len(),
        atoms_apart(text@, text_atoms(text@)),
{
    tokens(text, true)
}

/// Query-side tokens: whole atoms only. Atoms and positions are those of
/// [`tokenize`], and so is the limit on the characters.
pub fn atoms(text: &str) -> (r: Tokens)
    requires
        text@.len() <= u32::MAX,
    ensures
        token_views(r@) == text_tokens(text@, false),
        token_views(r@) == firsts(
            text_tokens(text@, true),
            text_tokens(text@, true).len() as int,
        ),
        text_atoms(text@).len() <= text@.len(),
        atoms_apart(text@, text_atoms(text@)),
{
    let r = tokens(text, false);
    proof {
        lemma_atoms_are_tokens_minus_parts(text@);
    }
    r
}

/// The terms of an atom are all different.
proof fn lemma_part_terms(whole: Seq<char>, parts: Seq<Seq<char>>, n: int)
    ensures
        part_terms(whole, parts, n).no_duplicates(),
        !part_terms(whole, parts, n).contains(whole),
    decreases n,
{
    if n > 0 {
        lemma_part_terms(whole, parts, n - 1);
        let before = part_terms(whole, parts, n - 1);
        let term = folded(parts[n - 1]);
        lemma_push_contains(before, term, whole);
        if term != whole && !before.contains(term) {
            let after = before.push(term);
            assert forall|i: int, j: int| 0 <= i < after.len() && 0 <= j < after.len() && i
                != j implies after[i] != after[j] by {
                if i < before.len() && j < before.len() {
                    assert(before[i] != before[j]);
                } else if i < before.len() {
                    assert(before.contains(before[i]));
                } else {
                    assert(before.contains(before[j]));
                }
            }
        }
    }
}

/// The whole atom comes first among its terms, and no term comes twice.
pub proof fn lemma_atom_terms(text: Seq<char>, split: bool)
    ensures
        atom_terms(text, split).len() > 0,
        atom_terms(text, split)[0] == folded(text),
        atom_terms(text, split).no_duplicates(),
{
    let whole = folded(text);
    let parts = parts_of(text);
    let more = part_terms(whole, parts, parts.len() as int);
    lemma_part_terms(whole, parts, parts.len() as int);
    let all = seq![whole] + more;
    assert forall|i: int, j: int| 0 <= i < all.len() && 0 <= j < all.len() && i != j implies all[i]
        != all[j] by {
        if i == 0 {
            assert(more.contains(more[j - 1]));
        } else if j == 0 {
            assert(more.contains(more[i - 1]));
        } else {
            assert(more[i - 1] != more[j - 1]);
        }
    }
}

/// A token's bytes do not end before they start.
pub proof fn lemma_token_spans(atoms: Seq<Atom>, n: int, split: bool)
    ensures
        forall|i: int|
            0 <= i < tokens_of(atoms, n, split).len() ==> (#[trigger] tokens_of(
                atoms,
                n,
                split,
            )[i]).start <= tokens_of(atoms, n, split)[i].end,
    decreases n,
{
    if n > 0 {
        lemma_token_spans(atoms, n - 1, split);
        let before = tokens_of(atoms, n - 1, split);
        let ts = tokens_of(atoms, n, split);
        assert forall|i: int| 0 <= i < ts.len() implies (#[trigger] ts[i]).start <= ts[i].end by {
            if i < before.len() {
                assert(ts[i] == before[i]);
            }
        }
    }
}

/// A token has the bytes of the atom at its position: the whole atom even where its
/// term is a part.
pub proof fn lemma_tokens_are_of_atoms(atoms: Seq<Atom>, n: int, split: bool)
    requires
        0 <= n <= atoms.len() <= u32::MAX,
    ensures
        forall|i: int|
            0 <= i < tokens_of(atoms, n, split).len() ==> ({
                let t = #[trigger] tokens_of(atoms, n, split)[i];
                let atom = atoms[t.position as int];
                &&& t.position < n
                &&& t.start == atom.start
                &&& t.end == atom.start + byte_len(atom.text)
                &&& atom_terms(atom.text, split).contains(t.term)
            }),
    decreases n,
{
    if n > 0 {
        lemma_tokens_are_of_atoms(atoms, n - 1, split);
        let before = tokens_of(atoms, n - 1, split);
        let own = atom_tokens(atoms[n - 1], (n - 1) as nat, split);
        let ts = tokens_of(atoms, n, split);
        assert forall|i: int| 0 <= i < ts.len() implies ({
            let t = #[trigger] ts[i];
            let atom = atoms[t.position as int];
            &&& t.position < n
            &&& t.start == atom.start
            &&& t.end == atom.start + byte_len(atom.text)
            &&& atom_terms(atom.text, split).contains(t.term)
        }) by {
            if i < before.len() {
                assert(ts[i] == before[i]);
            } else {
                assert(ts[i] == own[i - before.len()]);
            }
        }
    }
}

/// Tokens come in the order of their positions, which are the numbers of their
/// atoms, and no term comes twice at one position.
pub proof fn lemma_token_positions(atoms: Seq<Atom>, n: int, split: bool)
    requires
        0 <= n <= atoms.len() <= u32::MAX,
    ensures
        ({
            let ts = tokens_of(atoms, n, split);
            &&& forall|i: int| 0 <= i < ts.len() ==> (#[trigger] ts[i]).position < n
            &&& forall|i: int, j: int|
                0 <= i < j < ts.len() ==> (#[trigger] ts[i]).position <= (
                #[trigger] ts[j]).position
            &&& forall|i: int, j: int|
                0 <= i < j < ts.len() && (#[trigger] ts[i]).position == (
                #[trigger] ts[j]).position ==> ts[i].term != ts[j].term
        }),
    decreases n,
{
    if n > 0 {
        lemma_token_positions(atoms, n - 1, split);
        lemma_atom_terms(atoms[n - 1].text, split);
        let before = tokens_of(atoms, n - 1, split);
        let own = atom_tokens(atoms[n - 1], (n - 1) as nat, split);
        let terms = atom_terms(atoms[n - 1].text, split);
        let ts = before + own;
        assert forall|i: int, j: int|
            0 <= i < j < ts.len() && (#[trigger] ts[i]).position == (
            #[trigger] ts[j]).position implies ts[i].term != ts[j].term by {
            if i < before.len() && j >= before.len() {
                assert(before[i].position < n - 1);
            } else if i >= before.len() {
                assert(terms[i - before.len()] != terms[j - before.len()]);
            }
        }
    }
}

/// Token `i` is `t` and the first at its position.
pub open spec fn first_at(ts: Seq<TokenView>, i: int, t: TokenView) -> bool {
    &&& 0 <= i < ts.len()
    &&& ts[i] == t
    &&& forall|j: int| 0 <= j < i ==> (#[trigger] ts[j]).position < t.position
}

/// The query side's tokens are those of the index side without the parts: the
/// first at each position, one for each atom.
pub proof fn lemma_atoms_among_tokens(atoms: Seq<Atom>, n: int, k: int)
    requires
        0 <= k < n <= atoms.len() <= u32::MAX,
    ensures
        tokens_of(atoms, n, false).len() == n,
        tokens_of(atoms, n, false)[k] == (TokenView {
            term: folded(atoms[k].text),
            position: k as u32,
            start: atoms[k].start,
            end: atoms[k].start + byte_len(atoms[k].text),
        }),
        exists|i: int|
            first_at(tokens_of(atoms, n, true), i, tokens_of(atoms, n, false)[k]),
    decreases n,
{
    lemma_atom_terms(atoms[n - 1].text, true);
    lemma_atom_terms(atoms[n - 1].text, false);
    lemma_token_positions(atoms, n - 1, true);
    let own = atom_tokens(atoms[n - 1], (n - 1) as nat, true);
    let before = tokens_of(atoms, n - 1, true);
    let all = before + own;
    if n == 1 {
        assert(tokens_of(atoms, 0, false) == Seq::<TokenView>::empty());
    } else {
        lemma_atoms_among_tokens(
            atoms,
            n - 1,
            if k < n - 1 {
                k
            } else {
                0
            },
        );
    }
    let t = tokens_of(atoms, n, false)[k];
    assert(tokens_of(atoms, n, true) == all);
    if k < n - 1 {
        assert(t == tokens_of(atoms, n - 1, false)[k]);
        let i = choose|i: int| first_at(before, i, t);
        assert forall|j: int| 0 <= j < i implies (#[trigger] all[j]).position < t.position by {
            assert(before[j].position < t.position);
        }
        assert(first_at(tokens_of(atoms, n, true), i, t));
    } else {
        let i = before.len() as int;
        assert(all[i] == own[0]);
        assert forall|j: int| 0 <= j < i implies (#[trigger] all[j]).position < t.position by {
            assert(before[j].position < n - 1);
        }
        assert(first_at(tokens_of(atoms, n, true), i, t));
    }
}

/// Those of the first `n` tokens that are the first at their position.
pub open spec fn firsts(ts: Seq<TokenView>, n: int) -> Seq<TokenView>
    decreases n,
{
    if n <= 0 {
        Seq::empty()
    } else if first_at(ts, n - 1, ts[n - 1]) {
        firsts(ts, n - 1).push(ts[n - 1])
    } else {
        firsts(ts, n - 1)
    }
}

/// Tokens behind the first `n` do not matter for them.
proof fn lemma_firsts_prefix(a: Seq<TokenView>, b: Seq<TokenView>, n: int)
    requires
        0 <= n <= a.len(),
    ensures
        firsts(a + b, n) == firsts(a, n),
    decreases n,
{
    if n > 0 {
        lemma_firsts_prefix(a, b, n - 1);
        let c = a + b;
        assert forall|j: int| 0 <= j < n implies #[trigger] c[j] == a[j] by {}
        if first_at(a, n - 1, a[n - 1]) {
            assert(first_at(c, n - 1, c[n - 1]));
        }
        if first_at(c, n - 1, c[n - 1]) {
            assert forall|j: int| 0 <= j < n - 1 implies (#[trigger] a[j]).position
                < a[n - 1].position by {
                assert(c[j].position < c[n - 1].position);
            }
        }
    }
}

/// Of the tokens of the last atom the first is the first at its position, and none of
/// the others.
proof fn lemma_firsts_of_atom(before: Seq<TokenView>, own: Seq<TokenView>, p: u32, n: int)
    requires
        0 < n <= own.len(),
        forall|j: int| 0 <= j < before.len() ==> (#[trigger] before[j]).position < p,
        forall|j: int| 0 <= j < own.len() ==> (#[trigger] own[j]).position == p,
    ensures
        firsts(before + own, before.len() + n) == firsts(before, before.len() as int).push(own[0]),
    decreases n,
{
    let all = before + own;
    let last = before.len() + n - 1;
    if n > 1 {
        lemma_firsts_of_atom(before, own, p, n - 1);
        assert(all[last - 1] == own[n - 2] && all[last] == own[n - 1]);
        assert(!first_at(all, last, all[last]));
    } else {
        lemma_firsts_prefix(before, own, before.len() as int);
        assert(all[last] == own[0]);
        assert forall|j: int| 0 <= j < last implies (#[trigger] all[j]).position
            < all[last].position by {
            assert(all[j] == before[j]);
        }
        assert(first_at(all, last, all[last]));
    }
}

proof fn lemma_atoms_are_firsts(atoms: Seq<Atom>, n: int)
    requires
        0 <= n <= atoms.len() <= u32::MAX,
    ensures
        tokens_of(atoms, n, false) == firsts(
            tokens_of(atoms, n, true),
            tokens_of(atoms, n, true).len() as int,
        ),
    decreases n,
{
    if n > 0 {
        lemma_atoms_are_firsts(atoms, n - 1);
        lemma_token_positions(atoms, n - 1, true);
        lemma_atom_terms(atoms[n - 1].text, true);
        let before = tokens_of(atoms, n - 1, true);
        let own = atom_tokens(atoms[n - 1], (n - 1) as nat, true);
        let whole = atom_tokens(atoms[n - 1], (n - 1) as nat, false);
        lemma_firsts_of_atom(before, own, (n - 1) as u32, own.len() as int);
        assert(whole =~= seq![own[0]]);
        assert(tokens_of(atoms, n, false) =~= tokens_of(atoms, n - 1, false).push(own[0]));
    }
}

/// The atoms of a text are, in term, position and bytes, those of its tokens that are the
/// first at their position. They are numbered from zero on, and every other token has the
/// position and the bytes of an atom and another term.
pub proof fn lemma_atoms_are_tokens_minus_parts(text: Seq<char>)
    requires
        text_atoms(text).len() <= u32::MAX,
    ensures
        ({
            let wholes = text_tokens(text, false);
            let ts = text_tokens(text, true);
            &&& wholes == firsts(ts, ts.len() as int)
            &&& forall|k: int|
                0 <= k < wholes.len() ==> (#[trigger] wholes[k]).position == k
            &&& forall|i: int|
                0 <= i < ts.len() ==> {
                    let t = #[trigger] ts[i];
                    let whole = wholes[t.position as int];
                    &&& t.position < wholes.len()
                    &&& t.start == whole.start && t.end == whole.end
                    &&& first_at(ts, i, t) <==> t.term == whole.term
                }
        }),
{
    let atoms = text_atoms(text);
    let n = atoms.len() as int;
    let wholes = text_tokens(text, false);
    let ts = text_tokens(text, true);
    lemma_atoms_are_firsts(atoms, n);
    lemma_token_positions(atoms, n, true);
    lemma_tokens_are_of_atoms(atoms, n, true);
    if n > 0 {
        lemma_atoms_among_tokens(atoms, n, 0);
    }
    assert forall|k: int| 0 <= k < wholes.len() implies (#[trigger] wholes[k]).position == k by {
        lemma_atoms_among_tokens(atoms, n, k);
    }
    assert forall|i: int| 0 <= i < ts.len() implies {
        let t = #[trigger] ts[i];
        let whole = wholes[t.position as int];
        &&& t.position < wholes.len()
        &&& t.start == whole.start && t.end == whole.end
        &&& first_at(ts, i, t) <==> t.term == whole.term
    } by {
        let t = ts[i];
        let k = t.position as int;
        lemma_atoms_among_tokens(atoms, n, k);
        let whole = wholes[k];
        let x = choose|x: int| first_at(ts, x, whole);
        if i < x {
            assert(ts[i].position < whole.position);
        } else if i > x {
            assert(ts[x].term != ts[i].term);
            if first_at(ts, i, t) {
                assert(ts[x].position < t.position);
            }
        }
    }
}

} // verus!
