//! What the terms of a text are, by the characters in it.

use vstd::prelude::*;

use crate::text::{alphabetic, alphanumeric, byte_len, lowercase, numeric, uppercase};
use crate::tokenizer::{
    atom_terms, atom_tokens, atoms_of, boundary, camel_parts, folded, has_alphanumeric,
    lemma_run_end, lemma_token_positions, lemma_tokens_are_of_atoms, part_terms,
    parts_of, raw_parts, run_end, run_start, separates, text_atoms, text_tokens, tokens_of,
    word_atoms, word_bounds, Atom, Separator, TokenView,
};

verus! {

/// The punctuation at which words are cut: that of ASCII but for the underscore, and the
/// marks that may stand between two letters or digits of a word.
pub open spec fn cuts(c: char) -> bool {
    let u = c as u32;
    ||| 0x21 <= u <= 0x2f || 0x3a <= u <= 0x40 || 0x5b <= u <= 0x5e || u == 0x60
    ||| 0x7b <= u <= 0x7e
    ||| u == 0xb7 || u == 0x37e || u == 0x387 || u == 0x55f || u == 0x589 || u == 0x5f4
    ||| u == 0x60c || u == 0x60d || u == 0x66c || u == 0x7f8
    ||| u == 0x2018 || u == 0x2019 || u == 0x2024 || u == 0x2027 || u == 0x2044
    ||| u == 0xfe10 || u == 0xfe13 || u == 0xfe14 || u == 0xfe50 || u == 0xfe52 || u == 0xfe54
    ||| u == 0xfe55 || u == 0xff07 || u == 0xff0c || u == 0xff0e || u == 0xff1a || u == 0xff1b
}

/// From `a` up to `b` the word has no punctuation, but before and behind it, and holds a
/// letter or a digit.
pub open spec fn is_run(w: Seq<char>, a: int, b: int) -> bool {
    &&& 0 <= a < b <= w.len()
    &&& forall|i: int| a <= i < b ==> !cuts(#[trigger] w[i])
    &&& a == 0 || cuts(w[a - 1])
    &&& b == w.len() || cuts(w[b])
    &&& exists|i: int| a <= i < b && alphanumeric(#[trigger] w[i])
}

proof fn lemma_cut(c: char)
    ensures
        separates(Separator::Punctuation, c) <==> cuts(c),
        separates(Separator::Underscore, c) <==> c == '_',
{
}

proof fn lemma_start(s: Seq<char>, i: int, sep: Separator)
    requires
        0 <= i <= s.len(),
    ensures
        i <= run_start(s, i, sep) <= s.len(),
        forall|k: int| i <= k < run_start(s, i, sep) ==> separates(sep, #[trigger] s[k]),
        run_start(s, i, sep) < s.len() ==> !separates(sep, s[run_start(s, i, sep)]),
    decreases s.len() - i,
{
    if i < s.len() && separates(sep, s[i]) {
        lemma_start(s, i + 1, sep);
    }
}

proof fn lemma_end(s: Seq<char>, i: int, sep: Separator)
    requires
        0 <= i <= s.len(),
    ensures
        i <= run_end(s, i, sep) <= s.len(),
        forall|k: int| i <= k < run_end(s, i, sep) ==> !separates(sep, #[trigger] s[k]),
        run_end(s, i, sep) < s.len() ==> separates(sep, s[run_end(s, i, sep)]),
    decreases s.len() - i,
{
    if i < s.len() && !separates(sep, s[i]) {
        lemma_end(s, i + 1, sep);
    }
}

/// The atom is the run of the word.
pub open spec fn is_atom_of(base: nat, w: Seq<char>, a: int, b: int, atom: Atom) -> bool {
    &&& is_run(w, a, b)
    &&& atom.start == base + byte_len(w.take(a))
    &&& atom.text == w.subrange(a, b)
}

/// The word has the atom.
pub open spec fn has_atom(base: nat, w: Seq<char>, from: int, atom: Atom) -> bool {
    exists|a: int, b: int| from <= a && #[trigger] is_atom_of(base, w, a, b, atom)
}

proof fn lemma_word(base: nat, w: Seq<char>, i: int)
    requires
        0 <= i <= w.len(),
        i == 0 || i == w.len() || cuts(w[i]),
    ensures
        forall|atom: Atom| #[trigger]
            word_atoms(base, w, i).contains(atom) <==> has_atom(base, w, i, atom),
    decreases w.len() - i,
{
    let sep = Separator::Punctuation;
    let a = run_start(w, i, sep);
    let b = run_end(w, a, sep);
    let all = word_atoms(base, w, i);
    lemma_start(w, i, sep);
    lemma_end(w, a, sep);
    assert forall|k: int| i <= k < a implies cuts(#[trigger] w[k]) by {
        lemma_cut(w[k]);
        assert(separates(sep, w[k]));
    }
    assert forall|k: int| a <= k < b implies !cuts(#[trigger] w[k]) by {
        lemma_cut(w[k]);
        assert(!separates(sep, w[k]));
    }
    if b < w.len() {
        lemma_cut(w[b]);
    }
    if a < w.len() {
        lemma_cut(w[a]);
        lemma_run_end(w, a, sep);
        assert(a < b);
        lemma_word(base, w, b);
        let rest = word_atoms(base, w, b);
        let own = Atom { start: base + byte_len(w.take(a)), text: w.subrange(a, b) };
        let counted = has_alphanumeric(w.subrange(a, b));
        if counted {
            let x = choose|x: int|
                0 <= x < w.subrange(a, b).len() && alphanumeric(#[trigger] w.subrange(a, b)[x]);
            assert(alphanumeric(w[a + x]));
            assert(is_run(w, a, b));
            assert(is_atom_of(base, w, a, b, own));
        }
        assert forall|atom: Atom| #[trigger] all.contains(atom) <==> has_atom(base, w, i, atom) by {
            if all.contains(atom) {
                let k = choose|k: int| 0 <= k < all.len() && all[k] == atom;
                if counted && k == 0 {
                    assert(is_atom_of(base, w, a, b, atom));
                } else {
                    let j = if counted {
                        k - 1
                    } else {
                        k
                    };
                    assert(rest[j] == atom);
                    assert(rest.contains(atom));
                    let (x, y) = choose|x: int, y: int|
                        b <= x && #[trigger] is_atom_of(base, w, x, y, atom);
                    assert(is_atom_of(base, w, x, y, atom));
                }
            }
            if has_atom(base, w, i, atom) {
                let (x, y) = choose|x: int, y: int|
                    i <= x && #[trigger] is_atom_of(base, w, x, y, atom);
                if x < a {
                    assert(cuts(w[x]));
                    assert(!cuts(w[x]));
                } else if x >= b {
                    assert(has_atom(base, w, b, atom));
                    assert(rest.contains(atom));
                    let k = choose|k: int| 0 <= k < rest.len() && rest[k] == atom;
                    assert(all[if counted {
                        k + 1
                    } else {
                        k
                    }] == atom);
                } else {
                    if x > a {
                        assert(!cuts(w[x - 1]));
                    }
                    if y < b {
                        assert(!cuts(w[y]));
                    } else if b < y {
                        assert(!cuts(w[b]));
                    }
                    let z = choose|z: int| x <= z < y && alphanumeric(#[trigger] w[z]);
                    assert(alphanumeric(w.subrange(a, b)[z - a]));
                    assert(all[0] == atom);
                }
            }
        }
    } else {
        assert forall|atom: Atom| #[trigger] all.contains(atom) <==> has_atom(base, w, i, atom) by {
            if has_atom(base, w, i, atom) {
                let (x, y) = choose|x: int, y: int|
                    i <= x && #[trigger] is_atom_of(base, w, x, y, atom);
                assert(cuts(w[x]));
                assert(!cuts(w[x]));
            }
        }
    }
}

proof fn lemma_words(words: Seq<(nat, Seq<char>)>, n: int, atom: Atom)
    requires
        0 <= n <= words.len(),
    ensures
        atoms_of(words, n).contains(atom) <==> exists|i: int|
            0 <= i < n && has_atom((#[trigger] words[i]).0, words[i].1, 0, atom),
    decreases n,
{
    if n > 0 {
        lemma_words(words, n - 1, atom);
        let (base, w) = words[n - 1];
        lemma_word(base, w, 0);
        let before = atoms_of(words, n - 1);
        let own = word_atoms(base, w, 0);
        let all = atoms_of(words, n);
        assert(own.contains(atom) <==> has_atom(base, w, 0, atom));
        if all.contains(atom) {
            let k = choose|k: int| 0 <= k < all.len() && all[k] == atom;
            if k < before.len() {
                assert(before[k] == atom);
                assert(before.contains(atom));
            } else {
                assert(own[k - before.len()] == atom);
                assert(has_atom(words[n - 1].0, words[n - 1].1, 0, atom));
            }
        }
        if exists|i: int| 0 <= i < n && has_atom((#[trigger] words[i]).0, words[i].1, 0, atom) {
            let i = choose|i: int|
                0 <= i < n && has_atom((#[trigger] words[i]).0, words[i].1, 0, atom);
            if i < n - 1 {
                assert(before.contains(atom));
                let k = choose|k: int| 0 <= k < before.len() && before[k] == atom;
                assert(all[k] == atom);
            } else {
                let k = choose|k: int| 0 <= k < own.len() && own[k] == atom;
                assert(all[before.len() + k] == atom);
            }
        }
    }
}

/// The atoms of a text are exactly the stretches of its words between punctuation that hold a
/// letter or a digit, each where it stands.
pub proof fn lemma_atoms_lie_between_punctuation(text: Seq<char>, atom: Atom)
    ensures
        text_atoms(text).contains(atom) <==> exists|i: int|
            0 <= i < word_bounds(text).len() && has_atom(
                (#[trigger] word_bounds(text)[i]).0,
                word_bounds(text)[i].1,
                0,
                atom,
            ),
{
    lemma_words(word_bounds(text), word_bounds(text).len() as int, atom);
}

/// No atom holds punctuation, and each holds a letter or a digit.
pub proof fn lemma_no_punctuation_in_atoms(text: Seq<char>, k: int)
    requires
        0 <= k < text_atoms(text).len(),
    ensures
        forall|i: int|
            0 <= i < text_atoms(text)[k].text.len() ==> !cuts(
                #[trigger] text_atoms(text)[k].text[i],
            ),
        exists|i: int|
            0 <= i < text_atoms(text)[k].text.len() && alphanumeric(
                #[trigger] text_atoms(text)[k].text[i],
            ),
{
    let atom = text_atoms(text)[k];
    assert(text_atoms(text).contains(atom));
    lemma_atoms_lie_between_punctuation(text, atom);
    let ws = word_bounds(text);
    let i = choose|i: int|
        0 <= i < ws.len() && has_atom((#[trigger] ws[i]).0, ws[i].1, 0, atom);
    let w = ws[i].1;
    let (a, b) = choose|a: int, b: int| 0 <= a && #[trigger] is_atom_of(ws[i].0, w, a, b, atom);
    assert forall|j: int| 0 <= j < atom.text.len() implies !cuts(#[trigger] atom.text[j]) by {
        assert(!cuts(w[a + j]));
    }
    let z = choose|z: int| a <= z < b && alphanumeric(#[trigger] w[z]);
    assert(atom.text[z - a] == w[z]);
}

/// A letter of lower case, or of a script without case.
pub open spec fn is_lower(c: char) -> bool {
    !uppercase(c) && !numeric(c) && alphabetic(c)
}

/// In an identifier a part starts at `i` though no underscore stands there: at a capital
/// behind a letter of lower case or a digit, or at the last of several capitals before a
/// letter of lower case.
pub open spec fn breaks(s: Seq<char>, i: int) -> bool {
    &&& 0 < i < s.len()
    &&& s[i] != '_' && s[i - 1] != '_'
    &&& uppercase(s[i])
    &&& is_lower(s[i - 1]) || !uppercase(s[i - 1]) && numeric(s[i - 1]) || (uppercase(s[i - 1])
        && i + 1 < s.len() && s[i + 1] != '_' && is_lower(s[i + 1]))
}

/// From `a` up to `b` lies a part of the identifier: between underscores, ends and breaks,
/// with none of them in it.
pub open spec fn is_part(s: Seq<char>, a: int, b: int) -> bool {
    &&& 0 <= a < b <= s.len()
    &&& forall|i: int| a <= i < b ==> #[trigger] s[i] != '_'
    &&& forall|i: int| a < i < b ==> !#[trigger] breaks(s, i)
    &&& a == 0 || s[a - 1] == '_' || breaks(s, a)
    &&& b == s.len() || s[b] == '_' || breaks(s, b)
}

/// The stretches come one behind the other.
pub open spec fn one_by_one(spans: Seq<(int, int)>) -> bool {
    forall|i: int, j: int|
        0 <= i < j < spans.len() ==> (#[trigger] spans[i]).1 <= (#[trigger] spans[j]).0
}

/// The texts are these stretches.
pub open spec fn stretches(s: Seq<char>, spans: Seq<(int, int)>, ps: Seq<Seq<char>>) -> bool {
    &&& spans.len() == ps.len()
    &&& forall|k: int|
        0 <= k < ps.len() ==> (#[trigger] ps[k]) == s.subrange(spans[k].0, spans[k].1)
}

/// A piece of a segment between boundaries.
spec fn is_piece(seg: Seq<char>, start: int, x: int, y: int) -> bool {
    &&& start <= x < y <= seg.len()
    &&& x == start || boundary(seg, x)
    &&& y == seg.len() || boundary(seg, y)
    &&& forall|j: int| x < j < y ==> !#[trigger] boundary(seg, j)
}

proof fn lemma_camel(seg: Seq<char>, start: int, i: int) -> (spans: Seq<(int, int)>)
    requires
        0 <= start < i <= seg.len(),
        forall|j: int| start < j < i ==> !#[trigger] boundary(seg, j),
    ensures
        stretches(seg, spans, camel_parts(seg, start, i)),
        one_by_one(spans),
        forall|x: int, y: int| #[trigger] spans.contains((x, y)) <==> is_piece(seg, start, x, y),
    decreases seg.len() - i,
{
    if i >= seg.len() {
        let spans = seq![(start, seg.len() as int)];
        assert forall|x: int, y: int| #[trigger] spans.contains((x, y)) <==> is_piece(
            seg,
            start,
            x,
            y,
        ) by {
            assert(spans[0] == (start, seg.len() as int));
            if is_piece(seg, start, x, y) {
                if x != start {
                    assert(boundary(seg, x));
                }
                if y != seg.len() {
                    assert(boundary(seg, y));
                }
                assert(spans[0] == (x, y));
            }
        }
        spans
    } else if boundary(seg, i) {
        let more = lemma_camel(seg, i, i + 1);
        let spans = seq![(start, i)] + more;
        assert forall|x: int, y: int| #[trigger] spans.contains((x, y)) <==> is_piece(
            seg,
            start,
            x,
            y,
        ) by {
            assert(more.contains((x, y)) <==> is_piece(seg, i, x, y));
            if spans.contains((x, y)) {
                let k = choose|k: int| 0 <= k < spans.len() && spans[k] == (x, y);
                if k > 0 {
                    assert(more[k - 1] == (x, y));
                    assert(more.contains((x, y)));
                }
            }
            if is_piece(seg, start, x, y) {
                if x == start {
                    if y > i {
                        assert(!boundary(seg, i));
                    } else if y < i {
                        assert(boundary(seg, y));
                    }
                    assert(spans[0] == (x, y));
                } else {
                    assert(boundary(seg, x));
                    assert(x >= i);
                    assert(more.contains((x, y)));
                    let k = choose|k: int| 0 <= k < more.len() && more[k] == (x, y);
                    assert(spans[k + 1] == (x, y));
                }
            }
        }
        assert(one_by_one(spans)) by {
            assert forall|k: int, l: int| 0 <= k < l < spans.len() implies (#[trigger] spans[k]).1
                <= (#[trigger] spans[l]).0 by {
                assert(spans[l] == more[l - 1]);
                assert(more.contains((more[l - 1].0, more[l - 1].1)));
                if k > 0 {
                    assert(spans[k] == more[k - 1]);
                }
            }
        }
        let ps = camel_parts(seg, start, i);
        let rest = camel_parts(seg, i, i + 1);
        assert forall|k: int| 0 <= k < ps.len() implies (#[trigger] ps[k]) == seg.subrange(
            spans[k].0,
            spans[k].1,
        ) by {
            if k > 0 {
                assert(ps[k] == rest[k - 1]);
                assert(spans[k] == more[k - 1]);
            }
        }
        spans
    } else {
        lemma_camel(seg, start, i + 1)
    }
}

/// A boundary in a segment is a break in the identifier.
proof fn lemma_boundary(s: Seq<char>, a: int, b: int, j: int)
    requires
        0 <= a < b <= s.len(),
        forall|i: int| a <= i < b ==> #[trigger] s[i] != '_',
        b == s.len() || s[b] == '_',
        0 < j < b - a,
    ensures
        boundary(s.subrange(a, b), j) <==> breaks(s, a + j),
{
    let seg = s.subrange(a, b);
    assert(seg[j] == s[a + j]);
    assert(seg[j - 1] == s[a + j - 1]);
    assert(s[a + j] != '_');
    assert(s[a + j - 1] != '_');
    if j + 1 < seg.len() {
        assert(seg[j + 1] == s[a + j + 1]);
        assert(s[a + j + 1] != '_');
    } else if a + j + 1 < s.len() {
        assert(s[b] == '_');
    }
}

proof fn lemma_raw(s: Seq<char>, i: int) -> (spans: Seq<(int, int)>)
    requires
        0 <= i <= s.len(),
        i == 0 || i == s.len() || s[i] == '_',
    ensures
        stretches(s, spans, raw_parts(s, i)),
        one_by_one(spans),
        forall|x: int, y: int|
            #[trigger] spans.contains((x, y)) <==> i <= x && is_part(s, x, y),
    decreases s.len() - i,
{
    let sep = Separator::Underscore;
    let a = run_start(s, i, sep);
    let b = run_end(s, a, sep);
    lemma_start(s, i, sep);
    lemma_end(s, a, sep);
    assert forall|k: int| i <= k < a implies #[trigger] s[k] == '_' by {
        assert(separates(sep, s[k]));
    }
    assert forall|k: int| a <= k < b implies #[trigger] s[k] != '_' by {
        assert(!separates(sep, s[k]));
    }
    if a >= s.len() {
        let spans = Seq::<(int, int)>::empty();
        assert forall|x: int, y: int| !(i <= x && #[trigger] is_part(s, x, y)) by {
            if i <= x && is_part(s, x, y) {
                assert(s[x] == '_');
            }
        }
        spans
    } else {
        lemma_run_end(s, a, sep);
        let seg = s.subrange(a, b);
        let own = lemma_camel(seg, 0, 1);
        let more = lemma_raw(s, b);
        let here = own.map_values(|p: (int, int)| (a + p.0, a + p.1));
        let spans = here + more;
        assert(i > 0 ==> a > i);
        assert(a > 0 ==> s[a - 1] == '_');
        assert forall|x: int, y: int| #[trigger] spans.contains((x, y)) <==> i <= x && is_part(
            s,
            x,
            y,
        ) by {
            assert(own.contains((x - a, y - a)) <==> is_piece(seg, 0, x - a, y - a));
            assert(more.contains((x, y)) <==> b <= x && is_part(s, x, y));
            if spans.contains((x, y)) {
                let k = choose|k: int| 0 <= k < spans.len() && spans[k] == (x, y);
                if k < here.len() {
                    assert(own[k] == (x - a, y - a));
                    assert(own.contains((x - a, y - a)));
                    lemma_piece(s, a, b, x, y);
                } else {
                    assert(more[k - here.len()] == (x, y));
                    assert(more.contains((x, y)));
                }
            }
            if i <= x && is_part(s, x, y) {
                assert(s[x] != '_');
                if x < b {
                    lemma_piece(s, a, b, x, y);
                    let k = choose|k: int| 0 <= k < own.len() && own[k] == (x - a, y - a);
                    assert(spans[k] == (x, y));
                } else {
                    let k = choose|k: int| 0 <= k < more.len() && more[k] == (x, y);
                    assert(spans[here.len() + k] == (x, y));
                }
            }
        }
        assert(one_by_one(spans)) by {
            assert forall|k: int, l: int| 0 <= k < l < spans.len() implies (#[trigger] spans[k]).1
                <= (#[trigger] spans[l]).0 by {
                if l < here.len() {
                    assert(own[k].1 <= own[l].0);
                } else {
                    assert(spans[l] == more[l - here.len()]);
                    assert(more.contains((more[l - here.len()].0, more[l - here.len()].1)));
                    if k < here.len() {
                        assert(own.contains((own[k].0, own[k].1)));
                    } else {
                        assert(spans[k] == more[k - here.len()]);
                    }
                }
            }
        }
        let ps = raw_parts(s, i);
        let first = camel_parts(seg, 0, 1);
        let rest = raw_parts(s, b);
        assert forall|k: int| 0 <= k < ps.len() implies (#[trigger] ps[k]) == s.subrange(
            spans[k].0,
            spans[k].1,
        ) by {
            if k < first.len() {
                assert(ps[k] == first[k]);
                assert(own.contains((own[k].0, own[k].1)));
                assert(seg.subrange(own[k].0, own[k].1) =~= s.subrange(
                    a + own[k].0,
                    a + own[k].1,
                ));
            } else {
                assert(ps[k] == rest[k - first.len()]);
                assert(spans[k] == more[k - here.len()]);
            }
        }
        spans
    }
}

/// A piece of a segment is a part of the identifier.
proof fn lemma_piece(s: Seq<char>, a: int, b: int, x: int, y: int)
    requires
        0 <= a < b <= s.len(),
        forall|i: int| a <= i < b ==> #[trigger] s[i] != '_',
        a == 0 || s[a - 1] == '_',
        b == s.len() || s[b] == '_',
        a <= x < b,
    ensures
        is_piece(s.subrange(a, b), 0, x - a, y - a) <==> is_part(s, x, y),
{
    let seg = s.subrange(a, b);
    assert forall|j: int| 0 < j < b - a implies (#[trigger] boundary(seg, j) <==> breaks(s, a + j)) by {
        lemma_boundary(s, a, b, j);
    }
    if is_piece(seg, 0, x - a, y - a) {
        assert forall|i: int| x < i < y implies !#[trigger] breaks(s, i) by {
            assert(!boundary(seg, i - a));
        }
        if x > a {
            assert(boundary(seg, x - a));
        }
        if y < b {
            assert(boundary(seg, y - a));
        }
    }
    if is_part(s, x, y) {
        if y > b {
            assert(s[b] != '_');
        }
        if x > a {
            assert(s[x - 1] != '_');
        }
        if y < b {
            assert(s[y] != '_');
        }
        assert forall|j: int| x - a < j < y - a implies !#[trigger] boundary(seg, j) by {
            assert(!breaks(s, a + j));
        }
        if x > a {
            assert(boundary(seg, x - a) <==> breaks(s, a + (x - a)));
        }
        if y < b {
            assert(boundary(seg, y - a) <==> breaks(s, a + (y - a)));
        }
    }
}

/// The stretches of the parts of an identifier.
pub open spec fn are_parts(s: Seq<char>, spans: Seq<(int, int)>) -> bool {
    &&& one_by_one(spans)
    &&& forall|x: int, y: int| #[trigger] spans.contains((x, y)) <==> is_part(s, x, y)
}

/// An identifier is split into exactly its parts, in order; where the only part is the whole
/// of it, into none.
pub proof fn lemma_identifier_parts(s: Seq<char>)
    ensures
        exists|spans: Seq<(int, int)>| #[trigger]
            are_parts(s, spans) && (if spans.len() == 1 && is_part(s, 0, s.len() as int) {
                parts_of(s).len() == 0
            } else {
                stretches(s, spans, parts_of(s))
            }),
{
    let spans = lemma_raw(s, 0);
    assert(are_parts(s, spans)) by {
        assert forall|x: int, y: int| #[trigger] spans.contains((x, y)) <==> is_part(s, x, y) by {}
    }
    let ps = raw_parts(s, 0);
    if spans.len() == 1 {
        assert(spans.contains((spans[0].0, spans[0].1)));
        assert(is_part(s, spans[0].0, spans[0].1));
        assert(ps[0] == s.subrange(spans[0].0, spans[0].1));
        if is_part(s, 0, s.len() as int) {
            assert(spans.contains((0int, s.len() as int)));
        }
    }
}

/// A text as terms have it: in lower case where it holds a capital.
pub open spec fn in_lower_case(s: Seq<char>) -> Seq<char> {
    if exists|i: int| 0 <= i < s.len() && uppercase(#[trigger] s[i]) {
        lowercase(s)
    } else {
        s
    }
}

/// The term is that of a part of the identifier.
pub open spec fn is_part_term(s: Seq<char>, t: Seq<char>) -> bool {
    exists|a: int, b: int| #[trigger] is_part(s, a, b) && t == in_lower_case(s.subrange(a, b))
}

proof fn lemma_part_terms_of(whole: Seq<char>, parts: Seq<Seq<char>>, n: int, t: Seq<char>)
    requires
        0 <= n <= parts.len(),
    ensures
        part_terms(whole, parts, n).contains(t) <==> t != whole && exists|i: int|
            0 <= i < n && t == folded(#[trigger] parts[i]),
    decreases n,
{
    if n > 0 {
        lemma_part_terms_of(whole, parts, n - 1, t);
        let before = part_terms(whole, parts, n - 1);
        let now = part_terms(whole, parts, n);
        let term = folded(parts[n - 1]);
        crate::text::lemma_push_contains(before, term, t);
        if exists|i: int| 0 <= i < n && t == folded(#[trigger] parts[i]) {
            let i = choose|i: int| 0 <= i < n && t == folded(#[trigger] parts[i]);
            if i == n - 1 && t != whole {
                assert(now.contains(t));
            }
        }
    }
}

/// The terms of an atom: itself in lower case, and on the index side its parts in lower case.
proof fn lemma_terms_of_atom(s: Seq<char>, split: bool, t: Seq<char>)
    ensures
        atom_terms(s, split).contains(t) <==> t == in_lower_case(s) || split && is_part_term(s, t),
{
    let whole = folded(s);
    let parts = parts_of(s);
    let more = part_terms(whole, parts, parts.len() as int);
    let all = atom_terms(s, split);
    assert(whole == in_lower_case(s));
    lemma_identifier_parts(s);
    let spans = choose|spans: Seq<(int, int)>| #[trigger]
        are_parts(s, spans) && (if spans.len() == 1 && is_part(s, 0, s.len() as int) {
            parts.len() == 0
        } else {
            stretches(s, spans, parts)
        });
    assert(all[0] == whole);
    if split {
        lemma_part_terms_of(whole, parts, parts.len() as int, t);
        let single = spans.len() == 1 && is_part(s, 0, s.len() as int);
        if is_part_term(s, t) && t != whole {
            let (a, b) = choose|a: int, b: int| #[trigger]
                is_part(s, a, b) && t == in_lower_case(s.subrange(a, b));
            assert(spans.contains((a, b)));
            let k = choose|k: int| 0 <= k < spans.len() && spans[k] == (a, b);
            if single {
                assert(spans.contains((0int, s.len() as int)));
                assert(s.subrange(0, s.len() as int) =~= s);
            } else {
                assert(parts[k] == s.subrange(a, b));
                assert(t == folded(parts[k]));
                assert(more.contains(t));
                let j = choose|j: int| 0 <= j < more.len() && more[j] == t;
                assert(all[j + 1] == t);
            }
        }
        if all.contains(t) && t != whole {
            let j = choose|j: int| 0 <= j < all.len() && all[j] == t;
            assert(more[j - 1] == t);
            assert(more.contains(t));
            let i = choose|i: int| 0 <= i < parts.len() && t == folded(#[trigger] parts[i]);
            assert(spans.contains((spans[i].0, spans[i].1)));
            assert(is_part(s, spans[i].0, spans[i].1));
        }
    }
}

/// The token is one of atom `k`: at its position, with all of its bytes, and its term is the
/// atom in lower case or, on the index side, one of its parts.
pub open spec fn is_token_of(atoms: Seq<Atom>, k: int, split: bool, t: TokenView) -> bool {
    let atom = atoms[k];
    &&& 0 <= k < atoms.len()
    &&& t.position == k
    &&& t.start == atom.start
    &&& t.end == atom.start + byte_len(atom.text)
    &&& t.term == in_lower_case(atom.text) || split && is_part_term(atom.text, t.term)
}

proof fn lemma_has_token(atoms: Seq<Atom>, n: int, split: bool, k: int, x: int)
    requires
        0 <= k < n <= atoms.len(),
        0 <= x < atom_terms(atoms[k].text, split).len(),
    ensures
        tokens_of(atoms, n, split).contains(atom_tokens(atoms[k], k as nat, split)[x]),
    decreases n,
{
    let before = tokens_of(atoms, n - 1, split);
    let all = tokens_of(atoms, n, split);
    let t = atom_tokens(atoms[k], k as nat, split)[x];
    if k < n - 1 {
        lemma_has_token(atoms, n - 1, split, k, x);
        let i = choose|i: int| 0 <= i < before.len() && before[i] == t;
        assert(all[i] == t);
    } else {
        assert(all[before.len() + x] == t);
    }
}

/// The tokens of a text are exactly those of its atoms, in the order of the atoms, and no term
/// comes twice at one position.
pub proof fn lemma_tokens_are_of_text(text: Seq<char>, split: bool, t: TokenView)
    requires
        text_atoms(text).len() <= u32::MAX,
    ensures
        text_tokens(text, split).contains(t) <==> exists|k: int| #[trigger]
            is_token_of(text_atoms(text), k, split, t),
        forall|i: int, j: int|
            0 <= i < j < text_tokens(text, split).len() ==> (#[trigger] text_tokens(
                text,
                split,
            )[i]).position <= (#[trigger] text_tokens(text, split)[j]).position && (text_tokens(
                text,
                split,
            )[i].position == text_tokens(text, split)[j].position ==> text_tokens(text, split)[i].term
                != text_tokens(text, split)[j].term),
{
    let atoms = text_atoms(text);
    let n = atoms.len() as int;
    let ts = text_tokens(text, split);
    lemma_tokens_are_of_atoms(atoms, n, split);
    lemma_token_positions(atoms, n, split);
    if ts.contains(t) {
        let i = choose|i: int| 0 <= i < ts.len() && ts[i] == t;
        let k = t.position as int;
        assert(ts[i].position < n);
        lemma_terms_of_atom(atoms[k].text, split, t.term);
        assert(is_token_of(atoms, k, split, t));
    }
    if exists|k: int| #[trigger] is_token_of(atoms, k, split, t) {
        let k = choose|k: int| #[trigger] is_token_of(atoms, k, split, t);
        let terms = atom_terms(atoms[k].text, split);
        lemma_terms_of_atom(atoms[k].text, split, t.term);
        let x = choose|x: int| 0 <= x < terms.len() && terms[x] == t.term;
        lemma_has_token(atoms, n, split, k, x);
        assert(atom_tokens(atoms[k], k as nat, split)[x] == t);
    }
}

} // verus!
