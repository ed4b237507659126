//! Result snippets: the best line of a file for a query.
//!
//! The line with the most distinct query terms is chosen, the earliest of equal
//! ones. Terms are matched with the index's tokenizer, so that `response`
//! highlights the `HttpResponse` that it is part of.

use core::ops::Range;

use vstd::prelude::*;
use vstd::utf8::encode_scalar;

use crate::text::{
    byte_len, char_width, chars_of, lemma_byte_len, lemma_encode_concat, lemma_encode_push,
    lemma_line_end, line_end, lines, lines_from, same, skip_space, space_end, text_end, text_of,
    trimmed, views,
};
use crate::tokenizer::{
    lemma_token_spans, text_atoms, text_tokens, token_views, tokenize, TokenView,
};

verus! {

/// One line of a file with the bytes to highlight.
#[derive(Debug, PartialEq, Eq)]
pub struct Snippet {
    /// From one on.
    pub line_no: usize,
    /// The line without white space at its ends, cut to so many characters
    /// around the first highlight; `…` marks a cut.
    pub text: String,
    /// Byte ranges of `text`, ascending and apart.
    pub highlights: Vec<Range<usize>>,
}

/// Where character `k` starts, in bytes.
pub open spec fn offset(s: Seq<char>, k: int) -> int {
    byte_len(s.take(k)) as int
}

proof fn lemma_offset_step(s: Seq<char>, k: int)
    requires
        0 <= k < s.len(),
    ensures
        offset(s, k + 1) == offset(s, k) + encode_scalar(s[k] as u32).len(),
{
    lemma_encode_push(s.take(k), s[k]);
    assert(s.take(k + 1) =~= s.take(k).push(s[k]));
}

/// A later character starts later.
pub(crate) proof fn lemma_offset_ascends(s: Seq<char>, j: int, k: int)
    requires
        0 <= j <= k <= s.len(),
    ensures
        offset(s, j) + (k - j) <= offset(s, k),
    decreases k - j,
{
    if j < k {
        lemma_offset_ascends(s, j, k - 1);
        lemma_offset_step(s, k - 1);
        lemma_width(s[k - 1]);
    }
}

proof fn lemma_width(c: char)
    ensures
        1 <= encode_scalar(c as u32).len() <= 4,
{
    let s = seq![c];
    lemma_byte_len(s);
    lemma_encode_push(Seq::empty(), c);
    assert(Seq::<char>::empty().push(c) =~= s);
    assert(byte_len(Seq::<char>::empty()) == 0) by {
        lemma_byte_len(Seq::<char>::empty());
    }
}

/// The character that starts at a byte, the end of the text among them.
pub open spec fn char_at(s: Seq<char>, b: int, k: int) -> Option<int>
    decreases s.len() + 1 - k,
{
    if k > s.len() {
        None
    } else if offset(s, k) == b {
        Some(k)
    } else {
        char_at(s, b, k + 1)
    }
}

/// The first character from `k` on that starts at this byte or behind it.
pub open spec fn first_char_from(s: Seq<char>, b: int, k: int) -> int
    decreases s.len() + 1 - k,
{
    if k <= s.len() && offset(s, k) < b {
        first_char_from(s, b, k + 1)
    } else {
        k
    }
}

/// Where each character starts, and the end.
fn offsets(cs: &[char]) -> (r: Vec<usize>)
    requires
        byte_len(cs@) <= usize::MAX,
    ensures
        r@.len() == cs@.len() + 1,
        forall|k: int| 0 <= k <= cs@.len() ==> (#[trigger] r@[k]) == offset(cs@, k),
{
    let mut r: Vec<usize> = Vec::new();
    let mut at: usize = 0;
    let mut k: usize = 0;
    r.push(0);
    assert(offset(cs@, 0) == 0) by {
        assert(cs@.take(0) =~= Seq::empty());
        lemma_byte_len(Seq::<char>::empty());
    }
    while k < cs.len()
        invariant
            k <= cs@.len(),
            byte_len(cs@) <= usize::MAX,
            at == offset(cs@, k as int),
            r@.len() == k + 1,
            forall|j: int| 0 <= j <= k ==> (#[trigger] r@[j]) == offset(cs@, j),
        decreases cs@.len() - k,
    {
        proof {
            lemma_offset_step(cs@, k as int);
            lemma_offset_ascends(cs@, k + 1, cs@.len() as int);
            assert(cs@.take(cs@.len() as int) =~= cs@);
        }
        at = at + char_width(cs[k]);
        r.push(at);
        k = k + 1;
    }
    r
}

/// The first place of the term among the terms from `i` on.
pub open spec fn term_place(terms: Seq<Seq<char>>, t: Seq<char>, i: int) -> int
    decreases terms.len() - i,
{
    if i < terms.len() && terms[i] != t {
        term_place(terms, t, i + 1)
    } else {
        i
    }
}

/// The terms that the first `n` tokens hold, and the spans of those tokens.
/// Parts follow their atom and share its span, which counts once.
pub open spec fn matched(ts: Seq<TokenView>, terms: Seq<Seq<char>>, n: int) -> (
    Seq<bool>,
    Seq<(int, int)>,
)
    decreases n,
{
    if n <= 0 {
        (Seq::new(terms.len(), |i: int| false), Seq::empty())
    } else {
        let (seen, spans) = matched(ts, terms, n - 1);
        let k = term_place(terms, ts[n - 1].term, 0);
        let span = (ts[n - 1].start as int, ts[n - 1].end as int);
        if k < terms.len() {
            (
                seen.update(k, true),
                if spans.len() > 0 && spans.last() == span {
                    spans
                } else {
                    spans.push(span)
                },
            )
        } else {
            (seen, spans)
        }
    }
}

/// How many are set.
pub open spec fn set_count(s: Seq<bool>) -> nat
    decreases s.len(),
{
    if s.len() == 0 {
        0
    } else {
        set_count(s.drop_last()) + if s.last() {
            1nat
        } else {
            0
        }
    }
}

/// How many distinct terms a line holds, and the spans of their tokens.
pub open spec fn line_score(line: Seq<char>, terms: Seq<Seq<char>>) -> (nat, Seq<(int, int)>) {
    let ts = text_tokens(line, true);
    let (seen, spans) = matched(ts, terms, ts.len() as int);
    (set_count(seen), spans)
}

/// The best of the first `n` lines.
pub open spec fn best_line(ls: Seq<Seq<char>>, terms: Seq<Seq<char>>, n: int) -> Option<int>
    decreases n,
{
    if n <= 0 {
        None
    } else {
        let best = best_line(ls, terms, n - 1);
        let score = line_score(ls[n - 1], terms).0;
        match best {
            None => if score > 0 {
                Some(n - 1)
            } else {
                None
            },
            Some(b) => if score > line_score(ls[b], terms).0 {
                Some(n - 1)
            } else {
                Some(b)
            },
        }
    }
}

/// The spans among the first `n` that lie in `lo..hi`, moved by `by`.
pub open spec fn moved(spans: Seq<(int, int)>, lo: int, hi: int, by: int, n: int) -> Seq<(int, int)>
    decreases n,
{
    if n <= 0 {
        Seq::empty()
    } else {
        let (a, b) = spans[n - 1];
        if a >= lo && b <= hi {
            moved(spans, lo, hi, by, n - 1).push((a + by, b + by))
        } else {
            moved(spans, lo, hi, by, n - 1)
        }
    }
}

/// Spans by value.
pub open spec fn span_views(rs: Seq<Range<usize>>) -> Seq<(int, int)> {
    Seq::new(rs.len(), |i: int| (rs[i].start as int, rs[i].end as int))
}

/// The window of a line of `n` characters: it starts a quarter of its width
/// before the first highlight, but not so late that it would not be full.
pub open spec fn window_start(first_char: int, n: int, width: int) -> int {
    let s = if first_char >= width / 4 {
        first_char - width / 4
    } else {
        0
    };
    if s < n - width {
        s
    } else {
        n - width
    }
}

/// The text and the highlights of a line.
pub open spec fn shown(line: Seq<char>, spans: Seq<(int, int)>, width: int) -> (
    Seq<char>,
    Seq<(int, int)>,
) {
    let lead = offset(line, skip_space(line, 0));
    let t = trimmed(line);
    let own = moved(spans, lead, lead + byte_len(t), -lead, spans.len() as int);
    let n = t.len() as int;
    if n <= width || width == 0 {
        (t, own)
    } else {
        let first = if own.len() > 0 {
            own[0].0
        } else {
            0
        };
        let a = window_start(first_char_from(t, first, 0), n, width);
        let b = a + width;
        let before = if a > 0 {
            "…"@
        } else {
            Seq::empty()
        };
        let behind = if b < n {
            "…"@
        } else {
            Seq::empty()
        };
        (
            before + t.subrange(a, b) + behind,
            moved(
                own,
                offset(t, a),
                offset(t, b),
                byte_len(before) - offset(t, a),
                own.len() as int,
            ),
        )
    }
}

/// Keeps the spans that lie in `lo..hi`, moved from `lo` to `to`.
fn move_spans(spans: &Vec<Range<usize>>, lo: usize, hi: usize, to: usize) -> (r: Vec<Range<usize>>)
    requires
        hi - lo + to <= usize::MAX,
        lo <= hi,
        forall|k: int| 0 <= k < spans@.len() ==> (#[trigger] spans@[k]).start <= spans@[k].end,
    ensures
        span_views(r@) == moved(
            span_views(spans@),
            lo as int,
            hi as int,
            to - lo,
            spans@.len() as int,
        ),
        forall|k: int|
            0 <= k < r@.len() ==> (#[trigger] r@[k]).start <= r@[k].end && to <= r@[k].start
                && r@[k].end <= hi - lo + to,
{
    let ghost vs = span_views(spans@);
    let mut r: Vec<Range<usize>> = Vec::new();
    let mut i: usize = 0;
    assert(span_views(r@) =~= Seq::empty());
    while i < spans.len()
        invariant
            hi - lo + to <= usize::MAX,
            lo <= hi,
            i <= spans@.len(),
            vs == span_views(spans@),
            forall|k: int| 0 <= k < spans@.len() ==> (#[trigger] spans@[k]).start <= spans@[k].end,
            span_views(r@) == moved(vs, lo as int, hi as int, to - lo, i as int),
            forall|k: int|
                0 <= k < r@.len() ==> (#[trigger] r@[k]).start <= r@[k].end && to <= r@[k].start
                    && r@[k].end <= hi - lo + to,
        decreases spans@.len() - i,
    {
        let ghost had = span_views(r@);
        let a: usize = spans[i].start;
        let b: usize = spans[i].end;
        assert(spans@[i as int].start <= spans@[i as int].end);
        assert(vs[i as int] == (a as int, b as int));
        if a >= lo && b <= hi {
            let x: usize = a - lo + to;
            let y: usize = b - lo + to;
            r.push(x..y);
            assert(span_views(r@) =~= had.push((x as int, y as int)));
        }
        i = i + 1;
    }
    r
}

/// A part of a text lies as many bytes behind its start as the characters before
/// it take.
proof fn lemma_part_bytes(s: Seq<char>, a: int, b: int)
    requires
        0 <= a <= b <= s.len(),
    ensures
        offset(s, a) + byte_len(s.subrange(a, b)) == offset(s, b),
        offset(s, b) <= byte_len(s),
{
    lemma_encode_concat(s.take(a), s.subrange(a, b));
    assert(s.take(a) + s.subrange(a, b) =~= s.take(b));
    lemma_offset_ascends(s, b, s.len() as int);
    assert(s.take(s.len() as int) =~= s);
}

/// Trims a line and cuts it to a window of `max_width` characters, the first
/// highlight about a quarter of the way in. No cut where the width is zero.
pub fn make_snippet(line_no: usize, line: &str, spans: Vec<Range<usize>>, max_width: usize) -> (r:
    Snippet)
    requires
        forall|k: int| 0 <= k < spans@.len() ==> (#[trigger] spans@[k]).start <= spans@[k].end,
    ensures
        r.line_no == line_no,
        (r.text@, span_views(r.highlights@)) == shown(
            line@,
            span_views(spans@),
            max_width as int,
        ),
{
    let bytes = line.as_bytes();
    assert(bytes@.len() == bytes.len());
    let cs = chars_of(line);
    let offs = offsets(&cs);
    let a: usize = space_end(&cs, 0);
    let b: usize = text_end(&cs, a);
    let text = text_of(&cs, a, b);
    let lead: usize = offs[a];
    let end: usize = offs[b];
    proof {
        lemma_part_bytes(line@, a as int, b as int);
        lemma_offset_ascends(line@, a as int, b as int);
    }
    let own = move_spans(&spans, lead, end, 0);
    let n: usize = b - a;
    let ghost t = trimmed(line@);
    assert(text@ == t);
    if n <= max_width || max_width == 0 {
        return Snippet { line_no, text, highlights: own };
    }
    let ts = chars_of(text.as_str());
    let bounds = offsets(&ts);
    let first: usize = if own.len() > 0 {
        own[0].start
    } else {
        0
    };
    proof {
        if own@.len() > 0 {
            assert(span_views(own@)[0].0 == own@[0].start);
        }
        assert(offset(t, n as int) == byte_len(t)) by {
            assert(t.take(n as int) =~= t);
        }
    }
    let mut k: usize = 0;
    while k < n && bounds[k] < first
        invariant
            t == ts@,
            n == t.len(),
            bounds@.len() == n + 1,
            forall|j: int| 0 <= j <= n ==> (#[trigger] bounds@[j]) == offset(t, j),
            k <= n,
            first <= byte_len(t),
            offset(t, n as int) == byte_len(t),
            first_char_from(t, first as int, 0) == first_char_from(t, first as int, k as int),
        decreases n - k,
    {
        k = k + 1;
    }
    assert(k == first_char_from(t, first as int, 0));
    let back: usize = k.saturating_sub(max_width / 4);
    let start: usize = if back < n - max_width {
        back
    } else {
        n - max_width
    };
    let stop: usize = start + max_width;
    let ghost own_views = span_views(own@);
    proof {
        reveal_strlit("…");
        assert("…"@ =~= seq!['…']);
        lemma_mark();
        lemma_part_bytes(t, start as int, stop as int);
        lemma_offset_ascends(t, 0, start as int);
    }
    let lo: usize = bounds[start];
    let hi: usize = bounds[stop];
    let mut out = String::new();
    let to: usize = if start > 0 {
        3
    } else {
        0
    };
    if start > 0 {
        out.push('…');
    }
    out.push_str(text_of(&ts, start, stop).as_str());
    if stop < n {
        out.push('…');
    }
    proof {
        let before = if start > 0 {
            "…"@
        } else {
            Seq::empty()
        };
        let behind = if stop < n {
            "…"@
        } else {
            Seq::empty()
        };
        assert(out@ =~= before + t.subrange(start as int, stop as int) + behind);
        assert(byte_len(before) == to);
        lemma_encode_concat(before + t.subrange(start as int, stop as int), behind);
        lemma_encode_concat(before, t.subrange(start as int, stop as int));
    }
    let whole = out.as_str().as_bytes();
    assert(whole@.len() == whole.len());
    let highlights = move_spans(&own, lo, hi, to);
    Snippet { line_no, text: out, highlights }
}

proof fn lemma_mark()
    ensures
        byte_len(seq!['…']) == 3,
        byte_len(Seq::<char>::empty()) == 0,
{
    lemma_byte_len(Seq::<char>::empty());
    lemma_encode_push(Seq::empty(), '…');
    assert(Seq::<char>::empty().push('…') =~= seq!['…']);
    assert('…' as u32 == 0x2026);
}

/// The lines are no longer than the text.
proof fn lemma_lines_fit(s: Seq<char>, i: int, k: int)
    requires
        0 <= i,
        0 <= k < lines_from(s, i).len(),
    ensures
        lines_from(s, i)[k].len() <= s.len(),
    decreases s.len() + 1 - i,
{
    if i < s.len() {
        lemma_line_end(s, i);
        if k > 0 {
            lemma_lines_fit(s, line_end(s, i) + 1, k - 1);
            assert(lines_from(s, i)[k] == lines_from(s, line_end(s, i) + 1)[k - 1]);
        }
    }
}

proof fn lemma_matched_len(ts: Seq<TokenView>, terms: Seq<Seq<char>>, n: int)
    ensures
        matched(ts, terms, n).0.len() == terms.len(),
    decreases n,
{
    if n > 0 {
        lemma_matched_len(ts, terms, n - 1);
        lemma_term_place(terms, ts[n - 1].term, 0);
    }
}

proof fn lemma_term_place(terms: Seq<Seq<char>>, t: Seq<char>, i: int)
    ensures
        term_place(terms, t, i) >= i,
    decreases terms.len() - i,
{
    if i < terms.len() && terms[i] != t {
        lemma_term_place(terms, t, i + 1);
    }
}

fn place_of(terms: &Vec<String>, t: &str) -> (k: usize)
    ensures
        k == term_place(views(terms@), t@, 0),
        k <= terms@.len(),
{
    let mut k: usize = 0;
    while k < terms.len()
        invariant
            k <= terms@.len(),
            term_place(views(terms@), t@, 0) == term_place(views(terms@), t@, k as int),
        decreases terms@.len() - k,
    {
        assert(views(terms@)[k as int] == terms@[k as int]@);
        if same(terms[k].as_str(), t) {
            return k;
        }
        k = k + 1;
    }
    k
}

fn count_set(seen: &Vec<bool>) -> (n: usize)
    ensures
        n == set_count(seen@),
        n <= seen@.len(),
{
    let mut n: usize = 0;
    let mut i: usize = 0;
    assert(seen@.take(0) =~= Seq::empty());
    while i < seen.len()
        invariant
            i <= seen@.len(),
            n == set_count(seen@.take(i as int)),
            n <= i,
        decreases seen@.len() - i,
    {
        assert(seen@.take(i + 1).drop_last() =~= seen@.take(i as int));
        if seen[i] {
            n = n + 1;
        }
        i = i + 1;
    }
    assert(seen@.take(i as int) =~= seen@);
    n
}

/// How many distinct terms a line holds, and the spans of their tokens.
fn score_line(line: &str, terms: &Vec<String>) -> (r: (usize, Vec<Range<usize>>))
    requires
        line@.len() <= u32::MAX,
    ensures
        r.0 == line_score(line@, views(terms@)).0,
        r.0 <= terms@.len(),
        span_views(r.1@) == line_score(line@, views(terms@)).1,
        forall|k: int| 0 <= k < r.1@.len() ==> (#[trigger] r.1@[k]).start <= r.1@[k].end,
{
    let ghost tv = views(terms@);
    let tokens = tokenize(line);
    let ghost ts = text_tokens(line@, true);
    let mut seen: Vec<bool> = Vec::new();
    while seen.len() < terms.len()
        invariant
            seen@.len() <= terms@.len(),
            forall|k: int| 0 <= k < seen@.len() ==> !#[trigger] seen@[k],
        decreases terms@.len() - seen@.len(),
    {
        seen.push(false);
    }
    let mut spans: Vec<Range<usize>> = Vec::new();
    let mut i: usize = 0;
    proof {
        lemma_token_spans(text_atoms(line@), text_atoms(line@).len() as int, true);
    }
    assert(seen@ =~= matched(ts, tv, 0).0);
    assert(span_views(spans@) =~= matched(ts, tv, 0).1);
    while i < tokens.len()
        invariant
            i <= tokens@.len(),
            tv == views(terms@),
            ts == token_views(tokens@),
            seen@.len() == terms@.len(),
            (seen@, span_views(spans@)) == matched(ts, tv, i as int),
            forall|k: int| 0 <= k < ts.len() ==> (#[trigger] ts[k]).start <= ts[k].end,
            forall|k: int| 0 <= k < spans@.len() ==> (#[trigger] spans@[k]).start <= spans@[k].end,
        decreases tokens@.len() - i,
    {
        let ghost had = span_views(spans@);
        let t = &tokens[i];
        assert(ts[i as int] == t@);
        let k: usize = place_of(terms, t.term.as_str());
        if k < terms.len() {
            seen.set(k, true);
            let n: usize = spans.len();
            let start: usize = t.span.start;
            let end: usize = t.span.end;
            let repeat: bool = n > 0 && spans[n - 1].start == start && spans[n - 1].end == end;
            assert(n > 0 ==> had.last() == (spans@[n - 1].start as int, spans@[n - 1].end as int));
            if !repeat {
                spans.push(start..end);
                assert(span_views(spans@) =~= had.push((start as int, end as int)));
            }
        }
        i = i + 1;
    }
    (count_set(&seen), spans)
}

proof fn lemma_set_bound(s: Seq<bool>)
    ensures
        set_count(s) <= s.len(),
    decreases s.len(),
{
    if s.len() > 0 {
        lemma_set_bound(s.drop_last());
    }
}

/// Once a line holds every term, no later line is better.
proof fn lemma_best_stays(ls: Seq<Seq<char>>, terms: Seq<Seq<char>>, n: int, k: int)
    requires
        0 <= n <= k <= ls.len(),
        best_line(ls, terms, n) matches Some(b) && line_score(ls[b], terms).0 == terms.len(),
    ensures
        best_line(ls, terms, k) == best_line(ls, terms, n),
    decreases k - n,
{
    if n < k {
        lemma_best_stays(ls, terms, n, k - 1);
        let ts = text_tokens(ls[k - 1], true);
        lemma_matched_len(ts, terms, ts.len() as int);
        lemma_set_bound(matched(ts, terms, ts.len() as int).0);
    }
}

/// The best line of a text for the terms, which are in lower case. `None` where
/// no line holds any.
pub fn snippet_for(text: &str, terms: &Vec<String>, max_width: usize) -> (r: Option<Snippet>)
    requires
        text@.len() <= u32::MAX,
    ensures
        ({
            let ls = lines_from(text@, 0);
            let tv = views(terms@);
            match (r, best_line(ls, tv, ls.len() as int)) {
                (Some(s), Some(b)) => s.line_no == b + 1 && (s.text@, span_views(s.highlights@))
                    == shown(ls[b], line_score(ls[b], tv).1, max_width as int),
                (None, None) => true,
                _ => false,
            }
        }),
{
    let ghost ls = lines_from(text@, 0);
    let ghost tv = views(terms@);
    let all = lines(text);
    let mut best: Option<(usize, usize, Vec<Range<usize>>)> = None;
    let mut i: usize = 0;
    while i < all.len()
        invariant
            ls == lines_from(text@, 0),
            ls == views(all@),
            tv == views(terms@),
            text@.len() <= u32::MAX,
            i <= all@.len(),
            match (best, best_line(ls, tv, i as int)) {
                (Some((score, at, spans)), Some(b)) => at == b && b < i && score == line_score(
                    ls[b],
                    tv,
                ).0 && score < tv.len() && span_views(spans@) == line_score(ls[b], tv).1
                    && forall|k: int|
                    0 <= k < spans@.len() ==> (#[trigger] spans@[k]).start <= spans@[k].end,
                (None, None) => true,
                _ => false,
            },
        decreases all@.len() - i,
    {
        let line = all[i].as_str();
        proof {
            assert(ls[i as int] == line@);
            lemma_lines_fit(text@, 0, i as int);
        }
        let (score, spans) = score_line(line, terms);
        let better: bool = match &best {
            None => score > 0,
            Some(b) => score > b.0,
        };
        if better {
            if score == terms.len() {
                proof {
                    assert(best_line(ls, tv, i + 1) == Some(i as int));
                    lemma_best_stays(ls, tv, i + 1, ls.len() as int);
                }
                return Some(make_snippet(i + 1, line, spans, max_width));
            }
            best = Some((score, i, spans));
        }
        i = i + 1;
    }
    match best {
        None => None,
        Some((_, at, spans)) => {
            assert(ls[at as int] == all@[at as int]@);
            Some(make_snippet(at + 1, all[at].as_str(), spans, max_width))
        },
    }
}

/// The texts around a highlight: escape codes for bold red, or brackets.
pub open spec fn marks(color: bool) -> (Seq<char>, Seq<char>) {
    if color {
        ("\x1b[1;31m"@, "\x1b[0m"@)
    } else {
        ("["@, "]"@)
    }
}

/// A text with the first `n` highlights marked, and the character behind the
/// last of them. One that does not fit the text, or overlaps one before it, is
/// passed over.
pub open spec fn rendered(text: Seq<char>, hs: Seq<(int, int)>, color: bool, n: int) -> (
    Seq<char>,
    int,
)
    decreases n,
{
    if n <= 0 {
        (Seq::empty(), 0)
    } else {
        let (out, pos) = rendered(text, hs, color, n - 1);
        match (char_at(text, hs[n - 1].0, 0), char_at(text, hs[n - 1].1, 0)) {
            (Some(a), Some(b)) => if pos <= a <= b {
                (
                    out + text.subrange(pos, a) + marks(color).0 + text.subrange(a, b) + marks(
                        color,
                    ).1,
                    b,
                )
            } else {
                (out, pos)
            },
            _ => (out, pos),
        }
    }
}

fn find_char(offs: &Vec<usize>, b: usize, Ghost(s): Ghost<Seq<char>>) -> (r: Option<usize>)
    requires
        offs@.len() == s.len() + 1,
        forall|k: int| 0 <= k <= s.len() ==> (#[trigger] offs@[k]) == offset(s, k),
    ensures
        match (r, char_at(s, b as int, 0)) {
            (Some(k), Some(c)) => k == c && c <= s.len(),
            (None, None) => true,
            _ => false,
        },
{
    let mut k: usize = 0;
    while k < offs.len()
        invariant
            k <= offs@.len(),
            offs@.len() == s.len() + 1,
            forall|k: int| 0 <= k <= s.len() ==> (#[trigger] offs@[k]) == offset(s, k),
            char_at(s, b as int, 0) == char_at(s, b as int, k as int),
        decreases offs@.len() - k,
    {
        if offs[k] == b {
            return Some(k);
        }
        k = k + 1;
    }
    None
}

/// The snippet for a terminal: highlights in bold red, or in brackets.
pub fn render(snippet: &Snippet, color: bool) -> (r: String)
    ensures
        ({
            let t = snippet.text@;
            let hs = span_views(snippet.highlights@);
            let (out, pos) = rendered(t, hs, color, hs.len() as int);
            r@ == out + t.subrange(pos, t.len() as int)
        }),
{
    let ghost t = snippet.text@;
    let ghost hs = span_views(snippet.highlights@);
    let (open, close): (&str, &str) = if color {
        ("\x1b[1;31m", "\x1b[0m")
    } else {
        ("[", "]")
    };
    let text = snippet.text.as_str();
    let bytes = text.as_bytes();
    assert(bytes@.len() == bytes.len());
    let cs = chars_of(text);
    let offs = offsets(&cs);
    let mut out = String::new();
    let mut pos: usize = 0;
    let mut i: usize = 0;
    assert(out@ =~= Seq::empty());
    while i < snippet.highlights.len()
        invariant
            t == snippet.text@,
            hs == span_views(snippet.highlights@),
            cs@ == t,
            (open@, close@) == marks(color),
            offs@.len() == t.len() + 1,
            forall|k: int| 0 <= k <= t.len() ==> (#[trigger] offs@[k]) == offset(t, k),
            i <= snippet.highlights@.len(),
            pos <= t.len(),
            (out@, pos as int) == rendered(t, hs, color, i as int),
        decreases snippet.highlights@.len() - i,
    {
        let start: usize = snippet.highlights[i].start;
        let end: usize = snippet.highlights[i].end;
        assert(hs[i as int] == (start as int, end as int));
        let a = find_char(&offs, start, Ghost(t));
        let b = find_char(&offs, end, Ghost(t));
        match (a, b) {
            (Some(a), Some(b)) => {
                if pos <= a && a <= b {
                    out.push_str(text_of(&cs, pos, a).as_str());
                    out.push_str(open);
                    out.push_str(text_of(&cs, a, b).as_str());
                    out.push_str(close);
                    pos = b;
                }
            },
            _ => {},
        }
        i = i + 1;
    }
    out.push_str(text_of(&cs, pos, cs.len()).as_str());
    out
}

} // verus!
