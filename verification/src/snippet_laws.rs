//! What a snippet shows of a text.

use vstd::prelude::*;
use vstd::utf8::encode_utf8;

use crate::snippet::{
    best_line, char_at, first_char_from, lemma_offset_ascends, line_score, marks, matched, moved,
    offset, rendered, set_count, shown, term_place, window_start,
};
use crate::text::{byte_len, cut_space, lemma_byte_len, lemma_encode_concat, lemma_encode_push};
use crate::text::{skip_space, trimmed};
use crate::text_laws::{lemma_trim_at, trims};
use crate::token_laws::{is_token_of, lemma_tokens_are_of_text, one_by_one};
use crate::tokenizer::{atoms_apart, lemma_stands, text_atoms, text_tokens, TokenView};

verus! {

/// Some token of the line has the term.
pub open spec fn holds(line: Seq<char>, t: Seq<char>) -> bool {
    exists|k: int|
        0 <= k < text_tokens(line, true).len() && (#[trigger] text_tokens(line, true)[k]).term == t
}

/// The places of the terms that the line holds; of equal terms the first place counts.
pub open spec fn held(line: Seq<char>, terms: Seq<Seq<char>>) -> Set<int> {
    Set::new(
        |i: int|
            0 <= i < terms.len() && holds(line, terms[i]) && !terms.take(i).contains(terms[i]),
    )
}

proof fn lemma_place(terms: Seq<Seq<char>>, t: Seq<char>, i: int)
    requires
        0 <= i <= terms.len(),
    ensures
        i <= term_place(terms, t, i) <= terms.len(),
        forall|j: int| i <= j < term_place(terms, t, i) ==> #[trigger] terms[j] != t,
        term_place(terms, t, i) < terms.len() ==> terms[term_place(terms, t, i)] == t,
    decreases terms.len() - i,
{
    if i < terms.len() && terms[i] != t {
        lemma_place(terms, t, i + 1);
    }
}

spec fn had_by(ts: Seq<TokenView>, n: int, t: Seq<char>) -> bool {
    exists|k: int| 0 <= k < n && (#[trigger] ts[k]).term == t
}

proof fn lemma_seen(ts: Seq<TokenView>, terms: Seq<Seq<char>>, n: int)
    requires
        0 <= n <= ts.len(),
    ensures
        matched(ts, terms, n).0.len() == terms.len(),
        forall|i: int|
            0 <= i < terms.len() ==> (#[trigger] matched(ts, terms, n).0[i] <==> had_by(
                ts,
                n,
                terms[i],
            ) && !terms.take(i).contains(terms[i])),
    decreases n,
{
    if n > 0 {
        lemma_seen(ts, terms, n - 1);
        let t = ts[n - 1].term;
        let p = term_place(terms, t, 0);
        let before = matched(ts, terms, n - 1).0;
        let now = matched(ts, terms, n).0;
        lemma_place(terms, t, 0);
        assert forall|i: int| 0 <= i < terms.len() implies (#[trigger] now[i] <==> had_by(
            ts,
            n,
            terms[i],
        ) && !terms.take(i).contains(terms[i])) by {
            assert(before[i] <==> had_by(ts, n - 1, terms[i]) && !terms.take(i).contains(
                terms[i],
            ));
            if had_by(ts, n, terms[i]) && !had_by(ts, n - 1, terms[i]) {
                let k = choose|k: int| 0 <= k < n && (#[trigger] ts[k]).term == terms[i];
                assert(k == n - 1);
            }
            if i == p {
                assert(ts[n - 1].term == terms[i]);
                assert(had_by(ts, n, terms[i]));
                if terms.take(i).contains(terms[i]) {
                    let j = choose|j: int|
                        0 <= j < terms.take(i).len() && terms.take(i)[j] == terms[i];
                    assert(terms[j] != t);
                }
            } else if terms[i] == t {
                assert(p < i);
                assert(terms.take(i)[p] == t);
                assert(terms.take(i).contains(t));
            }
        }
    } else {
        assert forall|i: int| 0 <= i < terms.len() implies !had_by(ts, 0, #[trigger] terms[i]) by {}
    }
}

proof fn lemma_count(s: Seq<bool>)
    ensures
        Set::new(|i: int| 0 <= i < s.len() && s[i]).finite(),
        Set::new(|i: int| 0 <= i < s.len() && s[i]).len() == set_count(s),
    decreases s.len(),
{
    let all = Set::new(|i: int| 0 <= i < s.len() && s[i]);
    if s.len() == 0 {
        assert(all =~= Set::empty());
    } else {
        let f = s.drop_last();
        let before = Set::new(|i: int| 0 <= i < f.len() && f[i]);
        lemma_count(f);
        if s.last() {
            assert(all =~= before.insert(f.len() as int));
        } else {
            assert(all =~= before);
        }
    }
}

proof fn lemma_score(line: Seq<char>, terms: Seq<Seq<char>>)
    ensures
        held(line, terms).finite(),
        line_score(line, terms).0 == held(line, terms).len(),
{
    let ts = text_tokens(line, true);
    let n = ts.len() as int;
    let seen = matched(ts, terms, n).0;
    lemma_seen(ts, terms, n);
    lemma_count(seen);
    assert(held(line, terms) =~= Set::new(|i: int| 0 <= i < seen.len() && seen[i])) by {
        assert forall|i: int| 0 <= i < terms.len() implies (seen[i] <==> held(
            line,
            terms,
        ).contains(i)) by {
            assert(had_by(ts, n, terms[i]) <==> holds(line, terms[i]));
        }
    }
}

/// Line `b` holds more of the terms than the lines before it, and no line holds more.
pub open spec fn is_best(ls: Seq<Seq<char>>, terms: Seq<Seq<char>>, b: int) -> bool {
    &&& 0 <= b < ls.len()
    &&& held(ls[b], terms).len() > 0
    &&& forall|k: int|
        0 <= k < ls.len() ==> held(#[trigger] ls[k], terms).len() <= held(ls[b], terms).len()
    &&& forall|k: int|
        0 <= k < b ==> held(#[trigger] ls[k], terms).len() < held(ls[b], terms).len()
}

proof fn lemma_best(ls: Seq<Seq<char>>, terms: Seq<Seq<char>>, n: int)
    requires
        0 <= n <= ls.len(),
    ensures
        match best_line(ls, terms, n) {
            None => forall|k: int| 0 <= k < n ==> held(#[trigger] ls[k], terms).len() == 0,
            Some(b) => is_best(ls.take(n), terms, b),
        },
    decreases n,
{
    if n > 0 {
        lemma_best(ls, terms, n - 1);
        lemma_score(ls[n - 1], terms);
        let before = ls.take(n - 1);
        let now = ls.take(n);
        assert(now[n - 1] == ls[n - 1]);
        assert forall|k: int| 0 <= k < n - 1 implies #[trigger] now[k] == before[k] by {}
        match best_line(ls, terms, n - 1) {
            None => {
                assert forall|k: int| 0 <= k < n - 1 implies held(
                    #[trigger] now[k],
                    terms,
                ).len() == 0 by {
                    assert(now[k] == ls[k]);
                }
            },
            Some(b) => {
                lemma_score(ls[b], terms);
                assert(before[b] == ls[b]);
                assert forall|k: int| 0 <= k < n - 1 implies held(
                    #[trigger] now[k],
                    terms,
                ).len() <= held(ls[b], terms).len() by {
                    assert(now[k] == before[k]);
                }
            },
        }
    }
}

/// The line of a snippet holds the most distinct terms, the earliest of equal ones; there is
/// none only where no line holds any.
pub proof fn lemma_best_line(ls: Seq<Seq<char>>, terms: Seq<Seq<char>>)
    ensures
        match best_line(ls, terms, ls.len() as int) {
            None => forall|k: int|
                0 <= k < ls.len() ==> held(#[trigger] ls[k], terms) == Set::<int>::empty(),
            Some(b) => is_best(ls, terms, b),
        },
{
    lemma_best(ls, terms, ls.len() as int);
    assert(ls.take(ls.len() as int) =~= ls);
    if best_line(ls, terms, ls.len() as int) is None {
        assert forall|k: int| 0 <= k < ls.len() implies held(#[trigger] ls[k], terms) == Set::<
            int,
        >::empty() by {
            lemma_score(ls[k], terms);
            assert(held(ls[k], terms).len() == 0);
            assert(held(ls[k], terms) =~= Set::<int>::empty());
        }
    }
}

/// A token from `a` to `b` has one of the terms.
pub open spec fn has_term_at(
    ts: Seq<TokenView>,
    terms: Seq<Seq<char>>,
    n: int,
    a: int,
    b: int,
) -> bool {
    exists|k: int|
        0 <= k < n && terms.contains((#[trigger] ts[k]).term) && ts[k].start == a && ts[k].end == b
}

/// Two tokens share their bytes or have none in common.
spec fn parted(ts: Seq<TokenView>) -> bool {
    &&& forall|i: int| 0 <= i < ts.len() ==> (#[trigger] ts[i]).start < ts[i].end
    &&& forall|i: int, j: int|
        #![trigger ts[i], ts[j]]
        0 <= i < j < ts.len() ==> ts[i].end <= ts[j].start || ts[i].start == ts[j].start
            && ts[i].end == ts[j].end
}

proof fn lemma_spans(ts: Seq<TokenView>, terms: Seq<Seq<char>>, n: int)
    requires
        0 <= n <= ts.len(),
    ensures
        forall|a: int, b: int| #[trigger]
            matched(ts, terms, n).1.contains((a, b)) <==> has_term_at(ts, terms, n, a, b),
        parted(ts) ==> one_by_one(matched(ts, terms, n).1),
    decreases n,
{
    let now = matched(ts, terms, n).1;
    if n > 0 {
        lemma_spans(ts, terms, n - 1);
        let before = matched(ts, terms, n - 1).1;
        let t = ts[n - 1];
        let span = (t.start as int, t.end as int);
        let p = term_place(terms, t.term, 0);
        lemma_place(terms, t.term, 0);
        assert(terms.contains(t.term) <==> p < terms.len());
        assert forall|a: int, b: int| #[trigger] now.contains((a, b)) <==> has_term_at(
            ts,
            terms,
            n,
            a,
            b,
        ) by {
            assert(before.contains((a, b)) <==> has_term_at(ts, terms, n - 1, a, b));
            if now.contains((a, b)) {
                let i = choose|i: int| 0 <= i < now.len() && now[i] == (a, b);
                if i < before.len() {
                    assert(before[i] == (a, b));
                    assert(before.contains((a, b)));
                    let k = choose|k: int|
                        0 <= k < n - 1 && terms.contains((#[trigger] ts[k]).term) && ts[k].start
                            == a && ts[k].end == b;
                    assert(terms.contains(ts[k].term));
                } else {
                    assert(terms.contains(ts[n - 1].term));
                }
            }
            if has_term_at(ts, terms, n, a, b) {
                let k = choose|k: int|
                    0 <= k < n && terms.contains((#[trigger] ts[k]).term) && ts[k].start == a
                        && ts[k].end == b;
                if k < n - 1 {
                    assert(before.contains((a, b)));
                    let i = choose|i: int| 0 <= i < before.len() && before[i] == (a, b);
                    assert(now[i] == (a, b));
                } else {
                    assert(now.last() == (a, b));
                    assert(now[now.len() - 1] == (a, b));
                }
            }
        }
        if parted(ts) && p < terms.len() && now != before {
            assert forall|i: int, j: int| 0 <= i < j < now.len() implies (#[trigger] now[i]).1 <= (
            #[trigger] now[j]).0 by {
                if j < before.len() {
                    assert(before[i].1 <= before[j].0);
                } else {
                    assert(now[j] == span);
                    let last = before[before.len() - 1];
                    assert(before.contains((last.0, last.1)));
                    let k = choose|k: int|
                        0 <= k < n - 1 && terms.contains((#[trigger] ts[k]).term) && ts[k].start
                            == last.0 && ts[k].end == last.1;
                    assert(ts[k].end <= ts[n - 1].start);
                    assert(ts[k].start < ts[k].end);
                    if i < before.len() - 1 {
                        assert(before[i].1 <= before[before.len() - 1].0);
                    }
                }
            }
        }
    } else {
        assert(now =~= Seq::empty());
    }
}

/// The spans of a line are those of its tokens with one of the terms, each once, in order and
/// apart.
pub proof fn lemma_line_spans(line: Seq<char>, terms: Seq<Seq<char>>)
    requires
        text_atoms(line).len() <= u32::MAX,
        atoms_apart(line, text_atoms(line)),
    ensures
        forall|a: int, b: int| #[trigger]
            line_score(line, terms).1.contains((a, b)) <==> has_term_at(
                text_tokens(line, true),
                terms,
                text_tokens(line, true).len() as int,
                a,
                b,
            ),
        one_by_one(line_score(line, terms).1),
        forall|k: int|
            0 <= k < line_score(line, terms).1.len() ==> 0 <= (#[trigger] line_score(
                line,
                terms,
            ).1[k]).0 < line_score(line, terms).1[k].1 <= byte_len(line),
{
    let ts = text_tokens(line, true);
    let n = ts.len() as int;
    let atoms = text_atoms(line);
    let spans = line_score(line, terms).1;
    assert forall|i: int| 0 <= i < ts.len() implies is_token_of(
        atoms,
        (#[trigger] ts[i]).position as int,
        true,
        ts[i],
    ) && stands_within(line, ts[i]) by {
        lemma_tokens_are_of_text(line, true, ts[i]);
        assert(ts.contains(ts[i]));
        let k = choose|k: int| #[trigger] is_token_of(atoms, k, true, ts[i]);
        lemma_stands(line, atoms[k]);
    }
    assert(parted(ts)) by {
        assert forall|i: int, j: int|
            #![trigger ts[i], ts[j]]
            0 <= i < j < ts.len() implies ts[i].end <= ts[j].start || ts[i].start == ts[j].start
            && ts[i].end == ts[j].end by {
            lemma_tokens_are_of_text(line, true, ts[i]);
            assert(stands_within(line, ts[i]));
            assert(stands_within(line, ts[j]));
            let a = ts[i].position as int;
            let b = ts[j].position as int;
            assert(a <= b);
            if a < b {
                assert(atoms[a].start + byte_len(atoms[a].text) <= atoms[b].start);
            }
        }
        assert forall|i: int| 0 <= i < ts.len() implies (#[trigger] ts[i]).start < ts[i].end by {
            assert(stands_within(line, ts[i]));
        }
    }
    lemma_spans(ts, terms, n);
    assert forall|k: int| 0 <= k < spans.len() implies 0 <= (#[trigger] spans[k]).0 < spans[k].1
        <= byte_len(line) by {
        assert(spans.contains((spans[k].0, spans[k].1)));
        let i = choose|i: int|
            0 <= i < n && terms.contains((#[trigger] ts[i]).term) && ts[i].start == spans[k].0
                && ts[i].end == spans[k].1;
        assert(stands_within(line, ts[i]));
    }
}

spec fn stands_within(line: Seq<char>, t: TokenView) -> bool {
    t.start < t.end <= byte_len(line)
}

/// Span `k` lies within the characters `a..b` of the line.
pub open spec fn inside(line: Seq<char>, spans: Seq<(int, int)>, k: int, a: int, b: int) -> bool {
    &&& 0 <= k < spans.len()
    &&& byte_len(line.take(a)) <= spans[k].0
    &&& spans[k].1 <= byte_len(line.take(b))
}

/// Character `f` is where the first span within `a..b` starts; `a` where there is none.
pub open spec fn first_starts(
    line: Seq<char>,
    spans: Seq<(int, int)>,
    a: int,
    b: int,
    f: int,
) -> bool {
    &&& a <= f <= b
    &&& (forall|k: int| !#[trigger] inside(line, spans, k, a, b)) ==> f == a
    &&& forall|k: int| #[trigger]
        inside(line, spans, k, a, b) && (forall|j: int| j < k ==> !#[trigger] inside(
            line,
            spans,
            j,
            a,
            b,
        )) ==> spans[k].0 <= byte_len(line.take(f)) && (a < f ==> byte_len(line.take(f - 1))
            < spans[k].0)
}

/// Of a line that is left between `ta` and `tb`, the characters `a..b` are shown: all of them
/// where they fit, else as many as fit, from a quarter of the width before the first span on,
/// or as near to that as a full window allows.
pub open spec fn in_window(
    line: Seq<char>,
    spans: Seq<(int, int)>,
    width: int,
    ta: int,
    tb: int,
    a: int,
    b: int,
) -> bool {
    if tb - ta <= width || width == 0 {
        a == ta && b == tb
    } else {
        &&& ta <= a && b == a + width && b <= tb
        &&& exists|f: int| #[trigger]
            first_starts(line, spans, ta, tb, f) && (a == f - width / 4 || a == ta && f - width / 4
                < ta || b == tb && f - width / 4 > a)
    }
}

/// The mark of a cut.
pub open spec fn dots(cut: bool) -> Seq<char> {
    if cut {
        seq!['…']
    } else {
        Seq::empty()
    }
}

/// The highlights are the spans within `a..b`, counted from `m` bytes before `a` on.
pub open spec fn highlights_are(
    line: Seq<char>,
    spans: Seq<(int, int)>,
    a: int,
    b: int,
    m: int,
    hs: Seq<(int, int)>,
) -> bool {
    &&& forall|x: int, y: int| #[trigger]
        hs.contains((x, y)) <==> exists|k: int| #[trigger]
            inside(line, spans, k, a, b) && x == spans[k].0 - byte_len(line.take(a)) + m && y
                == spans[k].1 - byte_len(line.take(a)) + m
    &&& one_by_one(spans) ==> one_by_one(hs)
}

/// The text and the highlights show the characters `a..b` of a line that is left between `ta`
/// and `tb`.
pub open spec fn shows(
    line: Seq<char>,
    spans: Seq<(int, int)>,
    width: int,
    ta: int,
    tb: int,
    a: int,
    b: int,
    text: Seq<char>,
    hs: Seq<(int, int)>,
) -> bool {
    &&& trims(line, ta, tb)
    &&& in_window(line, spans, width, ta, tb, a, b)
    &&& text == dots(ta < a) + line.subrange(a, b) + dots(b < tb)
    &&& highlights_are(
        line,
        spans,
        a,
        b,
        if ta < a {
            3
        } else {
            0
        },
        hs,
    )
}

spec fn kept(spans: Seq<(int, int)>, lo: int, hi: int, k: int) -> bool {
    0 <= k < spans.len() && lo <= spans[k].0 && spans[k].1 <= hi
}

proof fn lemma_moved(spans: Seq<(int, int)>, lo: int, hi: int, by: int, n: int)
    requires
        0 <= n <= spans.len(),
    ensures
        forall|x: int, y: int| #[trigger]
            moved(spans, lo, hi, by, n).contains((x, y)) <==> exists|k: int|
                k < n && #[trigger] kept(spans, lo, hi, k) && x == spans[k].0 + by && y
                    == spans[k].1 + by,
        one_by_one(spans) ==> one_by_one(moved(spans, lo, hi, by, n)),
        moved(spans, lo, hi, by, n).len() == 0 ==> forall|k: int|
            k < n ==> !#[trigger] kept(spans, lo, hi, k),
        moved(spans, lo, hi, by, n).len() > 0 ==> exists|k: int|
            k < n && #[trigger] kept(spans, lo, hi, k) && (forall|j: int|
                j < k ==> !#[trigger] kept(spans, lo, hi, j)) && moved(spans, lo, hi, by, n)[0] == (
                spans[k].0 + by,
                spans[k].1 + by,
            ),
    decreases n,
{
    let now = moved(spans, lo, hi, by, n);
    if n > 0 {
        lemma_moved(spans, lo, hi, by, n - 1);
        let before = moved(spans, lo, hi, by, n - 1);
        let (a, b) = spans[n - 1];
        let here = kept(spans, lo, hi, n - 1);
        assert forall|x: int, y: int| #[trigger] now.contains((x, y)) <==> exists|k: int|
            k < n && #[trigger] kept(spans, lo, hi, k) && x == spans[k].0 + by && y == spans[k].1
                + by by {
            if now.contains((x, y)) {
                let i = choose|i: int| 0 <= i < now.len() && now[i] == (x, y);
                if i < before.len() {
                    assert(before[i] == (x, y));
                    assert(before.contains((x, y)));
                    let k = choose|k: int|
                        k < n - 1 && #[trigger] kept(spans, lo, hi, k) && x == spans[k].0 + by && y
                            == spans[k].1 + by;
                    assert(kept(spans, lo, hi, k));
                } else {
                    assert(here);
                }
            }
            if exists|k: int|
                k < n && #[trigger] kept(spans, lo, hi, k) && x == spans[k].0 + by && y
                    == spans[k].1 + by {
                let k = choose|k: int|
                    k < n && #[trigger] kept(spans, lo, hi, k) && x == spans[k].0 + by && y
                        == spans[k].1 + by;
                if k < n - 1 {
                    assert(before.contains((x, y)));
                    let i = choose|i: int| 0 <= i < before.len() && before[i] == (x, y);
                    assert(now[i] == (x, y));
                } else {
                    assert(now[now.len() - 1] == (x, y));
                }
            }
        }
        if one_by_one(spans) && here {
            assert forall|i: int, j: int| 0 <= i < j < now.len() implies (#[trigger] now[i]).1 <= (
            #[trigger] now[j]).0 by {
                if j < before.len() {
                    assert(before[i].1 <= before[j].0);
                } else {
                    assert(before.contains((before[i].0, before[i].1)));
                    let k = choose|k: int|
                        k < n - 1 && #[trigger] kept(spans, lo, hi, k) && before[i].0 == spans[k].0
                            + by && before[i].1 == spans[k].1 + by;
                    assert(spans[k].1 <= spans[n - 1].0);
                }
            }
        }
        if before.len() > 0 {
            let k = choose|k: int|
                k < n - 1 && #[trigger] kept(spans, lo, hi, k) && (forall|j: int|
                    j < k ==> !#[trigger] kept(spans, lo, hi, j)) && before[0] == (
                    spans[k].0 + by,
                    spans[k].1 + by,
                );
            assert(kept(spans, lo, hi, k) && now[0] == before[0]);
        } else if now.len() > 0 {
            assert(here && now[0] == (a + by, b + by));
        }
    } else {
        assert(now =~= Seq::empty());
    }
}

proof fn lemma_first_char(s: Seq<char>, b: int, k: int)
    requires
        0 <= k <= s.len(),
        b <= byte_len(s),
    ensures
        ({
            let f = first_char_from(s, b, k);
            &&& k <= f <= s.len()
            &&& b <= byte_len(s.take(f))
            &&& k < f ==> byte_len(s.take(f - 1)) < b
        }),
    decreases s.len() - k,
{
    assert(s.take(s.len() as int) =~= s);
    if k < s.len() && offset(s, k) < b {
        lemma_first_char(s, b, k + 1);
    }
}

/// Characters of a part of the line start where they do in the line.
proof fn lemma_part_offset(line: Seq<char>, a: int, b: int, k: int)
    requires
        0 <= a <= b <= line.len(),
        0 <= k <= b - a,
    ensures
        byte_len(line.take(a + k)) == byte_len(line.take(a)) + byte_len(line.subrange(a, b).take(k)),
{
    lemma_encode_concat(line.take(a), line.subrange(a, b).take(k));
    assert(line.take(a + k) =~= line.take(a) + line.subrange(a, b).take(k));
}

proof fn lemma_dots(cut: bool)
    ensures
        byte_len(dots(cut)) == if cut {
            3nat
        } else {
            0
        },
        cut ==> dots(cut) == "…"@,
{
    reveal_strlit("…");
    assert("…"@ =~= seq!['…']);
    lemma_byte_len(Seq::<char>::empty());
    lemma_encode_push(Seq::empty(), '…');
    assert(Seq::<char>::empty().push('…') =~= seq!['…']);
    assert('…' as u32 == 0x2026);
}

/// A snippet shows the line without the white space at its ends, all of it or a window of the
/// width, the cuts marked, with every span highlighted that lies within what is shown.
#[verifier::rlimit(60)]
pub proof fn lemma_shown(line: Seq<char>, spans: Seq<(int, int)>, width: int)
    requires
        width >= 0,
        forall|k: int| 0 <= k < spans.len() ==> (#[trigger] spans[k]).0 <= spans[k].1,
    ensures
        exists|ta: int, tb: int, a: int, b: int| #[trigger]
            shows(
                line,
                spans,
                width,
                ta,
                tb,
                a,
                b,
                shown(line, spans, width).0,
                shown(line, spans, width).1,
            ),
{
    let (text, hs) = shown(line, spans, width);
    let ta = skip_space(line, 0);
    let tb = cut_space(line, ta, line.len() as int);
    lemma_trim_at(line);
    let t = trimmed(line);
    let n = t.len() as int;
    let lead = offset(line, ta);
    let own = moved(spans, lead, lead + byte_len(t), -lead, spans.len() as int);
    lemma_moved(spans, lead, lead + byte_len(t), -lead, spans.len() as int);
    lemma_part_offset(line, ta, tb, n);
    assert(t.take(n) =~= t);
    assert forall|k: int| #[trigger] kept(spans, lead, lead + byte_len(t), k) <==> inside(
        line,
        spans,
        k,
        ta,
        tb,
    ) by {}
    lemma_dots(true);
    lemma_dots(false);
    if n <= width || width == 0 {
        assert(dots(false) + line.subrange(ta, tb) + dots(false) =~= t);
        assert forall|x: int, y: int| #[trigger] hs.contains((x, y)) <==> exists|k: int| #[trigger]
            inside(line, spans, k, ta, tb) && x == spans[k].0 - byte_len(line.take(ta)) && y
                == spans[k].1 - byte_len(line.take(ta)) by {
            lemma_same_highlights(line, spans, ta, tb, x, y);
        }
        assert(highlights_are(line, spans, ta, tb, 0, hs));
        assert(shows(line, spans, width, ta, tb, ta, tb, text, hs));
    } else {
        let first = if own.len() > 0 {
            own[0].0
        } else {
            0
        };
        if own.len() > 0 {
            let k = choose|k: int|
                k < spans.len() && #[trigger] kept(spans, lead, lead + byte_len(t), k) && (forall|
                    j: int,
                |
                    j < k ==> !#[trigger] kept(spans, lead, lead + byte_len(t), j)) && own[0] == (
                    spans[k].0 - lead,
                    spans[k].1 - lead,
                );
            assert(first <= byte_len(t));
        }
        lemma_first_char(t, first, 0);
        let g = first_char_from(t, first, 0);
        let a = window_start(g, n, width);
        let b = a + width;
        assert(first_starts(line, spans, ta, tb, ta + g)) by {
            lemma_part_offset(line, ta, tb, g);
            if g > 0 {
                lemma_part_offset(line, ta, tb, g - 1);
            }
            if own.len() == 0 {
                assert(g == 0) by {
                    assert(t.take(0) =~= Seq::empty());
                }
                assert forall|k: int| !#[trigger] inside(line, spans, k, ta, tb) by {
                    assert(!kept(spans, lead, lead + byte_len(t), k));
                }
            } else {
                let f = choose|k: int|
                    k < spans.len() && #[trigger] kept(spans, lead, lead + byte_len(t), k) && (
                    forall|j: int|
                        j < k ==> !#[trigger] kept(spans, lead, lead + byte_len(t), j)) && own[0]
                        == (spans[k].0 - lead, spans[k].1 - lead);
                assert(inside(line, spans, f, ta, tb));
                assert forall|k: int| #[trigger]
                    inside(line, spans, k, ta, tb) && (forall|j: int|
                        j < k ==> !#[trigger] inside(line, spans, j, ta, tb)) implies k == f by {
                    assert(kept(spans, lead, lead + byte_len(t), k));
                    if f < k {
                        assert(!inside(line, spans, f, ta, tb));
                    }
                }
            }
        }
        let before = dots(a > 0);
        lemma_dots(a > 0);
        lemma_part_offset(line, ta, tb, a);
        lemma_part_offset(line, ta, tb, b);
        lemma_offset_ascends(line, ta, ta + a);
        lemma_offset_ascends(line, ta + b, tb);
        assert(text =~= dots(ta < ta + a) + line.subrange(ta + a, ta + b) + dots(ta + b < tb)) by {
            assert(t.subrange(a, b) =~= line.subrange(ta + a, ta + b));
        }
        let by = byte_len(before) - offset(t, a);
        lemma_moved(own, offset(t, a), offset(t, b), by, own.len() as int);
        assert forall|x: int, y: int| #[trigger] hs.contains((x, y)) <==> exists|k: int| #[trigger]
            inside(line, spans, k, ta + a, ta + b) && x == spans[k].0 - byte_len(
                line.take(ta + a),
            ) + byte_len(before) && y == spans[k].1 - byte_len(line.take(ta + a)) + byte_len(
                before,
            ) by {
            if hs.contains((x, y)) {
                let i = choose|i: int|
                    i < own.len() && #[trigger] kept(own, offset(t, a), offset(t, b), i) && x
                        == own[i].0 + by && y == own[i].1 + by;
                assert(own.contains((own[i].0, own[i].1)));
                let k = choose|k: int|
                    k < spans.len() && #[trigger] kept(spans, lead, lead + byte_len(t), k)
                        && own[i].0 == spans[k].0 + -lead && own[i].1 == spans[k].1 + -lead;
                assert(inside(line, spans, k, ta + a, ta + b));
            }
            if exists|k: int| #[trigger]
                inside(line, spans, k, ta + a, ta + b) && x == spans[k].0 - byte_len(
                    line.take(ta + a),
                ) + byte_len(before) && y == spans[k].1 - byte_len(line.take(ta + a)) + byte_len(
                    before,
                ) {
                let k = choose|k: int| #[trigger]
                    inside(line, spans, k, ta + a, ta + b) && x == spans[k].0 - byte_len(
                        line.take(ta + a),
                    ) + byte_len(before) && y == spans[k].1 - byte_len(line.take(ta + a))
                        + byte_len(before);
                assert(kept(spans, lead, lead + byte_len(t), k));
                assert(own.contains((spans[k].0 - lead, spans[k].1 - lead)));
                let i = choose|i: int|
                    0 <= i < own.len() && own[i] == (spans[k].0 - lead, spans[k].1 - lead);
                assert(kept(own, offset(t, a), offset(t, b), i));
            }
        }
        assert(in_window(line, spans, width, ta, tb, ta + a, ta + b));
        assert(shows(line, spans, width, ta, tb, ta + a, ta + b, text, hs));
    }
}

proof fn lemma_same_highlights(
    line: Seq<char>,
    spans: Seq<(int, int)>,
    ta: int,
    tb: int,
    x: int,
    y: int,
)
    requires
        0 <= ta <= tb <= line.len(),
    ensures
        ({
            let lead = byte_len(line.take(ta)) as int;
            let end = byte_len(line.take(tb)) as int;
            (exists|k: int|
                k < spans.len() && #[trigger] kept(spans, lead, end, k) && x == spans[k].0 + -lead
                    && y == spans[k].1 + -lead) <==> (exists|k: int| #[trigger]
                inside(line, spans, k, ta, tb) && x == spans[k].0 - lead && y == spans[k].1 - lead)
        }),
{
    let lead = byte_len(line.take(ta)) as int;
    let end = byte_len(line.take(tb)) as int;
    if exists|k: int|
        k < spans.len() && #[trigger] kept(spans, lead, end, k) && x == spans[k].0 + -lead && y
            == spans[k].1 + -lead {
        let k = choose|k: int|
            k < spans.len() && #[trigger] kept(spans, lead, end, k) && x == spans[k].0 + -lead && y
                == spans[k].1 + -lead;
        assert(inside(line, spans, k, ta, tb));
    }
    if exists|k: int| #[trigger]
        inside(line, spans, k, ta, tb) && x == spans[k].0 - lead && y == spans[k].1 - lead {
        let k = choose|k: int| #[trigger]
            inside(line, spans, k, ta, tb) && x == spans[k].0 - lead && y == spans[k].1 - lead;
        assert(kept(spans, lead, end, k));
    }
}

/// What a snippet highlights are the bytes of a span of the line.
pub proof fn lemma_highlighted_bytes(
    line: Seq<char>,
    spans: Seq<(int, int)>,
    width: int,
    x: int,
    y: int,
)
    requires
        width >= 0,
        forall|k: int| 0 <= k < spans.len() ==> (#[trigger] spans[k]).0 <= spans[k].1,
        shown(line, spans, width).1.contains((x, y)),
    ensures
        0 <= x <= y <= byte_len(shown(line, spans, width).0),
        exists|k: int|
            0 <= k < spans.len() && encode_utf8(line).subrange(
                (#[trigger] spans[k]).0,
                spans[k].1,
            ) == encode_utf8(shown(line, spans, width).0).subrange(x, y),
{
    let (text, hs) = shown(line, spans, width);
    lemma_shown(line, spans, width);
    let (ta, tb, a, b) = choose|ta: int, tb: int, a: int, b: int| #[trigger]
        shows(line, spans, width, ta, tb, a, b, text, hs);
    lemma_dots(ta < a);
    let m = byte_len(dots(ta < a)) as int;
    assert(highlights_are(line, spans, a, b, m, hs));
    let k = choose|k: int| #[trigger]
        inside(line, spans, k, a, b) && x == spans[k].0 - byte_len(line.take(a)) + m && y
            == spans[k].1 - byte_len(line.take(a)) + m;
    assert(spans[k].0 <= spans[k].1);
    lemma_same_bytes(line, a, b, dots(ta < a), dots(b < tb), spans[k].0, spans[k].1);
}

/// Where a part of the line stands in another text, its bytes do.
proof fn lemma_same_bytes(
    line: Seq<char>,
    a: int,
    b: int,
    before: Seq<char>,
    behind: Seq<char>,
    p: int,
    q: int,
)
    requires
        0 <= a <= b <= line.len(),
        byte_len(line.take(a)) <= p <= q <= byte_len(line.take(b)),
    ensures
        ({
            let text = before + line.subrange(a, b) + behind;
            let by = byte_len(before) - byte_len(line.take(a));
            &&& q + by <= byte_len(text)
            &&& encode_utf8(line).subrange(p, q) == encode_utf8(text).subrange(p + by, q + by)
        }),
{
    let mid = line.subrange(a, b);
    let rest = line.subrange(b, line.len() as int);
    lemma_encode_concat(before + mid, behind);
    lemma_encode_concat(before, mid);
    lemma_encode_concat(line.take(a), mid);
    lemma_encode_concat(line.take(a) + mid, rest);
    assert(line.take(a) + mid =~= line.take(b));
    assert(line.take(b) + rest =~= line);
    let by = byte_len(before) - byte_len(line.take(a));
    let inner = encode_utf8(mid).subrange(p - byte_len(line.take(a)), q - byte_len(line.take(a)));
    assert(encode_utf8(line).subrange(p, q) =~= inner);
    assert(encode_utf8(before + mid + behind).subrange(p + by, q + by) =~= inner);
}

proof fn lemma_char_at(s: Seq<char>, b: int, k: int)
    requires
        0 <= k <= s.len() + 1,
    ensures
        match char_at(s, b, k) {
            Some(c) => k <= c <= s.len() && byte_len(s.take(c)) == b,
            None => forall|c: int| k <= c <= s.len() ==> byte_len(#[trigger] s.take(c)) != b,
        },
    decreases s.len() + 1 - k,
{
    if k <= s.len() && offset(s, k) != b {
        lemma_char_at(s, b, k + 1);
    }
}

/// The characters of the text that highlight `k` marks are `cs[k]`, and they lie one behind
/// the other.
pub open spec fn marks_chars(
    text: Seq<char>,
    hs: Seq<(int, int)>,
    cs: Seq<(int, int)>,
) -> bool {
    &&& cs.len() == hs.len()
    &&& one_by_one(cs)
    &&& forall|k: int|
        0 <= k < cs.len() ==> 0 <= (#[trigger] cs[k]).0 <= cs[k].1 <= text.len() && byte_len(
            text.take(cs[k].0),
        ) == hs[k].0 && byte_len(text.take(cs[k].1)) == hs[k].1
}

/// The marks of a terminal, or of plain text.
pub open spec fn opening(color: bool) -> Seq<char> {
    if color {
        seq!['\x1b', '[', '1', ';', '3', '1', 'm']
    } else {
        seq!['[']
    }
}

pub open spec fn closing(color: bool) -> Seq<char> {
    if color {
        seq!['\x1b', '[', '0', 'm']
    } else {
        seq![']']
    }
}

/// The text from `from` up to `to`, each of the first `n` stretches put between marks.
pub open spec fn marked(
    text: Seq<char>,
    cs: Seq<(int, int)>,
    color: bool,
    n: int,
    i: int,
) -> Seq<char>
    decreases n - i,
{
    if i >= n {
        Seq::empty()
    } else {
        let from = if i > 0 {
            cs[i - 1].1
        } else {
            0
        };
        text.subrange(from, cs[i].0) + opening(color) + text.subrange(cs[i].0, cs[i].1) + closing(
            color,
        ) + marked(text, cs, color, n, i + 1)
    }
}

proof fn lemma_marked_grows(text: Seq<char>, cs: Seq<(int, int)>, color: bool, n: int, i: int)
    requires
        0 <= i <= n,
    ensures
        marked(text, cs, color, n + 1, i) == marked(text, cs, color, n, i) + marked(
            text,
            cs,
            color,
            n + 1,
            n,
        ),
    decreases n - i,
{
    if i < n {
        lemma_marked_grows(text, cs, color, n, i + 1);
        assert(marked(text, cs, color, n + 1, i) =~= marked(text, cs, color, n, i) + marked(
            text,
            cs,
            color,
            n + 1,
            n,
        ));
    } else {
        assert(marked(text, cs, color, n, i) =~= Seq::empty());
        assert(marked(text, cs, color, n + 1, i) =~= Seq::empty() + marked(
            text,
            cs,
            color,
            n + 1,
            n,
        ));
    }
}

proof fn lemma_starts_once(s: Seq<char>, a: int, b: int)
    requires
        0 <= a <= s.len(),
        0 <= b <= s.len(),
        byte_len(s.take(a)) == byte_len(s.take(b)),
    ensures
        a == b,
{
    if a < b {
        lemma_offset_ascends(s, a, b);
    } else {
        lemma_offset_ascends(s, b, a);
    }
}

proof fn lemma_rendered(text: Seq<char>, hs: Seq<(int, int)>, cs: Seq<(int, int)>, color: bool, n: int)
    requires
        marks_chars(text, hs, cs),
        0 <= n <= hs.len(),
    ensures
        rendered(text, hs, color, n).0 == marked(text, cs, color, n, 0),
        rendered(text, hs, color, n).1 == if n > 0 {
            cs[n - 1].1
        } else {
            0
        },
    decreases n,
{
    if n > 0 {
        lemma_rendered(text, hs, cs, color, n - 1);
        let (a, b) = cs[n - 1];
        lemma_char_at(text, hs[n - 1].0, 0);
        lemma_char_at(text, hs[n - 1].1, 0);
        assert(byte_len(text.take(a)) == hs[n - 1].0);
        assert(byte_len(text.take(b)) == hs[n - 1].1);
        lemma_starts_once(text, a, char_at(text, hs[n - 1].0, 0)->0);
        lemma_starts_once(text, b, char_at(text, hs[n - 1].1, 0)->0);
        if n > 1 {
            assert(cs[n - 2].1 <= cs[n - 1].0);
        }
        reveal_strlit("\x1b[1;31m");
        reveal_strlit("\x1b[0m");
        reveal_strlit("[");
        reveal_strlit("]");
        assert(marks(color).0 =~= opening(color));
        assert(marks(color).1 =~= closing(color));
        lemma_marked_grows(text, cs, color, n - 1, 0);
        assert(marked(text, cs, color, n, n) =~= Seq::empty());
        assert(rendered(text, hs, color, n).0 =~= marked(text, cs, color, n, 0));
    }
}

/// Rendered, a text has each highlight between marks and is else unchanged.
pub proof fn lemma_render_marks(text: Seq<char>, hs: Seq<(int, int)>, cs: Seq<(int, int)>, color: bool)
    requires
        marks_chars(text, hs, cs),
    ensures
        rendered(text, hs, color, hs.len() as int).0 == marked(
            text,
            cs,
            color,
            cs.len() as int,
            0,
        ),
        rendered(text, hs, color, hs.len() as int).1 == if cs.len() > 0 {
            cs.last().1
        } else {
            0
        },
{
    lemma_rendered(text, hs, cs, color, hs.len() as int);
}

/// A highlight that does not lie between two characters, ends before it starts, or starts
/// before the end of the one before it changes nothing.
pub proof fn lemma_render_passes_over(
    text: Seq<char>,
    hs: Seq<(int, int)>,
    cs: Seq<(int, int)>,
    color: bool,
    h: (int, int),
)
    requires
        marks_chars(text, hs, cs),
        (forall|k: int| 0 <= k <= text.len() ==> byte_len(#[trigger] text.take(k)) != h.0) || (
        forall|k: int| 0 <= k <= text.len() ==> byte_len(#[trigger] text.take(k)) != h.1) || h.1
            < h.0 || hs.len() > 0 && h.0 < hs.last().1,
    ensures
        rendered(text, hs.push(h), color, hs.len() as int + 1) == rendered(
            text,
            hs,
            color,
            hs.len() as int,
        ),
{
    let n = hs.len() as int;
    lemma_rendered(text, hs, cs, color, n);
    lemma_same_rendered(text, hs, h, color, n);
    lemma_char_at(text, h.0, 0);
    lemma_char_at(text, h.1, 0);
    if let (Some(a), Some(b)) = (char_at(text, h.0, 0), char_at(text, h.1, 0)) {
        assert(byte_len(text.take(a)) == h.0);
        assert(byte_len(text.take(b)) == h.1);
        if a <= b {
            lemma_offset_ascends(text, a, b);
        }
        if n > 0 && cs[n - 1].1 <= a {
            assert(byte_len(text.take(cs[n - 1].1)) == hs[n - 1].1);
            lemma_offset_ascends(text, cs[n - 1].1, a);
        }
    }
}

proof fn lemma_same_rendered(text: Seq<char>, hs: Seq<(int, int)>, h: (int, int), color: bool, n: int)
    requires
        0 <= n <= hs.len(),
    ensures
        rendered(text, hs.push(h), color, n) == rendered(text, hs, color, n),
    decreases n,
{
    if n > 0 {
        lemma_same_rendered(text, hs, h, color, n - 1);
        assert(hs.push(h)[n - 1] == hs[n - 1]);
    }
}

} // verus!
