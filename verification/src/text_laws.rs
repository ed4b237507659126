//! What trimming and splitting into lines leave of a text.

use vstd::prelude::*;

use crate::text::{
    cut_space, lemma_line_end, line_at, line_end, lines_from, lower_ascii, same_ignoring_case,
    skip_space, trimmed, whitespace,
};

verus! {

/// Between `a` and `b` the text is left when the white space at its ends is gone.
pub open spec fn trims(s: Seq<char>, a: int, b: int) -> bool {
    &&& 0 <= a <= b <= s.len()
    &&& forall|i: int| 0 <= i < a ==> whitespace(#[trigger] s[i])
    &&& forall|i: int| b <= i < s.len() ==> whitespace(#[trigger] s[i])
    &&& a < b ==> !whitespace(s[a]) && !whitespace(s[b - 1])
}

pub(crate) proof fn lemma_skip(s: Seq<char>, i: int)
    requires
        0 <= i <= s.len(),
    ensures
        i <= skip_space(s, i) <= s.len(),
        forall|k: int| i <= k < skip_space(s, i) ==> whitespace(#[trigger] s[k]),
        skip_space(s, i) < s.len() ==> !whitespace(s[skip_space(s, i)]),
    decreases s.len() - i,
{
    if i < s.len() && whitespace(s[i]) {
        lemma_skip(s, i + 1);
    }
}

proof fn lemma_cut(s: Seq<char>, a: int, b: int)
    requires
        0 <= a <= b <= s.len(),
    ensures
        a <= cut_space(s, a, b) <= b,
        forall|k: int| cut_space(s, a, b) <= k < b ==> whitespace(#[trigger] s[k]),
        a < cut_space(s, a, b) ==> !whitespace(s[cut_space(s, a, b) - 1]),
    decreases b - a,
{
    if a < b && whitespace(s[b - 1]) {
        lemma_cut(s, a, b - 1);
    }
}

/// Trimming takes exactly the white space at both ends away.
pub proof fn lemma_trimmed(s: Seq<char>)
    ensures
        exists|a: int, b: int| #[trigger] trims(s, a, b) && trimmed(s) == s.subrange(a, b),
{
    lemma_trim_at(s);
}

/// Where the trimmed text lies.
pub(crate) proof fn lemma_trim_at(s: Seq<char>)
    ensures
        ({
            let a = skip_space(s, 0);
            let b = cut_space(s, a, s.len() as int);
            trims(s, a, b) && trimmed(s) == s.subrange(a, b)
        }),
{
    lemma_skip(s, 0);
    let a = skip_space(s, 0);
    lemma_cut(s, a, s.len() as int);
    let b = cut_space(s, a, s.len() as int);
    if a < b {
        assert(!whitespace(s[a]));
    }
}

/// Line `k` of `ls` is what lies between two line feeds, without the carriage return before
/// the second.
pub open spec fn is_line(s: Seq<char>, a: int, e: int, line: Seq<char>) -> bool {
    &&& 0 <= a <= e <= s.len()
    &&& a == 0 || s[a - 1] == '\n'
    &&& a < s.len()
    &&& forall|i: int| a <= i < e ==> #[trigger] s[i] != '\n'
    &&& e == s.len() || s[e] == '\n'
    &&& line == if e < s.len() && a < e && s[e - 1] == '\r' {
        s.subrange(a, e - 1)
    } else {
        s.subrange(a, e)
    }
}

/// The lines lie at these places, each behind the one before it, and nothing is left out.
pub open spec fn are_lines(s: Seq<char>, from: int, at: Seq<(int, int)>, ls: Seq<Seq<char>>) -> bool {
    &&& at.len() == ls.len()
    &&& forall|k: int| 0 <= k < at.len() ==> is_line(s, (#[trigger] at[k]).0, at[k].1, ls[k])
    &&& at.len() > 0 ==> at[0].0 == from && at.last().1 + 1 >= s.len()
    &&& forall|k: int| 0 < k < at.len() ==> (#[trigger] at[k]).0 == at[k - 1].1 + 1
    &&& at.len() == 0 <==> from >= s.len()
}

proof fn lemma_ends(s: Seq<char>, i: int)
    requires
        0 <= i <= s.len(),
    ensures
        forall|k: int| i <= k < line_end(s, i) ==> #[trigger] s[k] != '\n',
        line_end(s, i) < s.len() ==> s[line_end(s, i)] == '\n',
    decreases s.len() - i,
{
    if i < s.len() && s[i] != '\n' {
        lemma_ends(s, i + 1);
    }
}

proof fn lemma_lines_at(s: Seq<char>, i: int) -> (at: Seq<(int, int)>)
    requires
        0 <= i <= s.len() + 1,
        i == 0 || i == s.len() + 1 || s[i - 1] == '\n',
    ensures
        are_lines(s, i, at, lines_from(s, i)),
    decreases s.len() + 1 - i,
{
    let ls = lines_from(s, i);
    if i >= s.len() {
        Seq::empty()
    } else {
        let e = line_end(s, i);
        lemma_line_end(s, i);
        lemma_ends(s, i);
        let more = lemma_lines_at(s, e + 1);
        let rest = lines_from(s, e + 1);
        let at = seq![(i, e)] + more;
        assert(ls[0] == line_at(s, i, e));
        assert forall|k: int| 0 <= k < at.len() implies is_line(
            s,
            (#[trigger] at[k]).0,
            at[k].1,
            ls[k],
        ) by {
            if k > 0 {
                assert(at[k] == more[k - 1]);
                assert(ls[k] == rest[k - 1]);
            }
        }
        assert forall|k: int| 0 < k < at.len() implies (#[trigger] at[k]).0 == at[k - 1].1 + 1 by {
            assert(at[k] == more[k - 1]);
            if k > 1 {
                assert(at[k - 1] == more[k - 2]);
            }
        }
        if more.len() > 0 {
            assert(at.last() == more.last());
        }
        at
    }
}

/// The lines of a text are what its line feeds part, in order and with nothing left out.
pub proof fn lemma_lines(s: Seq<char>)
    ensures
        exists|at: Seq<(int, int)>| #[trigger] are_lines(s, 0, at, lines_from(s, 0)),
{
    let at = lemma_lines_at(s, 0);
}

/// Texts are the same but for case where each character is, or is the other case of a letter of
/// ASCII.
pub proof fn lemma_same_ignoring_case(a: Seq<char>, b: Seq<char>)
    ensures
        same_ignoring_case(a, b) <==> a.len() == b.len() && forall|i: int|
            0 <= i < a.len() ==> {
                ||| #[trigger] a[i] == b[i]
                ||| 'a' <= a[i] <= 'z' && a[i] as int == b[i] as int + 32
                ||| 'a' <= b[i] <= 'z' && b[i] as int == a[i] as int + 32
            },
{
    let alike = |i: int|
        {
            ||| a[i] == b[i]
            ||| 'a' <= a[i] <= 'z' && a[i] as int == b[i] as int + 32
            ||| 'a' <= b[i] <= 'z' && b[i] as int == a[i] as int + 32
        };
    assert forall|i: int| #![trigger a[i]]
        lower_ascii(a[i]) == lower_ascii(b[i]) <==> alike(i) by {
        let x = a[i];
        let y = b[i];
        assert('A' <= x <= 'Z' ==> lower_ascii(x) as int == x as int + 32);
        assert('A' <= y <= 'Z' ==> lower_ascii(y) as int == y as int + 32);
        if lower_ascii(x) == lower_ascii(y) {
            assert(lower_ascii(x) as int == lower_ascii(y) as int);
        }
        if alike(i) && x != y {
            assert(lower_ascii(x) as int == lower_ascii(y) as int);
            assert(lower_ascii(x) as int as char == lower_ascii(y) as int as char);
        }
    }
}

} // verus!
