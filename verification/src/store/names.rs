//! The names of index files tell what they name.

use vstd::prelude::*;

use super::{del_file, doc_file, idx_file, overlay_file, padded, MANIFEST};
use crate::text::{all_digits, decimal, digit, digits_value, is_digit};

verus! {

/// A file that a manifest can refer to.
pub ghost enum IndexFile {
    Idx(u32),
    Doc(u32),
    Del(u32, u32),
    Overlay(u32),
}

/// The name of the file.
pub open spec fn name_of(f: IndexFile) -> Seq<char> {
    match f {
        IndexFile::Idx(id) => idx_file(id),
        IndexFile::Doc(id) => doc_file(id),
        IndexFile::Del(id, gen) => del_file(id, gen),
        IndexFile::Overlay(gen) => overlay_file(gen),
    }
}

/// The digits of a number are its digits.
pub proof fn lemma_decimal(n: nat)
    ensures
        decimal(n).len() > 0,
        all_digits(decimal(n)),
        digits_value(decimal(n)) == n,
    decreases n,
{
    let d = decimal(n);
    if n >= 10 {
        lemma_decimal(n / 10);
        assert(d.drop_last() =~= decimal(n / 10));
    } else {
        assert(d.drop_last() =~= Seq::empty());
        assert(digits_value(Seq::empty()) == 0);
    }
    let c = digit((n % 10) as int);
    assert(d.last() == c);
    assert(c as int == '0' as int + n % 10);
    assert forall|i: int| 0 <= i < d.len() implies is_digit(#[trigger] d[i]) by {
        if i < d.len() - 1 {
            assert(d[i] == decimal(n / 10)[i]);
        }
    }
}

proof fn lemma_zeros(k: nat, d: Seq<char>)
    requires
        all_digits(d),
    ensures
        digits_value(Seq::new(k, |i: int| '0') + d) == digits_value(d),
        all_digits(Seq::new(k, |i: int| '0') + d),
    decreases d.len(), k,
{
    let z = Seq::new(k, |i: int| '0');
    let s = z + d;
    if d.len() > 0 {
        let front = d.drop_last();
        assert forall|i: int| 0 <= i < front.len() implies is_digit(#[trigger] front[i]) by {
            assert(front[i] == d[i]);
        }
        lemma_zeros(k, front);
        assert(s.drop_last() =~= z + front);
    } else if k > 0 {
        lemma_zeros((k - 1) as nat, d);
        assert(s.drop_last() =~= Seq::new((k - 1) as nat, |i: int| '0') + d);
        assert(s.last() == '0');
    }
    assert forall|i: int| 0 <= i < s.len() implies is_digit(#[trigger] s[i]) by {
        if i >= k {
            assert(s[i] == d[i - k]);
        }
    }
}

/// So are they with zeros before them.
pub proof fn lemma_padded(n: nat)
    ensures
        padded(n).len() > 0,
        all_digits(padded(n)),
        digits_value(padded(n)) == n,
{
    lemma_decimal(n);
    let d = decimal(n);
    if d.len() < 5 {
        lemma_zeros((5 - d.len()) as nat, d);
    }
}

proof fn lemma_middle(head: Seq<char>, a: Seq<char>, b: Seq<char>, tail: Seq<char>)
    requires
        head + a + tail == head + b + tail,
    ensures
        a == b,
{
    let x = head + a + tail;
    let y = head + b + tail;
    assert(x.len() == y.len());
    assert(a =~= x.subrange(head.len() as int, (head.len() + a.len()) as int));
    assert(b =~= y.subrange(head.len() as int, (head.len() + b.len()) as int));
}

proof fn lemma_same_number(a: u32, b: u32)
    requires
        padded(a as nat) == padded(b as nat),
    ensures
        a == b,
{
    lemma_padded(a as nat);
    lemma_padded(b as nat);
}

proof fn lemma_same_deletions(a: u32, g: u32, b: u32, h: u32)
    requires
        del_file(a, g) == del_file(b, h),
    ensures
        a == b && g == h,
{
    reveal_strlit("seg-");
    reveal_strlit(".");
    reveal_strlit(".del");
    lemma_padded(a as nat);
    lemma_padded(b as nat);
    lemma_padded(g as nat);
    lemma_padded(h as nat);
    let (pa, pb) = (padded(a as nat), padded(b as nat));
    let (pg, ph) = (padded(g as nat), padded(h as nat));
    let (na, nb) = (pa.len() as int, pb.len() as int);
    let x = del_file(a, g);
    let y = del_file(b, h);
    assert forall|i: int| 0 <= i < pa.len() implies x[4 + i] == #[trigger] pa[i] by {}
    assert forall|i: int| 0 <= i < pb.len() implies y[4 + i] == #[trigger] pb[i] by {}
    assert(x[4 + na] == '.');
    assert(y[4 + nb] == '.');
    if pa.len() < pb.len() {
        assert(is_digit(pb[na]));
        assert(y[4 + na] == pb[na]);
        assert(false);
    }
    if pb.len() < pa.len() {
        assert(is_digit(pa[nb]));
        assert(x[4 + nb] == pa[nb]);
        assert(false);
    }
    assert(pa =~= x.subrange(4, 4 + na));
    assert(pb =~= y.subrange(4, 4 + nb));
    lemma_same_number(a, b);
    let head = "seg-"@ + pa + "."@;
    lemma_middle(head, pg, ph, ".del"@);
    lemma_same_number(g, h);
}

/// The last characters of a name, and the second.
proof fn lemma_shape(f: IndexFile)
    ensures
        ({
            let s = name_of(f);
            let n = s.len() as int;
            &&& n >= 9
            &&& s[n - 4] == '.'
            &&& s[0] == 's'
            &&& match f {
                IndexFile::Idx(_) => s[n - 3] == 'i' && s[n - 1] == 'x',
                IndexFile::Doc(_) => s[n - 3] == 'd' && s[n - 1] == 'c',
                IndexFile::Del(..) => s[n - 3] == 'd' && s[n - 1] == 'l' && s[1] == 'e',
                IndexFile::Overlay(_) => s[n - 3] == 'o' && s[n - 1] == 'l' && s[1] == 't',
            }
        }),
{
    reveal_strlit("seg-");
    reveal_strlit("state-");
    reveal_strlit(".");
    reveal_strlit(".idx");
    reveal_strlit(".doc");
    reveal_strlit(".del");
    reveal_strlit(".ovl");
    match f {
        IndexFile::Idx(id) => lemma_padded(id as nat),
        IndexFile::Doc(id) => lemma_padded(id as nat),
        IndexFile::Del(id, gen) => {
            lemma_padded(id as nat);
            lemma_padded(gen as nat);
        },
        IndexFile::Overlay(gen) => lemma_padded(gen as nat),
    }
}

/// Two files have the same name only where they are the same file.
pub proof fn lemma_names_differ(a: IndexFile, b: IndexFile)
    requires
        name_of(a) == name_of(b),
    ensures
        a == b,
{
    lemma_shape(a);
    lemma_shape(b);
    match (a, b) {
        (IndexFile::Idx(x), IndexFile::Idx(y)) => {
            lemma_middle("seg-"@, padded(x as nat), padded(y as nat), ".idx"@);
            lemma_same_number(x, y);
        },
        (IndexFile::Doc(x), IndexFile::Doc(y)) => {
            lemma_middle("seg-"@, padded(x as nat), padded(y as nat), ".doc"@);
            lemma_same_number(x, y);
        },
        (IndexFile::Del(x, g), IndexFile::Del(y, h)) => lemma_same_deletions(x, g, y, h),
        (IndexFile::Overlay(x), IndexFile::Overlay(y)) => {
            lemma_middle("state-"@, padded(x as nat), padded(y as nat), ".ovl"@);
            lemma_same_number(x, y);
        },
        _ => {},
    }
}

/// The name ends like that of a file that is not complete yet.
pub open spec fn is_transient(name: Seq<char>) -> bool {
    ".tmp"@.is_suffix_of(name)
}

/// A file that a manifest can refer to is neither the manifest nor transient.
pub proof fn lemma_name_is_plain(f: IndexFile)
    ensures
        name_of(f) != MANIFEST@,
        !is_transient(name_of(f)),
{
    lemma_shape(f);
    reveal_strlit("MANIFEST");
    reveal_strlit(".tmp");
    let s = name_of(f);
    if is_transient(s) {
        let n = s.len() as int;
        assert(s.subrange(n - 4, n)[1] == ".tmp"@[1]);
        assert(s.subrange(n - 4, n)[1] == s[n - 3]);
    }
}

/// A name with the transient ending is transient; the manifest is not.
pub proof fn lemma_transient(name: Seq<char>)
    ensures
        is_transient(name + ".tmp"@),
        !is_transient(MANIFEST@),
{
    reveal_strlit("MANIFEST");
    reveal_strlit(".tmp");
    let t = name + ".tmp"@;
    assert(".tmp"@ =~= t.subrange(t.len() - 4, t.len() as int));
    if is_transient(MANIFEST@) {
        assert(MANIFEST@.subrange(4, 8)[0] == ".tmp"@[0]);
    }
}

} // verus!
