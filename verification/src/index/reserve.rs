//! Accounting for the heap. How much an allocator reserves beyond what is in use
//! varies, so the reserves are drawn first, and the sums over them are exact.

use vstd::layout::size_of;
use vstd::prelude::*;
use vstd::utf8::encode_utf8;

verus! {

/// `Vec::capacity`: the number of elements the vector has room for. It is at least
/// its length, and those elements take no more than `isize::MAX` bytes, beyond which
/// a vector refuses to grow.
#[verifier::external_body]
pub(crate) fn capacity_of<T>(v: &Vec<T>) -> (n: usize)
    ensures
        n >= v@.len(),
        n * size_of::<T>() <= isize::MAX,
{
    v.capacity()
}

/// `String::capacity`: the number of bytes the string has room for. It is at least
/// its length and at most `isize::MAX`, beyond which a string refuses to grow.
#[verifier::external_body]
pub(crate) fn text_capacity(s: &String) -> (n: usize)
    ensures
        n >= encode_utf8(s@).len(),
        n <= isize::MAX,
{
    s.capacity()
}

/// `n`, or the largest size there is.
pub open spec fn capped(n: int) -> int {
    if n <= usize::MAX {
        n
    } else {
        usize::MAX as int
    }
}

/// There may be room for `n` elements of `size` bytes where `len` are held.
pub open spec fn has_room(n: usize, len: nat, size: nat) -> bool {
    &&& len <= n
    &&& n * size <= isize::MAX
}

/// The sum of the first `n` counts.
pub open spec fn total(counts: Seq<usize>, n: int) -> nat
    decreases n,
{
    if n <= 0 {
        0
    } else {
        total(counts, n - 1) + counts[n - 1] as nat
    }
}

/// The sum of all counts.
pub open spec fn sum_all(counts: Seq<usize>) -> nat {
    total(counts, counts.len() as int)
}

/// `a * b`, or the largest size there is.
pub(crate) fn product(a: usize, b: usize) -> (r: usize)
    ensures
        r == capped(a * b),
{
    assert(a * b >= 0) by (nonlinear_arith);
    match a.checked_mul(b) {
        Some(n) => n,
        None => usize::MAX,
    }
}

/// The sum of the counts, or the largest size there is.
pub(crate) fn sum_up(counts: &[usize]) -> (r: usize)
    ensures
        r == capped(sum_all(counts@) as int),
{
    let mut r: usize = 0;
    let mut i: usize = 0;
    while i < counts.len()
        invariant
            i <= counts@.len(),
            r == capped(total(counts@, i as int) as int),
        decreases counts@.len() - i,
    {
        r = r.saturating_add(counts[i]);
        i = i + 1;
    }
    r
}

/// A sum may be capped before it is multiplied.
pub(crate) proof fn lemma_capped_product(a: nat, b: nat)
    ensures
        capped(capped(a as int) * b) == capped((a * b) as int),
{
    if a > usize::MAX {
        assert(b >= 1 ==> usize::MAX * b >= usize::MAX && a * b >= a) by (nonlinear_arith);
        assert(b == 0 ==> usize::MAX * b == 0 && a * b == 0) by (nonlinear_arith);
    }
}

} // verus!
