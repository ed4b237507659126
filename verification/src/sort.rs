//! Stable sorting.

use vstd::prelude::*;
use vstd::seq_lib::seq_to_set_is_finite;
use vstd::set_lib::{lemma_int_range, lemma_subset_equality, set_int_range};

use crate::order::{byte_order, bytes_lt, lemma_total, lemma_transitive, ByteOrder};

verus! {

/// Values that are put in order by a rank, which different values may share.
pub trait Ranked {
    /// This value's rank is below the other's.
    spec fn below(&self, other: &Self) -> bool;

    /// Being below goes one way only, and a third rank is above the lower or
    /// below the higher of two.
    proof fn lemma_ranks(a: &Self, b: &Self, c: &Self)
        ensures
            a.below(b) ==> !b.below(a),
            a.below(b) ==> a.below(c) || c.below(b),
    ;

    /// Whether this value's rank is below the other's.
    fn is_below(&self, other: &Self) -> (r: bool)
        ensures
            r == self.below(other),
    ;
}

impl Ranked for u32 {
    open spec fn below(&self, other: &Self) -> bool {
        *self < *other
    }

    proof fn lemma_ranks(a: &Self, b: &Self, c: &Self) {
    }

    fn is_below(&self, other: &Self) -> (r: bool) {
        *self < *other
    }
}

impl Ranked for u64 {
    open spec fn below(&self, other: &Self) -> bool {
        *self < *other
    }

    proof fn lemma_ranks(a: &Self, b: &Self, c: &Self) {
    }

    fn is_below(&self, other: &Self) -> (r: bool) {
        *self < *other
    }
}

impl<'a> Ranked for &'a [u8] {
    open spec fn below(&self, other: &Self) -> bool {
        bytes_lt((*self)@, (*other)@)
    }

    proof fn lemma_ranks(a: &Self, b: &Self, c: &Self) {
        let (x, y, z) = ((*a)@, (*b)@, (*c)@);
        lemma_total(x, y);
        lemma_total(x, z);
        lemma_total(z, y);
        if bytes_lt(x, y) && bytes_lt(z, x) {
            lemma_transitive(z, x, y);
        }
    }

    fn is_below(&self, other: &Self) -> (r: bool) {
        let a: &[u8] = *self;
        let b: &[u8] = *other;
        proof {
            lemma_total(a@, b@);
            lemma_total(b@, a@);
        }
        assert(self.below(other) == bytes_lt(a@, b@));
        match byte_order(a, b) {
            ByteOrder::Less => {
                assert(bytes_lt(a@, b@));
                true
            },
            ByteOrder::Equal => {
                assert(!bytes_lt(a@, b@));
                false
            },
            ByteOrder::Greater => {
                assert(!bytes_lt(a@, b@));
                false
            },
        }
    }
}

/// Place `a` comes before place `b` in a stable order.
pub open spec fn comes_before<T: Ranked>(items: Seq<T>, a: int, b: int) -> bool {
    ||| items[a].below(&items[b])
    ||| !items[b].below(&items[a]) && a < b
}

/// The places are listed in stable order.
pub open spec fn in_order<T: Ranked>(items: Seq<T>, places: Seq<usize>) -> bool {
    forall|i: int, j: int|
        0 <= i < j < places.len() ==> comes_before(
            items,
            (#[trigger] places[i]) as int,
            (#[trigger] places[j]) as int,
        )
}

/// All places of `items`, in stable order.
pub open spec fn is_order<T: Ranked>(items: Seq<T>, places: Seq<usize>) -> bool {
    &&& places.len() == items.len()
    &&& forall|i: int| 0 <= i < places.len() ==> (#[trigger] places[i]) < items.len()
    &&& in_order(items, places)
}

/// The items at these places.
pub open spec fn picked<T>(items: Seq<T>, places: Seq<usize>) -> Seq<T> {
    Seq::new(places.len(), |i: int| items[places[i] as int])
}

proof fn lemma_before_transitive<T: Ranked>(items: Seq<T>, a: int, b: int, c: int)
    requires
        comes_before(items, a, b),
        comes_before(items, b, c),
    ensures
        comes_before(items, a, c),
{
    T::lemma_ranks(&items[a], &items[b], &items[c]);
    T::lemma_ranks(&items[b], &items[a], &items[c]);
    T::lemma_ranks(&items[b], &items[c], &items[a]);
    T::lemma_ranks(&items[c], &items[b], &items[a]);
    T::lemma_ranks(&items[a], &items[c], &items[b]);
    T::lemma_ranks(&items[c], &items[a], &items[b]);
}

/// A stable order lists every place exactly once.
pub proof fn lemma_order_is_permutation<T: Ranked>(items: Seq<T>, places: Seq<usize>)
    requires
        is_order(items, places),
    ensures
        places.no_duplicates(),
        forall|p: usize| (p as int) < items.len() ==> #[trigger] places.contains(p),
{
    assert forall|i: int, j: int| 0 <= i < j < places.len() implies places[i] != places[j] by {
        let a = places[i] as int;
        T::lemma_ranks(&items[a], &items[a], &items[a]);
        assert(comes_before(items, places[i] as int, places[j] as int));
    }
    let n = items.len() as int;
    let ints = Seq::new(places.len(), |i: int| places[i] as int);
    assert(ints.no_duplicates());
    ints.unique_seq_to_set();
    seq_to_set_is_finite(ints);
    lemma_int_range(0, n);
    assert(ints.to_set().subset_of(set_int_range(0, n)));
    lemma_subset_equality(ints.to_set(), set_int_range(0, n));
    assert forall|p: usize| (p as int) < items.len() implies #[trigger] places.contains(p) by {
        assert(set_int_range(0, n).contains(p as int));
        assert(ints.to_set().contains(p as int));
        assert(ints.contains(p as int));
        let k = choose|k: int| 0 <= k < ints.len() && ints[k] == p as int;
        assert(places[k] == p);
    }
}

/// Where a new last item goes: before the first that it is below.
spec fn insertion<T: Ranked>(items: Seq<T>, places: Seq<usize>, x: int, k: int) -> int
    decreases places.len() - k,
{
    if k < places.len() && !items[x].below(&items[places[k] as int]) {
        insertion(items, places, x, k + 1)
    } else {
        k
    }
}

proof fn lemma_insertion<T: Ranked>(items: Seq<T>, places: Seq<usize>, x: int, k: int)
    requires
        0 <= k <= places.len(),
        forall|i: int| 0 <= i < k ==> !items[x].below(&items[(#[trigger] places[i]) as int]),
    ensures
        k <= insertion(items, places, x, k) <= places.len(),
        forall|i: int|
            0 <= i < insertion(items, places, x, k) ==> !items[x].below(
                &items[(#[trigger] places[i]) as int],
            ),
        insertion(items, places, x, k) < places.len() ==> items[x].below(
            &items[places[insertion(items, places, x, k)] as int],
        ),
    decreases places.len() - k,
{
    if k < places.len() && !items[x].below(&items[places[k] as int]) {
        lemma_insertion(items, places, x, k + 1);
    }
}

/// There is a stable order.
pub proof fn lemma_order_exists<T: Ranked>(items: Seq<T>) -> (places: Seq<usize>)
    requires
        items.len() <= usize::MAX,
    ensures
        is_order(items, places),
    decreases items.len(),
{
    if items.len() == 0 {
        Seq::empty()
    } else {
        let x = items.len() - 1;
        let before = lemma_order_exists(items.drop_last());
        assert forall|i: int, j: int| 0 <= i < j < before.len() implies comes_before(
            items,
            (#[trigger] before[i]) as int,
            (#[trigger] before[j]) as int,
        ) by {
            assert(comes_before(items.drop_last(), before[i] as int, before[j] as int));
        }
        lemma_insertion(items, before, x, 0);
        let p = insertion(items, before, x, 0);
        let places = before.insert(p, x as usize);
        assert forall|i: int, j: int| 0 <= i < j < places.len() implies comes_before(
            items,
            (#[trigger] places[i]) as int,
            (#[trigger] places[j]) as int,
        ) by {
            let a = if i < p {
                before[i] as int
            } else if i == p {
                x
            } else {
                before[i - 1] as int
            };
            let b = if j < p {
                before[j] as int
            } else if j == p {
                x
            } else {
                before[j - 1] as int
            };
            assert(places[i] as int == a && places[j] as int == b);
            if i < p && j == p {
                assert(!items[x].below(&items[before[i] as int]));
            } else if i == p {
                if j > p + 1 {
                    assert(comes_before(items, before[p] as int, before[j - 1] as int));
                    assert(comes_before(items, x, before[p] as int));
                    lemma_before_transitive(items, x, before[p] as int, before[j - 1] as int);
                }
            } else if i < p && j > p {
                assert(comes_before(items, before[i] as int, before[j - 1] as int));
            } else if i > p {
                assert(comes_before(items, before[i - 1] as int, before[j - 1] as int));
            } else {
                assert(comes_before(items, before[i] as int, before[j] as int));
            }
        }
        assert forall|i: int| 0 <= i < places.len() implies (#[trigger] places[i])
            < items.len() by {
            if i < p {
                assert(places[i] == before[i]);
            } else if i > p {
                assert(places[i] == before[i - 1]);
            }
        }
        places
    }
}

/// There is one stable order only.
pub proof fn lemma_order_is_unique<T: Ranked>(items: Seq<T>, a: Seq<usize>, b: Seq<usize>)
    requires
        is_order(items, a),
        is_order(items, b),
    ensures
        a == b,
{
    lemma_order_is_permutation(items, a);
    lemma_order_is_permutation(items, b);
    lemma_same_order(items, a, b, 0);
    assert(a.skip(0) =~= a);
    assert(b.skip(0) =~= b);
}

proof fn lemma_same_order<T: Ranked>(items: Seq<T>, a: Seq<usize>, b: Seq<usize>, i: int)
    requires
        is_order(items, a),
        is_order(items, b),
        a.no_duplicates(),
        b.no_duplicates(),
        forall|p: usize| (p as int) < items.len() ==> #[trigger] a.contains(p),
        forall|p: usize| (p as int) < items.len() ==> #[trigger] b.contains(p),
        0 <= i <= a.len(),
        forall|k: int| 0 <= k < i ==> a[k] == b[k],
    ensures
        a.skip(i) == b.skip(i),
    decreases a.len() - i,
{
    if i < a.len() {
        let (x, y) = (a[i], b[i]);
        if x != y {
            assert(b.contains(x));
            assert(a.contains(y));
            let p = choose|p: int| 0 <= p < b.len() && b[p] == x;
            let q = choose|q: int| 0 <= q < a.len() && a[q] == y;
            if p < i {
                assert(a[p] == x);
            }
            if q < i {
                assert(b[q] == y);
            }
            assert(comes_before(items, b[i] as int, b[p] as int));
            assert(comes_before(items, a[i] as int, a[q] as int));
            T::lemma_ranks(&items[x as int], &items[y as int], &items[y as int]);
            T::lemma_ranks(&items[y as int], &items[x as int], &items[x as int]);
            assert(false);
        }
        lemma_same_order(items, a, b, i + 1);
        assert(a.skip(i) =~= seq![x] + a.skip(i + 1));
        assert(b.skip(i) =~= seq![y] + b.skip(i + 1));
    } else {
        assert(a.skip(i) =~= b.skip(i));
    }
}

/// Merges two ordered runs, the places of the first all below those of the
/// second.
fn merge_runs<T: Ranked>(items: &[T], left: &Vec<usize>, right: &Vec<usize>, Ghost(mid): Ghost<int>) -> (out:
    Vec<usize>)
    requires
        forall|i: int| 0 <= i < left@.len() ==> 0 <= (#[trigger] left@[i]) < mid,
        forall|i: int| 0 <= i < right@.len() ==> mid <= (#[trigger] right@[i]) < items@.len(),
        mid <= items@.len(),
        in_order(items@, left@),
        in_order(items@, right@),
    ensures
        out@.len() == left@.len() + right@.len(),
        in_order(items@, out@),
        forall|k: int|
            0 <= k < out@.len() ==> left@.contains(#[trigger] out@[k]) || right@.contains(out@[k]),
{
    let mut out: Vec<usize> = Vec::new();
    let mut i: usize = 0;
    let mut j: usize = 0;
    while i < left.len() || j < right.len()
        invariant
            forall|k: int| 0 <= k < left@.len() ==> 0 <= (#[trigger] left@[k]) < mid,
            forall|k: int| 0 <= k < right@.len() ==> mid <= (#[trigger] right@[k]) < items@.len(),
            mid <= items@.len(),
            in_order(items@, left@),
            in_order(items@, right@),
            i <= left@.len(),
            j <= right@.len(),
            out@.len() == i + j,
            in_order(items@, out@),
            forall|k: int|
                0 <= k < out@.len() ==> left@.contains(#[trigger] out@[k]) || right@.contains(
                    out@[k],
                ),
            forall|k: int, l: int|
                0 <= k < out@.len() && i <= l < left@.len() ==> comes_before(
                    items@,
                    (#[trigger] out@[k]) as int,
                    (#[trigger] left@[l]) as int,
                ),
            forall|k: int, l: int|
                0 <= k < out@.len() && j <= l < right@.len() ==> comes_before(
                    items@,
                    (#[trigger] out@[k]) as int,
                    (#[trigger] right@[l]) as int,
                ),
        decreases left@.len() + right@.len() - i - j,
    {
        let from_left: bool = if i >= left.len() {
            false
        } else if j >= right.len() {
            true
        } else {
            !items[right[j]].is_below(&items[left[i]])
        };
        let ghost had = out@;
        if from_left {
            let p: usize = left[i];
            out.push(p);
            proof {
                assert(left@.contains(left@[i as int]));
                if j < right@.len() {
                    let r = right@[j as int] as int;
                    assert(comes_before(items@, p as int, r));
                    assert forall|l: int| j <= l < right@.len() implies comes_before(
                        items@,
                        p as int,
                        (#[trigger] right@[l]) as int,
                    ) by {
                        if l > j {
                            lemma_before_transitive(items@, p as int, r, right@[l] as int);
                        }
                    }
                }
            }
            i = i + 1;
        } else {
            let p: usize = right[j];
            out.push(p);
            proof {
                assert(right@.contains(right@[j as int]));
                if i < left@.len() {
                    let r = left@[i as int] as int;
                    assert(comes_before(items@, p as int, r));
                    assert forall|l: int| i <= l < left@.len() implies comes_before(
                        items@,
                        p as int,
                        (#[trigger] left@[l]) as int,
                    ) by {
                        if l > i {
                            lemma_before_transitive(items@, p as int, r, left@[l] as int);
                        }
                    }
                }
            }
            j = j + 1;
        }
    }
    out
}

fn order_range<T: Ranked>(items: &[T], lo: usize, hi: usize) -> (out: Vec<usize>)
    requires
        lo <= hi <= items@.len(),
    ensures
        out@.len() == hi - lo,
        in_order(items@, out@),
        forall|i: int| 0 <= i < out@.len() ==> lo <= (#[trigger] out@[i]) < hi,
    decreases hi - lo,
{
    if hi - lo <= 1 {
        let mut out: Vec<usize> = Vec::new();
        if lo < hi {
            out.push(lo);
        }
        return out;
    }
    let mid: usize = lo + (hi - lo) / 2;
    let left = order_range(items, lo, mid);
    let right = order_range(items, mid, hi);
    merge_runs(items, &left, &right, Ghost(mid as int))
}

/// The places of the items in stable order.
pub fn order<T: Ranked>(items: &[T]) -> (places: Vec<usize>)
    ensures
        is_order(items@, places@),
{
    order_range(items, 0, items.len())
}

/// Puts the items in the order of `places`.
pub fn arrange<T>(items: Vec<T>, places: &[usize]) -> (r: Vec<T>)
    requires
        places@.no_duplicates(),
        forall|i: int| 0 <= i < places@.len() ==> (#[trigger] places@[i]) < items@.len(),
    ensures
        r@ == picked(items@, places@),
{
    let ghost all = items@;
    let n: usize = items.len();
    let mut items = items;
    let mut slots: Vec<Option<T>> = Vec::new();
    let mut k: usize = 0;
    while k < n
        invariant
            k <= n,
            n == all.len(),
            items@ == all.take(n - k),
            slots@.len() == k,
            forall|i: int| 0 <= i < k ==> (#[trigger] slots@[i]) == Some(all[n - 1 - i]),
        decreases n - k,
    {
        let item = items.pop();
        assert(all.take(n - k).drop_last() =~= all.take(n - k - 1));
        slots.push(item);
        k = k + 1;
    }
    let mut r: Vec<T> = Vec::new();
    let mut i: usize = 0;
    while i < places.len()
        invariant
            i <= places@.len(),
            n == all.len(),
            slots@.len() == n,
            places@.no_duplicates(),
            forall|l: int| 0 <= l < places@.len() ==> (#[trigger] places@[l]) < n,
            r@ == picked(all, places@.take(i as int)),
            forall|l: int|
                i <= l < places@.len() ==> slots@[n - 1 - (#[trigger] places@[l])] == Some(
                    all[places@[l] as int],
                ),
        decreases places@.len() - i,
    {
        let ghost had = slots@;
        let p: usize = places[i];
        let slot = &mut slots[n - 1 - p];
        let item = slot.take();
        match item {
            Some(item) => {
                r.push(item);
            },
            None => {},
        }
        assert(r@ =~= picked(all, places@.take(i + 1)));
        i = i + 1;
    }
    assert(places@.take(i as int) =~= places@);
    r
}

/// The items are in ascending rank.
pub open spec fn ascends<T: Ranked>(s: Seq<T>) -> bool {
    forall|i: int, j: int|
        #![trigger s[i], s[j]]
        0 <= i < j < s.len() ==> !s[j].below(&s[i])
}

/// What a stable order picks ascends.
pub proof fn lemma_order_ascends<T: Ranked>(items: Seq<T>, places: Seq<usize>)
    requires
        is_order(items, places),
    ensures
        ascends(picked(items, places)),
{
    let s = picked(items, places);
    assert forall|i: int, j: int|
        #![trigger s[i], s[j]]
        0 <= i < j < s.len() implies !s[j].below(&s[i]) by {
        let (a, b) = (places[i] as int, places[j] as int);
        assert(comes_before(items, a, b));
        T::lemma_ranks(&items[a], &items[b], &items[b]);
    }
}

} // verus!
