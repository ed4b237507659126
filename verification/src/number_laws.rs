//! What the numbers in reports are.

use vstd::prelude::*;

use crate::bench::{ascending_samples, indented, shown, sum};
use crate::report::{
    bytes_text, comma_text, duration_text, grouped, percent_text, signed_bytes_text, unit_name,
    unit_of, unit_size,
};
use crate::rounding::{
    doublings, fixed, halvings, held, nearest, places, ten, two, LEAST, PAST,
};
use crate::sort::{comes_before, is_order, lemma_order_exists, lemma_order_is_permutation};
use crate::store::names::{lemma_decimal, lemma_padded};
use crate::store::padded;
use crate::text::{all_digits, decimal, digit, digits_value, is_digit, parsed_number};

verus! {

/// Rounding gives a nearest whole number, and the even one of two.
pub proof fn lemma_nearest(n: int, d: int)
    requires
        d > 0,
    ensures
        -d <= 2 * (nearest(n, d) * d - n) <= d,
        2 * (nearest(n, d) * d - n) == d || 2 * (nearest(n, d) * d - n) == -d ==> nearest(n, d) % 2
            == 0,
{
    let q = n / d;
    let r = n % d;
    assert(n == q * d + r && 0 <= r < d) by (nonlinear_arith)
        requires
            q == n / d,
            r == n % d,
            d > 0,
    ;
    assert((q + 1) * d == q * d + d) by (nonlinear_arith);
}

proof fn lemma_two(n: int)
    ensures
        two(n) >= 1,
    decreases n,
{
    if n > 0 {
        lemma_two(n - 1);
    }
}

proof fn lemma_doublings(n: int, d: int)
    requires
        0 < n < PAST * d,
        0 < d,
    ensures
        doublings(n, d) >= 0,
        LEAST * d <= n * two(doublings(n, d)) < PAST * d,
    decreases
            (if n < LEAST * d {
                LEAST * d - n
            } else {
                0
            }),
{
    if n < LEAST * d {
        lemma_doublings(2 * n, d);
        let t = two(doublings(2 * n, d));
        assert(two(doublings(n, d)) == 2 * t);
        assert(n * (2 * t) == 2 * n * t) by (nonlinear_arith);
    } else {
        assert(n * two(0) == n);
    }
}

proof fn lemma_halvings(n: int, d: int)
    requires
        LEAST * d <= n,
        0 < d,
    ensures
        halvings(n, d) >= 0,
        LEAST * (d * two(halvings(n, d))) <= n < PAST * (d * two(halvings(n, d))),
    decreases
            (if n >= PAST * d {
                n - PAST * d + 1
            } else {
                0
            }),
{
    if n >= PAST * d {
        lemma_halvings(n, 2 * d);
        let t = two(halvings(n, 2 * d));
        assert(two(halvings(n, d)) == 2 * t);
        assert(d * (2 * t) == 2 * d * t) by (nonlinear_arith);
    } else {
        assert(d * two(0) == d);
    }
}

/// A fraction below two to the 53rd is held with 53 bits, and with an error of half of the last
/// one at most.
pub proof fn lemma_held(n: int, d: int)
    requires
        0 < n < PAST * d,
        0 < d,
    ensures
        held(n, d).1 >= 1,
        0x10_0000_0000_0000 * d <= n * held(n, d).1 < 0x20_0000_0000_0000 * d,
        -d <= 2 * (held(n, d).0 * d - n * held(n, d).1) <= d,
{
    let p = held(n, d).1;
    lemma_two(doublings(n, d));
    lemma_doublings(n, d);
    lemma_nearest(n * p, d);
}

/// A larger one is held as a multiple of the number by which it has 53 bits, and with an error of
/// half of that at most.
pub proof fn lemma_held_large(n: int, d: int)
    requires
        PAST * d <= n,
        0 < d,
    ensures
        held(n, d).1 == 1,
        exists|q: int, p: int|
            held(n, d).0 == #[trigger] (q * p) && p >= 1 && 0x10_0000_0000_0000 * (d * p) <= n
                < 0x20_0000_0000_0000 * (d * p) && -(d * p) <= 2 * (q * (d * p) - n) <= d * p,
{
    let p = two(halvings(n, d));
    lemma_two(halvings(n, d));
    lemma_halvings(n, d);
    assert(d * p > 0) by (nonlinear_arith)
        requires
            d > 0,
            p >= 1,
    ;
    lemma_nearest(n, d * p);
    let q = nearest(n, d * p);
    assert(held(n, d).0 == q * p);
}

proof fn lemma_places(v: int, n: int)
    requires
        0 <= v,
        0 <= n,
    ensures
        places(v, n).len() == n,
        all_digits(places(v, n)),
        v < ten(n) ==> digits_value(places(v, n)) == v,
    decreases n,
{
    let s = places(v, n);
    if n > 0 {
        lemma_places(v / 10, n - 1);
        assert(s.drop_last() =~= places(v / 10, n - 1));
        assert(s.last() == digit(v % 10));
        if v < ten(n) {
            assert(ten(n) == 10 * ten(n - 1));
        }
    } else {
        assert(s =~= Seq::empty());
    }
}

proof fn lemma_ten(n: int)
    ensures
        ten(n) >= 1,
    decreases n,
{
    if n > 0 {
        lemma_ten(n - 1);
    }
}

/// A number with digits behind the point reads as the nearest one with so many digits.
pub proof fn lemma_fixed(n: int, d: int, digits: int)
    requires
        0 <= n,
        0 < d,
        0 <= digits,
    ensures
        exists|whole: Seq<char>, part: Seq<char>|
            fixed(n, d, digits) == #[trigger] (whole + seq!['.'] + part) && all_digits(whole)
                && all_digits(part) && part.len() == digits && digits_value(whole) * ten(digits)
                + digits_value(part) == nearest(n * ten(digits), d),
{
    let t = ten(digits);
    let v = nearest(n * t, d);
    lemma_ten(digits);
    assert(n * t >= 0) by (nonlinear_arith)
        requires
            n >= 0,
            t >= 1,
    ;
    lemma_nearest(n * t, d);
    assert(v >= 0) by (nonlinear_arith)
        requires
            2 * (v * d - n * t) >= -d,
            n * t >= 0,
            d > 0,
    ;
    assert(v / t >= 0 && 0 <= v % t < t && (v / t) * t + v % t == v) by (nonlinear_arith)
        requires
            v >= 0,
            t >= 1,
    ;
    let whole = decimal((v / t) as nat);
    let part = places(v % t, digits);
    lemma_decimal((v / t) as nat);
    lemma_places(v % t, digits);
    reveal_strlit(".");
    assert("."@ =~= seq!['.']);
    assert(fixed(n, d, digits) == whole + seq!['.'] + part);
}

/// The digits among the characters.
pub open spec fn without_commas(s: Seq<char>) -> Seq<char> {
    s.filter(|c: char| c != ',')
}

#[verifier::spinoff_prover]
#[verifier::rlimit(60)]
proof fn lemma_grouped(d: Seq<char>, n: int)
    requires
        0 <= n <= d.len(),
        all_digits(d),
    ensures
        without_commas(grouped(d, n)) == d.take(n),
        n > 0 ==> grouped(d, n).last() == d[n - 1] && grouped(d, n)[0] == d[0],
        n == 0 ==> grouped(d, n).len() == 0,
        forall|i: int|
            0 <= i < grouped(d, n).len() ==> (#[trigger] grouped(d, n)[i] == ',' <==> i > 0 && (
            grouped(d, n).len() - i + (d.len() - n) + (d.len() - n) / 3) % 4 == 0),
    decreases n,
{
    reveal(Seq::filter);
    let r = grouped(d, n);
    let keep = |c: char| c != ',';
    if n > 0 {
        lemma_grouped(d, n - 1);
        let before = grouped(d, n - 1);
        assert(is_digit(d[n - 1]));
        assert(d.take(n).drop_last() =~= d.take(n - 1));
        let rest = d.len() - (n - 1);
        if n > 1 && rest % 3 == 0 {
            let mid = before.push(',');
            assert(mid.drop_last() =~= before);
            assert(r.drop_last() =~= mid);
            assert(without_commas(mid) == without_commas(before));
            assert(without_commas(r) =~= d.take(n));
            assert forall|i: int| 0 <= i < r.len() implies (#[trigger] r[i] == ',' <==> i > 0 && (
            r.len() - i + (d.len() - n) + (d.len() - n) / 3) % 4 == 0) by {
                if i < before.len() {
                    assert(r[i] == before[i]);
                }
            }
        } else {
            assert(r.drop_last() =~= before);
            assert(without_commas(r) =~= d.take(n));
            assert forall|i: int| 0 <= i < r.len() implies (#[trigger] r[i] == ',' <==> i > 0 && (
            r.len() - i + (d.len() - n) + (d.len() - n) / 3) % 4 == 0) by {
                if i < before.len() {
                    assert(r[i] == before[i]);
                }
            }
        }
    } else {
        assert(without_commas(r) =~= Seq::empty());
        assert(d.take(n) =~= Seq::empty());
    }
}

/// A number with commas reads as the number, and from its end on each fourth character is a
/// comma but for the first of all, and no other is.
pub proof fn lemma_commas(n: u64)
    ensures
        all_digits(without_commas(comma_text(n))),
        digits_value(without_commas(comma_text(n))) == n,
        forall|i: int|
            0 <= i < comma_text(n).len() ==> (#[trigger] comma_text(n)[i] == ',' <==> i > 0 && (
            comma_text(n).len() - i) % 4 == 0),
{
    let d = decimal(n as nat);
    lemma_decimal(n as nat);
    lemma_grouped(d, d.len() as int);
    assert(d.take(d.len() as int) =~= d);
}

/// The unit of a number of bytes is the largest of those up to the TiB of which it is one or
/// more.
pub proof fn lemma_unit(bytes: u64)
    ensures
        0 <= unit_of(bytes) <= 4,
        unit_of(bytes) > 0 ==> unit_size(unit_of(bytes)) <= bytes,
        unit_of(bytes) < 4 ==> bytes < 1024 * unit_size(unit_of(bytes)),
        unit_size(0) == 1,
        forall|u: int| 0 <= u < 4 ==> #[trigger] unit_size(u + 1) == 1024 * unit_size(u),
{
}

/// The places of the samples below a value, and of those not above it.
pub open spec fn samples_below(samples: Seq<u64>, v: u64) -> Set<int> {
    Set::new(|i: int| 0 <= i < samples.len() && samples[i] < v)
}

pub open spec fn samples_upto(samples: Seq<u64>, v: u64) -> Set<int> {
    Set::new(|i: int| 0 <= i < samples.len() && samples[i] <= v)
}

proof fn lemma_sample(samples: Seq<u64>, places: Seq<usize>, k: int)
    requires
        is_order(samples, places),
        0 <= k < samples.len() <= usize::MAX,
    ensures
        samples_below(samples, samples[places[k] as int]).len() <= k,
        samples_upto(samples, samples[places[k] as int]).len() > k,
{
    lemma_order_is_permutation(samples, places);
    let v = samples[places[k] as int];
    let at = Seq::new(places.len(), |i: int| places[i] as int);
    let low = at.take(k);
    let upto = at.take(k + 1);
    assert forall|i: int, j: int| 0 <= i < j < at.len() implies at[i] != at[j] by {
        assert(places[i] != places[j]);
    }
    low.unique_seq_to_set();
    upto.unique_seq_to_set();
    vstd::seq_lib::seq_to_set_is_finite(low);
    vstd::seq_lib::seq_to_set_is_finite(upto);
    let below = samples_below(samples, v);
    let all = samples_upto(samples, v);
    assert(below.subset_of(low.to_set())) by {
        assert forall|i: int| below.contains(i) implies low.to_set().contains(i) by {
            assert(places.contains(i as usize));
            let j = choose|j: int| 0 <= j < places.len() && places[j] == i as usize;
            if j > k {
                assert(comes_before(samples, places[k] as int, places[j] as int));
            }
            assert(low[j] == i);
        }
    }
    vstd::set_lib::lemma_len_subset(below, low.to_set());
    assert(upto.to_set().subset_of(all)) by {
        assert forall|i: int| upto.to_set().contains(i) implies all.contains(i) by {
            let j = choose|j: int| 0 <= j < upto.len() && upto[j] == i;
            if j < k {
                assert(comes_before(samples, places[j] as int, places[k] as int));
            }
        }
    }
    vstd::set_lib::lemma_int_range(0, samples.len() as int);
    assert(all.subset_of(vstd::set_lib::set_int_range(0, samples.len() as int)));
    vstd::set_lib::lemma_len_subset(all, vstd::set_lib::set_int_range(0, samples.len() as int));
    vstd::set_lib::lemma_len_subset(upto.to_set(), all);
}

/// Sample `k` in ascending order is one of the samples, has `k` of them below it at most, and
/// more than `k` that are not above it. So the first is the least, the last the greatest, and
/// the one in the middle the median.
pub proof fn lemma_ascending_samples(samples: Seq<u64>, k: int)
    requires
        0 <= k < samples.len() <= usize::MAX,
    ensures
        ascending_samples(samples).len() == samples.len(),
        samples.contains(ascending_samples(samples)[k]),
        samples_below(samples, ascending_samples(samples)[k]).len() <= k,
        samples_upto(samples, ascending_samples(samples)[k]).len() > k,
{
    let w = lemma_order_exists(samples);
    let places = choose|q: Seq<usize>| is_order(samples, q);
    assert(is_order(samples, places));
    lemma_sample(samples, places, k);
    assert(ascending_samples(samples)[k] == samples[places[k] as int]);
}

/// The sum of samples adds all of them.
pub proof fn lemma_sum(samples: Seq<u64>, n: int)
    requires
        0 <= n <= samples.len(),
    ensures
        sum(samples, n) == samples.take(n).fold_left(0int, |a: int, b: u64| a + b),
    decreases n,
{
    if n > 0 {
        lemma_sum(samples, n - 1);
        assert(samples.take(n).drop_last() =~= samples.take(n - 1));
        assert(samples.take(n).last() == samples[n - 1]);
    } else {
        assert(samples.take(n) =~= Seq::empty());
    }
}

/// A number in decimal starts with a zero only where it is zero.
pub proof fn lemma_no_leading_zero(n: nat)
    ensures
        decimal(n).len() > 0,
        n > 0 ==> decimal(n)[0] != '0',
        n == 0 ==> decimal(n).len() == 1,
    decreases n,
{
    if n >= 10 {
        lemma_no_leading_zero(n / 10);
        assert(decimal(n)[0] == decimal(n / 10)[0]);
    } else if n > 0 {
        assert(decimal(n)[0] == digit(n as int));
    }
}

/// In the names of files numbers have five digits, or as many more as they need.
pub proof fn lemma_padded_width(n: nat)
    ensures
        padded(n).len() >= 5,
        padded(n).len() > 5 ==> padded(n)[0] != '0',
        digits_value(padded(n)) == n,
{
    lemma_padded(n);
    lemma_no_leading_zero(n);
}

/// A number that was written is read back, with a plus sign before it too, and a text with any
/// other character in it is no number.
pub proof fn lemma_number_is_read(v: u64, s: Seq<char>, i: int)
    ensures
        parsed_number(decimal(v as nat)) == Some(v),
        parsed_number(seq!['+'] + decimal(v as nat)) == Some(v),
        0 <= i < s.len() && !is_digit(s[i]) && (i > 0 || s[i] != '+') ==> parsed_number(s) is None,
        parsed_number(Seq::empty()) is None,
{
    let d = decimal(v as nat);
    lemma_decimal(v as nat);
    assert(is_digit(d[0]));
    assert((seq!['+'] + d).skip(1) =~= d);
    if 0 <= i < s.len() && !is_digit(s[i]) && (i > 0 || s[i] != '+') {
        if s[0] == '+' {
            assert(s.skip(1)[i - 1] == s[i]);
        }
    }
}

/// What a number of bytes is counted in: the bytes of the unit, and its name.
pub open spec fn counted_in(bytes: u64) -> (int, Seq<char>) {
    if bytes < 1_048_576 {
        (1024, seq!['K', 'i', 'B'])
    } else if bytes < 1_073_741_824 {
        (1_048_576, seq!['M', 'i', 'B'])
    } else if bytes < 1_099_511_627_776 {
        (1_073_741_824, seq!['G', 'i', 'B'])
    } else {
        (1_099_511_627_776, seq!['T', 'i', 'B'])
    }
}

/// The number before and behind the point, in units of the last of its digits.
pub open spec fn reads_as(text: Seq<char>, digits: int, v: int, unit: Seq<char>) -> bool {
    exists|whole: Seq<char>, part: Seq<char>|
        text == #[trigger] (whole + seq!['.'] + part) + seq![' '] + unit && all_digits(whole)
            && all_digits(part) && part.len() == digits && digits_value(whole) * ten(digits)
            + digits_value(part) == v
}

/// A number of bytes is written as it is below a KiB, and else in its unit, to the nearest tenth.
pub proof fn lemma_bytes_text(bytes: u64)
    requires
        bytes < PAST,
    ensures
        bytes < 1024 ==> bytes_text(bytes) == decimal(bytes as nat) + seq![' ', 'B'],
        bytes >= 1024 ==> exists|tenths: int| #[trigger]
            reads_as(bytes_text(bytes), 1, tenths, counted_in(bytes).1) && -counted_in(bytes).0
                <= 2 * (tenths * counted_in(bytes).0 - 10 * bytes) <= counted_in(bytes).0,
{
    reveal_strlit(" ");
    reveal_strlit("B");
    reveal_strlit("KiB");
    reveal_strlit("MiB");
    reveal_strlit("GiB");
    reveal_strlit("TiB");
    let (size, name) = counted_in(bytes);
    if bytes < 1024 {
        assert(bytes_text(bytes) =~= decimal(bytes as nat) + seq![' ', 'B']);
    } else {
        let text = bytes_text(bytes);
        assert(" "@ =~= seq![' ']);
        assert(unit_name(unit_of(bytes)) =~= name);
        assert(unit_size(unit_of(bytes)) == size);
        lemma_fixed(bytes as int, size, 1);
        reveal_with_fuel(ten, 2);
        lemma_nearest(bytes as int * 10, size);
        let tenths = nearest(bytes as int * ten(1), size);
        let (whole, part) = choose|whole: Seq<char>, part: Seq<char>|
            fixed(bytes as int, size, 1) == #[trigger] (whole + seq!['.'] + part) && all_digits(whole)
                && all_digits(part) && part.len() == 1 && digits_value(whole) * ten(1)
                + digits_value(part) == nearest(bytes as int * ten(1), size);
        assert(text == (whole + seq!['.'] + part) + seq![' '] + name);
        assert(reads_as(text, 1, tenths, name));
    }
}

/// The hundredths of a millisecond that the text says.
pub open spec fn in_ms(text: Seq<char>, hundredths: int) -> bool {
    reads_as(text, 2, hundredths, seq!['m', 's'])
}

/// A time below a millisecond is written in microseconds, and one below a second in
/// milliseconds, to the nearest hundredth.
pub proof fn lemma_duration_text(ns: u64)
    ensures
        ns < 1_000_000 ==> duration_text(ns) == decimal((ns / 1000) as nat) + seq![' ', 'µ', 's'],
        1_000_000 <= ns < 1_000_000_000 ==> exists|hundredths: int| #[trigger]
            in_ms(duration_text(ns), hundredths) && -5 <= 10 * hundredths - ns / 1000 <= 5,
{
    reveal_strlit(" µs");
    reveal_strlit(" ms");
    let us = ns as int / 1000;
    if ns < 1_000_000 {
        assert(duration_text(ns) =~= decimal(us as nat) + seq![' ', 'µ', 's']);
    } else if ns < 1_000_000_000 {
        let (h, p) = held(us, 1000);
        lemma_held(us, 1000);
        assert(p > 100_000) by (nonlinear_arith)
            requires
                us * p >= 0x10_0000_0000_0000 * 1000,
                0 < us < 1_000_000,
        ;
        assert(h >= 0) by (nonlinear_arith)
            requires
                -1000 <= 2 * (h * 1000 - us * p),
                us * p >= 0x10_0000_0000_0000 * 1000,
        ;
        lemma_fixed(h, p, 2);
        reveal_with_fuel(ten, 3);
        lemma_nearest(h * 100, p);
        let v = nearest(h * ten(2), p);
        assert(-5 <= 10 * v - us <= 5) by {
            let e = 10 * v - us;
            assert(2 * p * e == 10 * (2 * (v * p - h * 100)) + (2 * (h * 1000 - us * p)))
                by (nonlinear_arith)
                requires
                    e == 10 * v - us,
            ;
            assert(-5 <= e <= 5) by (nonlinear_arith)
                requires
                    2 * p * e == 10 * (2 * (v * p - h * 100)) + (2 * (h * 1000 - us * p)),
                    -p <= 2 * (v * p - h * 100) <= p,
                    -1000 <= 2 * (h * 1000 - us * p) <= 1000,
                    p > 100_000,
            ;
        }
        let (whole, part) = choose|whole: Seq<char>, part: Seq<char>|
            fixed(h, p, 2) == #[trigger] (whole + seq!['.'] + part) && all_digits(whole)
                && all_digits(part) && part.len() == 2 && digits_value(whole) * ten(2)
                + digits_value(part) == nearest(h * ten(2), p);
        assert(duration_text(ns) =~= (whole + seq!['.'] + part) + seq![' '] + seq!['m', 's']);
        assert(in_ms(duration_text(ns), v));
    }
}

/// A difference is written with its sign before its size.
pub proof fn lemma_signed_bytes(delta: i64)
    requires
        delta > i64::MIN,
    ensures
        delta >= 0 ==> signed_bytes_text(delta) == seq!['+'] + bytes_text(delta as u64),
        delta < 0 ==> signed_bytes_text(delta) == seq!['-'] + bytes_text((-delta) as u64),
{
    reveal_strlit("+");
    reveal_strlit("-");
    assert("+"@ =~= seq!['+']);
    assert("-"@ =~= seq!['-']);
}

/// A share is written in percent, to the nearest tenth.
pub proof fn lemma_percent(part: u64, whole: u64)
    requires
        part <= whole,
        0 < whole < 4_000_000_000_000,
    ensures
        exists|before: Seq<char>, behind: Seq<char>|
            percent_text(part, whole) == #[trigger] (before + seq!['.'] + behind) && all_digits(before)
                && all_digits(behind) && behind.len() == 1 && -whole <= 2 * ((10 * digits_value(
                before,
            ) + digits_value(behind)) * whole - 1000 * part) <= whole,
{
    let n = 100 * part as int;
    let d = whole as int;
    let (h, p) = held(n, d);
    reveal_with_fuel(ten, 2);
    if part > 0 {
        lemma_held(n, d);
        assert(h >= 0) by (nonlinear_arith)
            requires
                -d <= 2 * (h * d - n * p),
                n * p >= 0x10_0000_0000_0000 * d,
                d > 0,
        ;
        assert(p > 10 * d) by (nonlinear_arith)
            requires
                n * p >= 0x10_0000_0000_0000 * d,
                0 < n <= 100 * d,
                0 < d < 4_000_000_000_000,
        ;
    }
    lemma_fixed(h, p, 1);
    lemma_nearest(h * 10, p);
    let v = nearest(h * ten(1), p);
    assert(v == nearest(h * 10, p));
    if part > 0 {
        let e = v * d - 1000 * part;
        assert(2 * p * e == d * (2 * (v * p - h * 10)) + 10 * (2 * (h * d - n * p)))
            by (nonlinear_arith)
            requires
                e == v * d - 10 * n,
        ;
        assert(-d <= 2 * e <= d) by (nonlinear_arith)
            requires
                2 * p * e == d * (2 * (v * p - h * 10)) + 10 * (2 * (h * d - n * p)),
                -p <= 2 * (v * p - h * 10) <= p,
                -d <= 2 * (h * d - n * p) <= d,
                p > 10 * d,
                d > 0,
        ;
    } else {
        assert(v == 0);
    }
    let (before, behind) = choose|before: Seq<char>, behind: Seq<char>|
        fixed(h, p, 1) == #[trigger] (before + seq!['.'] + behind) && all_digits(before)
            && all_digits(behind) && behind.len() == 1 && digits_value(before) * ten(1)
            + digits_value(behind) == nearest(h * ten(1), p);
    assert(percent_text(part, whole) == before + seq!['.'] + behind);
    assert(10 * digits_value(before) + digits_value(behind) == v);
}

/// A query is shown in 32 characters at most: as it is, or its first 31 with a sign that there
/// is more.
pub proof fn lemma_shown(query: Seq<char>)
    ensures
        query.len() <= 32 ==> shown(query) == query,
        query.len() >= 33 ==> shown(query).len() == 32 && shown(query).take(31) == query.take(31)
            && shown(query)[31] == '…',
{
    reveal_strlit("…");
    if query.len() > 32 {
        assert(shown(query).take(31) =~= query.take(31));
    }
}

/// A text in a column keeps to one side of it, and spaces fill the rest.
pub proof fn lemma_columns(s: Seq<char>, width: nat, i: int)
    ensures
        s.len() >= width ==> crate::bench::padded(s, width as int) == s && indented(s, width as int) == s,
        s.len() < width ==> crate::bench::padded(s, width as int).len() == width && indented(
            s,
            width as int,
        ).len() == width,
        0 <= i < s.len() ==> crate::bench::padded(s, width as int)[i] == s[i],
        0 <= i < s.len() && s.len() < width ==> indented(s, width as int)[width - s.len() + i] == s[i],
        s.len() <= i < width ==> crate::bench::padded(s, width as int)[i] == ' ',
        0 <= i < width - s.len() ==> indented(s, width as int)[i] == ' ',
{
    if s.len() >= width {
        assert(crate::bench::padded(s, width as int) =~= s);
        assert(indented(s, width as int) =~= s);
    }
}

} // verus!
