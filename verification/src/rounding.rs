//! Fractions as a 64-bit floating-point number holds them, reckoned in integers.
//!
//! Such a number has 53 significant bits. A fraction is held as the nearest number
//! that there is, and one halfway between two as the even one. The fractions here
//! are neither so large nor so small that the range of the exponent matters.

use vstd::arithmetic::div_mod::lemma_fundamental_div_mod_converse;
use vstd::prelude::*;

use crate::text::{decimal, digit, digit_char};

verus! {

/// The least number of 53 bits.
pub const LEAST: u128 = 0x10_0000_0000_0000;

/// One past the greatest.
pub const PAST: u128 = 0x20_0000_0000_0000;

/// `n / d` rounded to the nearest; a half goes to the even neighbour.
pub open spec fn nearest(n: int, d: int) -> int {
    let q = n / d;
    let r = n % d;
    if 2 * r > d || 2 * r == d && q % 2 == 1 {
        q + 1
    } else {
        q
    }
}

/// Two to the power `n`.
pub open spec fn two(n: int) -> int
    decreases n,
{
    if n <= 0 {
        1
    } else {
        2 * two(n - 1)
    }
}

/// How often `n / d` is doubled before it takes 53 bits.
pub open spec fn doublings(n: int, d: int) -> int
    decreases
            (if n < LEAST * d {
                LEAST * d - n
            } else {
                0
            }),
{
    if n <= 0 || n >= LEAST * d {
        0
    } else {
        1 + doublings(2 * n, d)
    }
}

/// How often `n / d` is halved before it takes no more than 53 bits.
pub open spec fn halvings(n: int, d: int) -> int
    decreases
            (if n >= PAST * d {
                n - PAST * d + 1
            } else {
                0
            }),
{
    if d <= 0 || n < PAST * d {
        0
    } else {
        1 + halvings(n, 2 * d)
    }
}

/// The floating-point number for `n / d`, as a fraction.
pub open spec fn held(n: int, d: int) -> (int, int) {
    if n <= 0 || d <= 0 {
        (0, 1)
    } else if n >= PAST * d {
        let p = two(halvings(n, d));
        (nearest(n, d * p) * p, 1)
    } else {
        let p = two(doublings(n, d));
        (nearest(n * p, d), p)
    }
}

/// Two to the power of 74.
pub const FINEST: u128 = 0x400_0000_0000_0000_0000;

/// Two to the power of 120.
pub const LARGEST: u128 = 0x100_0000_0000_0000_0000_0000_0000_0000;

/// `n / d` rounded to the nearest.
pub fn rounded(n: u128, d: u128) -> (r: u128)
    requires
        1 <= d <= LARGEST,
        n <= LARGEST,
    ensures
        r == nearest(n as int, d as int),
        r <= n + 1,
{
    let q: u128 = n / d;
    let rest: u128 = n % d;
    assert(q <= n) by (nonlinear_arith)
        requires
            q == n / d,
            d >= 1,
    ;
    assert(rest < d) by (nonlinear_arith)
        requires
            rest == n % d,
            d >= 1,
    ;
    if 2 * rest > d || 2 * rest == d && q % 2 == 1 {
        q + 1
    } else {
        q
    }
}

fn round_large(n: u128, d: u128) -> (r: u128)
    requires
        1 <= d,
        PAST * d <= n,
        n <= LARGEST,
    ensures
        r == nearest(n as int, d * two(halvings(n as int, d as int))) * two(
            halvings(n as int, d as int),
        ),
        r <= 2 * n,
{
    let mut p: u128 = 1;
    let mut dd: u128 = d;
    let ghost mut k: int = 0;
    assert(n / dd >= PAST) by (nonlinear_arith)
        requires
            PAST * d <= n,
            dd == d,
            d >= 1,
    ;
    while n / dd >= PAST
        invariant
            1 <= d,
            n <= LARGEST,
            PAST * d <= n,
            k >= 0,
            p == two(k),
            p >= 1,
            dd == d * p,
            d <= dd <= n,
            halvings(n as int, d as int) == k + halvings(n as int, dd as int),
        decreases n - dd,
    {
        assert(PAST * dd <= n) by (nonlinear_arith)
            requires
                n / dd >= PAST,
                dd >= 1,
        ;
        assert(p <= d * p) by (nonlinear_arith)
            requires
                d >= 1,
                p >= 1,
        ;
        assert(d * (2 * p) == 2 * (d * p)) by (nonlinear_arith);
        dd = 2 * dd;
        p = 2 * p;
        proof {
            k = k + 1;
        }
    }
    assert(n < PAST * dd) by (nonlinear_arith)
        requires
            n / dd < PAST,
            dd >= 1,
    ;
    let m: u128 = rounded(n, dd);
    assert(m <= n / dd + 1);
    assert(m * p <= 2 * n) by (nonlinear_arith)
        requires
            m <= n / dd + 1,
            p >= 1,
            d >= 1,
            dd == d * p,
            dd <= n,
    {
        let q = (n / dd) as int;
        assert(q * dd <= n);
        assert(p <= dd);
        assert(q * p <= q * dd);
        assert(m * p <= (q + 1) * p);
        assert((q + 1) * p == q * p + p);
    }
    m * p
}

fn round_small(n: u128, d: u128) -> (r: (u128, u128))
    requires
        1 <= d <= LARGEST,
        1 <= n <= LARGEST,
        n < PAST * d,
        d <= n * FINEST,
    ensures
        r.0 == nearest(n * two(doublings(n as int, d as int)), d as int),
        r.1 == two(doublings(n as int, d as int)),
        r.0 <= PAST,
        1 <= r.1,
        r.1 <= 0x8000_0000_0000_0000_0000_0000_0000_0000,
        n >= d ==> r.1 <= PAST,
        n <= d ==> r.0 <= r.1,
        n * r.1 < PAST * d,
{
    let mut q: u128 = n / d;
    let mut rest: u128 = n % d;
    let mut p: u128 = 1;
    let ghost mut s: int = 0;
    proof {
        vstd::arithmetic::div_mod::lemma_fundamental_div_mod(n as int, d as int);
        assert(d * (n as int / d as int) == q * d) by (nonlinear_arith)
            requires
                q == n as int / d as int,
        ;
        assert(rest < d) by (nonlinear_arith)
            requires
                rest == n % d,
                d >= 1,
        ;
        assert(q < PAST) by (nonlinear_arith)
            requires
                q == n / d,
                n < PAST * d,
                d >= 1,
        ;
        assert(n * 1 == n);
    }
    while q < LEAST
        invariant
            1 <= d <= LARGEST,
            1 <= n <= LARGEST,
            d <= n * FINEST,
            s >= 0,
            p == two(s),
            1 <= p <= 0x8000_0000_0000_0000_0000_0000_0000_0000,
            n * p == q * d + rest,
            rest < d,
            q < PAST,
            n * p < PAST * d,
            n >= d ==> p <= PAST,
            doublings(n as int, d as int) == s + doublings(n * p, d as int),
        decreases
                (if n * p < LEAST * d {
                    LEAST * d - n * p
                } else {
                    0
                }),
    {
        proof {
            assert(n * p < LEAST * d) by (nonlinear_arith)
                requires
                    n * p == q * d + rest,
                    rest < d,
                    q <= LEAST - 1,
                    d >= 1,
            ;
            assert(n * p >= 1) by (nonlinear_arith)
                requires
                    n >= 1,
                    p >= 1,
            ;
            assert(p < LEAST * FINEST) by (nonlinear_arith)
                requires
                    n * p < LEAST * d,
                    d <= n * FINEST,
                    n >= 1,
            ;
            if n >= d {
                assert(p < LEAST) by (nonlinear_arith)
                    requires
                        n * p < LEAST * d,
                        n >= d,
                        d >= 1,
                ;
            }
            assert(n * (2 * p) == 2 * (n * p)) by (nonlinear_arith);
        }
        let ghost q0 = q;
        let ghost rest0 = rest;
        if 2 * rest >= d {
            q = 2 * q + 1;
            rest = 2 * rest - d;
        } else {
            q = 2 * q;
            rest = 2 * rest;
        }
        p = 2 * p;
        proof {
            s = s + 1;
            assert(n * p == q * d + rest) by (nonlinear_arith)
                requires
                    n * p == 2 * (q0 * d + rest0),
                    q == 2 * q0 + 1 && rest == 2 * rest0 - d || q == 2 * q0 && rest == 2 * rest0,
            ;
        }
    }
    proof {
        assert(n * p >= LEAST * d) by (nonlinear_arith)
            requires
                n * p == q * d + rest,
                q >= LEAST,
                rest >= 0,
                d >= 1,
        ;
        lemma_fundamental_div_mod_converse(n * p, d as int, q as int, rest as int);
    }
    if n <= d {
        assert(q <= p && (q == p ==> rest == 0)) by (nonlinear_arith)
            requires
                n * p == q * d + rest,
                n <= d,
                rest >= 0,
                d >= 1,
                p >= 1,
        ;
    }
    let m: u128 = if 2 * rest > d || 2 * rest == d && q % 2 == 1 {
        q + 1
    } else {
        q
    };
    (m, p)
}

/// The floating-point number for `n / d`.
pub fn hold(n: u128, d: u128) -> (r: (u128, u128))
    requires
        1 <= d <= LARGEST,
        n <= LARGEST,
        n == 0 || d <= n * FINEST,
    ensures
        (r.0 as int, r.1 as int) == held(n as int, d as int),
        1 <= r.1 <= 0x8000_0000_0000_0000_0000_0000_0000_0000,
        n < PAST * d ==> r.0 <= PAST,
        r.0 <= PAST || r.0 <= 2 * n,
        r.1 == 1 || n * r.1 < PAST * d,
        n >= d ==> r.1 <= PAST,
        n <= d ==> r.0 <= r.1,
{
    if n == 0 {
        return (0, 1);
    }
    if n / d >= PAST {
        assert(n >= PAST * d) by (nonlinear_arith)
            requires
                n / d >= PAST,
                d >= 1,
        ;
        (round_large(n, d), 1)
    } else {
        assert(n < PAST * d) by (nonlinear_arith)
            requires
                n / d < PAST,
                d >= 1,
        ;
        round_small(n, d)
    }
}

/// The floating-point number for a whole number, which is whole itself.
pub open spec fn held_whole(n: int) -> int {
    if n < PAST {
        n
    } else {
        held(n, 1).0
    }
}

/// The floating-point number for a whole number.
pub fn hold_whole(n: u128) -> (r: u128)
    requires
        n <= LARGEST,
    ensures
        r == held_whole(n as int),
        r <= 2 * n,
        n >= 1 ==> r >= 1,
{
    if n < PAST {
        n
    } else {
        assert(PAST * 1 == PAST);
        let r: u128 = round_large(n, 1);
        proof {
            lemma_large_is_positive(n as int);
        }
        r
    }
}

proof fn lemma_two(n: int)
    ensures
        two(n) >= 1,
    decreases n,
{
    if n > 0 {
        lemma_two(n - 1);
    }
}

/// Halving stops before nothing is left.
proof fn lemma_halved(n: int, d: int)
    requires
        d >= 1,
        n >= d,
    ensures
        n >= d * two(halvings(n, d)),
    decreases
            (if n >= PAST * d {
                n - PAST * d + 1
            } else {
                0
            }),
{
    if n >= PAST * d {
        lemma_halved(n, 2 * d);
        let t = two(halvings(n, 2 * d));
        assert(2 * d * t == d * (2 * t)) by (nonlinear_arith);
    }
}

proof fn lemma_large_is_positive(n: int)
    requires
        n >= PAST,
    ensures
        held(n, 1).0 >= 1,
{
    let p = two(halvings(n, 1));
    lemma_two(halvings(n, 1));
    lemma_halved(n, 1);
    assert(1 * p == p);
    assert(n / p >= 1) by (nonlinear_arith)
        requires
            n >= p,
            p >= 1,
    ;
    assert(nearest(n, p) * p >= 1) by (nonlinear_arith)
        requires
            nearest(n, p) >= 1,
            p >= 1,
    ;
}

/// Ten to the power `n`.
pub open spec fn ten(n: int) -> int
    decreases n,
{
    if n <= 0 {
        1
    } else {
        10 * ten(n - 1)
    }
}

/// The last `n` decimal digits of `v`.
pub open spec fn places(v: int, n: int) -> Seq<char>
    decreases n,
{
    if n <= 0 {
        Seq::empty()
    } else {
        places(v / 10, n - 1).push(digit(v % 10))
    }
}

/// `n / d` with so many digits behind the point.
pub open spec fn fixed(n: int, d: int, digits: int) -> Seq<char> {
    let v = nearest(n * ten(digits), d);
    decimal((v / ten(digits)) as nat) + "."@ + places(v % ten(digits), digits)
}

fn push_wide(out: &mut String, n: u128)
    ensures
        final(out)@ == old(out)@ + decimal(n as nat),
    decreases n,
{
    if n >= 10 {
        push_wide(out, n / 10);
    }
    out.push(digit_char((n % 10) as u8));
}

fn push_places(out: &mut String, v: u128, n: u32)
    ensures
        final(out)@ == old(out)@ + places(v as int, n as int),
    decreases n,
{
    if n > 0 {
        let ghost had = out@;
        push_places(out, v / 10, n - 1);
        out.push(digit_char((v % 10) as u8));
        assert(out@ =~= had + places(v as int, n as int));
    } else {
        assert(out@ + places(v as int, 0) =~= out@);
    }
}

/// Appends `n / d` with one to three digits behind the point.
pub fn push_fixed(out: &mut String, n: u128, d: u128, digits: u32)
    requires
        1 <= d <= LARGEST,
        n * 1000 <= LARGEST,
        1 <= digits <= 3,
    ensures
        final(out)@ == old(out)@ + fixed(n as int, d as int, digits as int),
{
    let ghost had = out@;
    proof {
        reveal_with_fuel(ten, 4);
    }
    let scale: u128 = if digits == 1 {
        10
    } else if digits == 2 {
        100
    } else {
        1000
    };
    assert(n * scale <= n * 1000) by (nonlinear_arith)
        requires
            scale <= 1000,
            n >= 0,
    ;
    let v: u128 = rounded(n * scale, d);
    push_wide(out, v / scale);
    out.push_str(".");
    push_places(out, v % scale, digits);
    assert(out@ =~= had + fixed(n as int, d as int, digits as int));
}

} // verus!
