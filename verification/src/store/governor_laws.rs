//! What holding background work back amounts to.

use vstd::prelude::*;

use super::governor::{
    field, idle_time, memory_said, refilled, rounded_up, throttled, under_pressure, Governor,
};

verus! {

/// A byte budget grows with the time and holds one second's worth at most.
pub proof fn lemma_refilled(rate: u64, level: int, ms: int)
    ensures
        refilled(rate, level, ms) <= level + ms * rate,
        refilled(rate, level, ms) <= rate * 1000,
        refilled(rate, level, ms) == level + ms * rate || refilled(rate, level, ms) == rate * 1000,
{
}

/// Rounding up gives the least whole number that is enough.
pub proof fn lemma_rounded_up(n: int, d: int)
    requires
        n >= 0,
        d > 0,
    ensures
        n <= rounded_up(n, d) * d < n + d,
{
    let q = n / d;
    let r = n % d;
    assert(n == q * d + r && 0 <= r < d) by (nonlinear_arith)
        requires
            q == n / d,
            r == n % d,
            d > 0,
    ;
    assert((q + 1) * d == q * d + d) by (nonlinear_arith);
}

/// On battery or under memory pressure background work waits half a minute and spends nothing.
/// Else what it spends at once is paid from the budget, and where that is not enough it waits
/// just until the rate has made up for the rest, and the budget is empty.
pub proof fn lemma_throttled(
    before: Governor,
    behind: Governor,
    on_battery: bool,
    memory_pressure: bool,
    now_ms: u64,
    bytes: u64,
    wait: u64,
)
    requires
        before.wf(),
        behind.wf(),
        throttled(before, behind, on_battery, memory_pressure, now_ms, bytes, wait),
        now_ms >= before.bucket.at(),
        before.bucket.speed() >= 1,
    ensures
        on_battery || memory_pressure ==> wait == 30_000 && behind == before,
        !on_battery && !memory_pressure ==> {
            let rate = before.bucket.speed() as int;
            let grown = before.bucket.tokens() + (now_ms - before.bucket.at()) * rate;
            let level = if grown < 1000 * rate {
                grown
            } else {
                1000 * rate
            };
            &&& behind.bucket.at() == now_ms
            &&& behind.bucket.speed() == rate
            &&& wait == 0 ==> behind.bucket.tokens() == level - 1000 * bytes
            &&& wait > 0 ==> behind.bucket.tokens() == 0 && level < 1000 * bytes
            &&& wait > 0 && wait < u64::MAX ==> 1000 * bytes - level <= wait * rate < 1000 * bytes
                - level + rate
        },
{
    if !on_battery && !memory_pressure {
        let rate = before.bucket.speed() as int;
        let passed = now_ms - before.bucket.at();
        let level = refilled(before.bucket.speed(), before.bucket.tokens(), passed);
        let need = bytes * 1000;
        if level < need {
            lemma_rounded_up(need - level, rate);
            if wait == 0 {
                assert(rounded_up(need - level, rate) * rate == 0) by (nonlinear_arith)
                    requires
                        rounded_up(need - level, rate) == 0,
                ;
            }
        }
    }
}

/// Behind `spent` milliseconds of work the idle time is the one, to the nearest, with which the
/// work takes its share in millionths of all time.
pub proof fn lemma_idle_time(ppm: int, spent: int)
    requires
        0 < ppm <= 1_000_000,
        spent >= 0,
    ensures
        ({
            let idle = idle_time(ppm, spent);
            let all = spent + idle;
            &&& 2 * (1_000_000 * spent - ppm * all) <= ppm
            &&& -ppm <= 2 * (1_000_000 * spent - ppm * all)
        }),
{
    let idle = idle_time(ppm, spent);
    let n = 2 * spent * (1_000_000 - ppm) + ppm;
    let d = 2 * ppm;
    assert(d * idle <= n < d * idle + d) by (nonlinear_arith)
        requires
            idle == n / d,
            d > 0,
    ;
    assert(d * idle == 2 * (ppm * idle)) by (nonlinear_arith)
        requires
            d == 2 * ppm,
    ;
    assert(2 * spent * (1_000_000 - ppm) == 2_000_000 * spent - 2 * (ppm * spent))
        by (nonlinear_arith);
    assert(ppm * (spent + idle) == ppm * spent + ppm * idle) by (nonlinear_arith);
}

/// There is memory pressure exactly where both numbers are known and nine tenths of the memory
/// or more are not available.
pub proof fn lemma_pressure(total: u64, available: u64)
    ensures
        under_pressure((Some(total), Some(available))) <==> total > 0 && available <= total && 100
            * (total - available) >= 90 * total,
        !under_pressure((None, Some(available))),
        !under_pressure((Some(total), None)),
        !under_pressure((None, None)),
{
    if total > 0 {
        let used = if available < total {
            total - available
        } else {
            0
        };
        let t = total as int;
        let q = used * 100 / t;
        assert(q >= 90 <==> used * 100 >= 90 * t) by (nonlinear_arith)
            requires
                q == used * 100 / t,
                t > 0,
        ;
    }
}

/// The last of the first `n` lines that gives a number behind the prefix gives this one.
pub open spec fn last_said(ls: Seq<Seq<char>>, n: int, prefix: Seq<char>, v: u64) -> bool {
    exists|k: int|
        0 <= k < n && field(#[trigger] ls[k], prefix) == Some(v) && forall|j: int|
            k < j < n ==> field(#[trigger] ls[j], prefix) is None
}

/// What a listing says of the memory is what its last such lines say.
pub proof fn lemma_memory_said(ls: Seq<Seq<char>>, n: int)
    requires
        0 <= n <= ls.len(),
    ensures
        match memory_said(ls, n).0 {
            Some(v) => last_said(ls, n, "MemTotal:"@, v),
            None => forall|k: int|
                0 <= k < n ==> field(#[trigger] ls[k], "MemTotal:"@) is None,
        },
        match memory_said(ls, n).1 {
            Some(v) => last_said(ls, n, "MemAvailable:"@, v),
            None => forall|k: int|
                0 <= k < n ==> field(#[trigger] ls[k], "MemAvailable:"@) is None,
        },
    decreases n,
{
    if n > 0 {
        lemma_memory_said(ls, n - 1);
        lemma_one_field(ls[n - 1]);
        let (total, available) = memory_said(ls, n - 1);
        let a = "MemTotal:"@;
        let b = "MemAvailable:"@;
        if field(ls[n - 1], a) is None {
            if let Some(v) = total {
                let k = choose|k: int|
                    0 <= k < n - 1 && field(#[trigger] ls[k], a) == Some(v) && forall|j: int|
                        k < j < n - 1 ==> field(#[trigger] ls[j], a) is None;
                assert(field(ls[k], a) == Some(v));
                assert(last_said(ls, n, a, v));
            }
        } else {
            assert(last_said(ls, n, a, field(ls[n - 1], a)->0));
        }
        if field(ls[n - 1], b) is None {
            if let Some(v) = available {
                let k = choose|k: int|
                    0 <= k < n - 1 && field(#[trigger] ls[k], b) == Some(v) && forall|j: int|
                        k < j < n - 1 ==> field(#[trigger] ls[j], b) is None;
                assert(field(ls[k], b) == Some(v));
                assert(last_said(ls, n, b, v));
            }
        } else {
            assert(last_said(ls, n, b, field(ls[n - 1], b)->0));
        }
    }
}

/// No line starts with both.
proof fn lemma_one_field(line: Seq<char>)
    ensures
        field(line, "MemTotal:"@) is None || field(line, "MemAvailable:"@) is None,
{
    reveal_strlit("MemTotal:");
    reveal_strlit("MemAvailable:");
    let a = "MemTotal:"@;
    let b = "MemAvailable:"@;
    if a.is_prefix_of(line) && b.is_prefix_of(line) {
        assert(a[3] == 'T');
        assert(b[3] == 'A');
        assert(a[3] == line[3]) by {
            assert(a == line.subrange(0, a.len() as int));
        }
        assert(b[3] == line[3]) by {
            assert(b == line.subrange(0, b.len() as int));
        }
    }
}

} // verus!
