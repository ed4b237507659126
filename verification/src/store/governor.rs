//! Holding background work back: how long to idle before doing more.
//!
//! A byte-rate cap keeps a large merge from saturating the disk, and a duty
//! cycle caps its share of the processor. On battery or under memory pressure
//! background work pauses.

use vstd::prelude::*;

use crate::text::{
    chars_of, first_word, lines, lines_from, lower_ascii, parsed_number, read_number,
    same_ignoring_case, space_end, starts_with, trim, trimmed, views, word_end,
};

verus! {

/// How long background work pauses on a power signal before it asks again.
pub const POWER_BACKOFF_MS: u64 = 30_000;

/// From this percentage of used memory on the system is under pressure.
pub const MEMORY_PRESSURE_PERCENT: u64 = 90;

/// A byte-rate limiter. Time is told by the caller.
#[derive(Debug, Clone, Copy)]
pub struct TokenBucket {
    /// Bytes in a second; so many thousandths of a byte in a millisecond.
    rate: u64,
    /// What may be spent, in thousandths of a byte.
    level: u128,
    last_ms: u64,
}

/// The level behind `ms` milliseconds: it grows with time, up to what a second
/// grants.
pub open spec fn refilled(rate: u64, level: int, ms: int) -> int {
    if level + ms * rate < rate * 1000 {
        level + ms * rate
    } else {
        rate * 1000
    }
}

/// `n / d`, rounded up.
pub open spec fn rounded_up(n: int, d: int) -> int {
    if n % d == 0 {
        n / d
    } else {
        n / d + 1
    }
}

impl TokenBucket {
    /// Bytes in a second.
    pub closed spec fn speed(&self) -> u64 {
        self.rate
    }

    /// What may be spent, in thousandths of a byte.
    pub closed spec fn tokens(&self) -> int {
        self.level as int
    }

    /// When the level was last brought up to date.
    pub closed spec fn at(&self) -> u64 {
        self.last_ms
    }

    /// The rate is positive, and no more than a second's worth is there.
    pub closed spec fn wf(&self) -> bool {
        self.rate >= 1 && self.level <= self.rate * 1000
    }

    /// A full bucket. The rate is also the burst: one second's worth.
    pub fn new(rate_bytes_per_sec: u64, now_ms: u64) -> (b: Self)
        ensures
            b.wf(),
            b.speed() == if rate_bytes_per_sec >= 1 {
                rate_bytes_per_sec
            } else {
                1
            },
            b.tokens() == b.speed() * 1000,
            b.at() == now_ms,
    {
        let rate: u64 = if rate_bytes_per_sec >= 1 {
            rate_bytes_per_sec
        } else {
            1
        };
        TokenBucket { rate, level: rate as u128 * 1000, last_ms: now_ms }
    }

    /// Spends `bytes`. Where they are not there, spends what is, and returns how
    /// many milliseconds it takes until the rest would be; zero where all was
    /// granted.
    pub fn spend(&mut self, now_ms: u64, bytes: u64) -> (wait: u64)
        requires
            old(self).wf(),
        ensures
            final(self).wf(),
            final(self).speed() == old(self).speed(),
            final(self).at() == now_ms,
            ({
                let rate = old(self).speed();
                let passed = if now_ms >= old(self).at() {
                    now_ms - old(self).at()
                } else {
                    0
                };
                let level = refilled(rate, old(self).tokens(), passed);
                let need = bytes * 1000;
                if level >= need {
                    wait == 0 && final(self).tokens() == level - need
                } else {
                    let ms = rounded_up(need - level, rate as int);
                    final(self).tokens() == 0 && wait == if ms <= u64::MAX {
                        ms
                    } else {
                        u64::MAX as int
                    }
                }
            }),
    {
        let passed: u64 = now_ms.saturating_sub(self.last_ms);
        let full: u128 = self.rate as u128 * 1000;
        assert(passed * self.rate <= 0xffff_ffff_ffff_ffff * 0xffff_ffff_ffff_ffff)
            by (nonlinear_arith)
            requires
                passed <= 0xffff_ffff_ffff_ffff,
                self.rate <= 0xffff_ffff_ffff_ffff,
        ;
        let grown: u128 = passed as u128 * self.rate as u128;
        let sum: u128 = self.level.saturating_add(grown);
        let level: u128 = if sum < full {
            sum
        } else {
            full
        };
        self.last_ms = now_ms;
        let need: u128 = bytes as u128 * 1000;
        if level >= need {
            self.level = level - need;
            return 0;
        }
        self.level = 0;
        let short: u128 = need - level;
        let rate: u128 = self.rate as u128;
        let whole: u128 = short / rate;
        proof {
            assert(whole <= short) by (nonlinear_arith)
                requires
                    whole == short / rate,
                    rate >= 1,
            ;
        }
        let ms: u128 = if short % rate == 0 {
            whole
        } else {
            whole + 1
        };
        if ms <= u64::MAX as u128 {
            ms as u64
        } else {
            u64::MAX
        }
    }
}

/// A cap on the share of the processor: behind work, idle in proportion.
#[derive(Debug, Clone, Copy, PartialEq, Eq, Structural)]
pub struct DutyCycle {
    /// Working time in millionths of all time.
    pub ppm: u32,
}

/// `spent * (1_000_000 - p) / p`, rounded to the nearest, halves up.
pub open spec fn idle_time(ppm: int, spent: int) -> int {
    (2 * spent * (1_000_000 - ppm) + ppm) / (2 * ppm)
}

impl DutyCycle {
    /// The cap holds from one in a hundred to all: never starve, never divide by
    /// zero.
    pub open spec fn wf(&self) -> bool {
        10_000 <= self.ppm <= 1_000_000
    }

    /// A cap of so many millionths, brought into range.
    pub fn new(ppm: u32) -> (d: Self)
        ensures
            d.wf(),
            d.ppm == if ppm < 10_000 {
                10_000
            } else if ppm > 1_000_000 {
                1_000_000
            } else {
                ppm
            },
    {
        DutyCycle {
            ppm: if ppm < 10_000 {
                10_000
            } else if ppm > 1_000_000 {
                1_000_000
            } else {
                ppm
            },
        }
    }

    /// Milliseconds to idle behind `spent_ms` of work.
    pub fn idle_after(&self, spent_ms: u64) -> (ms: u64)
        requires
            self.wf(),
        ensures
            ms == if idle_time(self.ppm as int, spent_ms as int) <= u64::MAX {
                idle_time(self.ppm as int, spent_ms as int)
            } else {
                u64::MAX as int
            },
    {
        let p: u128 = self.ppm as u128;
        let rest: u128 = 1_000_000 - p;
        assert(2 * spent_ms * rest <= 2 * 0xffff_ffff_ffff_ffff * 1_000_000) by (nonlinear_arith)
            requires
                spent_ms <= 0xffff_ffff_ffff_ffff,
                rest <= 1_000_000,
        ;
        let idle: u128 = (2 * spent_ms as u128 * rest + p) / (2 * p);
        if idle <= u64::MAX as u128 {
            idle as u64
        } else {
            u64::MAX
        }
    }
}

/// Whether to pause on a power signal.
pub open spec fn paused(on_battery: bool, memory_pressure: bool) -> bool {
    on_battery || memory_pressure
}

/// Holds background work back.
#[derive(Debug, Clone, Copy)]
pub struct Governor {
    pub bucket: TokenBucket,
    pub duty: DutyCycle,
}

/// How long background work of `bytes` waits, and what that leaves of the
/// budget.
pub open spec fn throttled(
    before: Governor,
    behind: Governor,
    on_battery: bool,
    memory_pressure: bool,
    now_ms: u64,
    bytes: u64,
    wait: u64,
) -> bool {
    if paused(on_battery, memory_pressure) {
        wait == POWER_BACKOFF_MS && behind == before
    } else {
        let rate = before.bucket.speed();
        let passed = if now_ms >= before.bucket.at() {
            now_ms - before.bucket.at()
        } else {
            0
        };
        let level = refilled(rate, before.bucket.tokens(), passed);
        let need = bytes * 1000;
        &&& behind.duty == before.duty
        &&& behind.bucket.at() == now_ms
        &&& behind.bucket.speed() == rate
        &&& if level >= need {
            wait == 0 && behind.bucket.tokens() == level - need
        } else {
            let ms = rounded_up(need - level, rate as int);
            behind.bucket.tokens() == 0 && wait == if ms <= u64::MAX {
                ms
            } else {
                u64::MAX as int
            }
        }
    }
}

impl Governor {
    pub open spec fn wf(&self) -> bool {
        self.bucket.wf() && self.duty.wf()
    }

    /// A governor with these caps.
    pub fn new(bytes_per_sec: u64, cpu_ppm: u32, now_ms: u64) -> (g: Self)
        ensures
            g.wf(),
            g.bucket.tokens() == g.bucket.speed() * 1000,
            g.bucket.at() == now_ms,
            g.bucket.speed() == if bytes_per_sec >= 1 {
                bytes_per_sec
            } else {
                1
            },
            g.duty.ppm == if cpu_ppm < 10_000 {
                10_000
            } else if cpu_ppm > 1_000_000 {
                1_000_000
            } else {
                cpu_ppm
            },
    {
        Governor {
            bucket: TokenBucket::new(bytes_per_sec, now_ms),
            duty: DutyCycle::new(cpu_ppm),
        }
    }

    /// How long to wait before `bytes` of background work. A power signal comes
    /// before the byte budget, which it leaves alone.
    pub fn throttle(
        &mut self,
        on_battery: bool,
        memory_pressure: bool,
        now_ms: u64,
        bytes: u64,
    ) -> (wait: u64)
        requires
            old(self).wf(),
        ensures
            final(self).wf(),
            final(self).duty == old(self).duty,
            throttled(
                *old(self),
                *final(self),
                on_battery,
                memory_pressure,
                now_ms,
                bytes,
                wait,
            ),
    {
        if on_battery || memory_pressure {
            return POWER_BACKOFF_MS;
        }
        self.bucket.spend(now_ms, bytes)
    }

    /// How long to idle behind `spent_ms` of work.
    pub fn after_cpu_work(&self, spent_ms: u64) -> (ms: u64)
        requires
            self.wf(),
        ensures
            ms == if idle_time(self.duty.ppm as int, spent_ms as int) <= u64::MAX {
                idle_time(self.duty.ppm as int, spent_ms as int)
            } else {
                u64::MAX as int
            },
    {
        self.duty.idle_after(spent_ms)
    }
}

/// The entry of the power supplies is a battery.
pub fn is_battery(name: &str) -> (r: bool)
    ensures
        r == "BAT"@.is_prefix_of(name@),
{
    starts_with(name, "BAT")
}

/// The status of a battery says that it discharges.
pub fn is_discharging(status: &str) -> (r: bool)
    ensures
        r == same_ignoring_case(trimmed(status@), "discharging"@),
{
    let bare = trim(status);
    let a = chars_of(bare.as_str());
    let b = chars_of("discharging");
    if a.len() != b.len() {
        return false;
    }
    let mut i: usize = 0;
    while i < a.len()
        invariant
            i <= a@.len(),
            a@ == trimmed(status@),
            b@ == "discharging"@,
            a@.len() == b@.len(),
            forall|k: int| 0 <= k < i ==> lower_ascii(#[trigger] a@[k]) == lower_ascii(b@[k]),
        decreases a@.len() - i,
    {
        let x: char = to_lower(a[i]);
        let y: char = to_lower(b[i]);
        if x != y {
            assert(lower_ascii(a@[i as int]) != lower_ascii(b@[i as int]));
            return false;
        }
        i = i + 1;
    }
    true
}

fn to_lower(c: char) -> (r: char)
    ensures
        r == lower_ascii(c),
{
    if 'A' <= c && c <= 'Z' {
        (c as u8 + 32) as char
    } else {
        c
    }
}

/// The number behind `prefix` on a line, if the line starts with it.
pub open spec fn field(line: Seq<char>, prefix: Seq<char>) -> Option<u64> {
    if prefix.is_prefix_of(line) {
        parsed_number(first_word(line.skip(prefix.len() as int)))
    } else {
        None
    }
}

/// What the first `n` lines say of the total and the available memory.
pub open spec fn memory_said(ls: Seq<Seq<char>>, n: int) -> (Option<u64>, Option<u64>)
    decreases n,
{
    if n <= 0 {
        (None, None)
    } else {
        let (total, available) = memory_said(ls, n - 1);
        match field(ls[n - 1], "MemTotal:"@) {
            Some(v) => (Some(v), available),
            None => match field(ls[n - 1], "MemAvailable:"@) {
                Some(v) => (total, Some(v)),
                None => (total, available),
            },
        }
    }
}

/// So much of the memory is in use that background work pauses.
pub open spec fn under_pressure(said: (Option<u64>, Option<u64>)) -> bool {
    match said {
        (Some(total), Some(available)) => total > 0 && {
            let used = if available < total {
                total - available
            } else {
                0
            };
            used * 100 / total as int >= MEMORY_PRESSURE_PERCENT
        },
        _ => false,
    }
}

fn read_field(line: &str, prefix: &str) -> (r: Option<u64>)
    ensures
        r == field(line@, prefix@),
{
    if !starts_with(line, prefix) {
        return None;
    }
    let cs = chars_of(line);
    let p = chars_of(prefix);
    let n: usize = p.len();
    let rest = vstd::slice::slice_subrange(cs.as_slice(), n, cs.len());
    assert(rest@ =~= line@.skip(n as int));
    let a: usize = space_end(rest, 0);
    let b: usize = word_end(rest, a);
    read_number(rest, a, b)
}

/// Whether the system is under memory pressure, from what the kernel tells of
/// its memory. What cannot be made out is no signal.
pub fn memory_pressure(meminfo: &str) -> (r: bool)
    ensures
        r == under_pressure(
            memory_said(lines_from(meminfo@, 0), lines_from(meminfo@, 0).len() as int),
        ),
{
    let ls = lines(meminfo);
    let ghost lv = lines_from(meminfo@, 0);
    let mut total: Option<u64> = None;
    let mut available: Option<u64> = None;
    let mut i: usize = 0;
    while i < ls.len()
        invariant
            i <= ls@.len(),
            lv == views(ls@),
            (total, available) == memory_said(lv, i as int),
        decreases ls@.len() - i,
    {
        let line = ls[i].as_str();
        assert(lv[i as int] == line@);
        match read_field(line, "MemTotal:") {
            Some(v) => {
                total = Some(v);
            },
            None => match read_field(line, "MemAvailable:") {
                Some(v) => {
                    available = Some(v);
                },
                None => {},
            },
        }
        i = i + 1;
    }
    match (total, available) {
        (Some(t), Some(a)) => {
            if t == 0 {
                return false;
            }
            let used: u64 = t.saturating_sub(a);
            used as u128 * 100 / t as u128 >= MEMORY_PRESSURE_PERCENT as u128
        },
        _ => false,
    }
}

} // verus!
