//! Numbers and statistics for people to read.

use vstd::prelude::*;

use crate::index::IndexStats;
use crate::rounding::{fixed, held, held_whole, hold, hold_whole, push_fixed, PAST};
use crate::text::{chars_of, decimal, push_decimal};

verus! {

/// The digits with a comma before every third from the end.
pub open spec fn grouped(d: Seq<char>, n: int) -> Seq<char>
    decreases n,
{
    if n <= 0 {
        Seq::empty()
    } else if n > 1 && (d.len() - (n - 1)) % 3 == 0 {
        grouped(d, n - 1).push(',').push(d[n - 1])
    } else {
        grouped(d, n - 1).push(d[n - 1])
    }
}

/// `1234567` as `1,234,567`.
pub open spec fn comma_text(n: u64) -> Seq<char> {
    grouped(decimal(n as nat), decimal(n as nat).len() as int)
}

/// `1234567` as `1,234,567`.
pub fn commas(n: u64) -> (r: String)
    ensures
        r@ == comma_text(n),
{
    let mut plain = String::new();
    push_decimal(&mut plain, n);
    let d = chars_of(plain.as_str());
    assert(d@ =~= decimal(n as nat));
    let mut r = String::new();
    let mut i: usize = 0;
    assert(r@ =~= Seq::empty());
    while i < d.len()
        invariant
            d@ == decimal(n as nat),
            i <= d@.len(),
            r@ == grouped(d@, i as int),
        decreases d@.len() - i,
    {
        if i > 0 && (d.len() - i) % 3 == 0 {
            r.push(',');
        }
        r.push(d[i]);
        i = i + 1;
    }
    r
}

/// The unit for a number of bytes: how often it is divided by 1024, four times
/// at most.
pub open spec fn unit_of(bytes: u64) -> int {
    if bytes < 1024 {
        0
    } else if bytes < 0x10_0000 {
        1
    } else if bytes < 0x4000_0000 {
        2
    } else if bytes < 0x100_0000_0000 {
        3
    } else {
        4
    }
}

/// The bytes that a unit stands for.
pub open spec fn unit_size(u: int) -> int {
    if u <= 0 {
        1
    } else if u == 1 {
        1024
    } else if u == 2 {
        0x10_0000
    } else if u == 3 {
        0x4000_0000
    } else {
        0x100_0000_0000
    }
}

/// The name of a unit.
pub open spec fn unit_name(u: int) -> Seq<char> {
    if u <= 0 {
        "B"@
    } else if u == 1 {
        "KiB"@
    } else if u == 2 {
        "MiB"@
    } else if u == 3 {
        "GiB"@
    } else {
        "TiB"@
    }
}

/// `12.3 MiB`, `456 B`.
pub open spec fn bytes_text(bytes: u64) -> Seq<char> {
    let u = unit_of(bytes);
    if u == 0 {
        decimal(bytes as nat) + " "@ + unit_name(0)
    } else {
        fixed(held_whole(bytes as int), unit_size(u), 1) + " "@ + unit_name(u)
    }
}

/// `12.3 MiB`, `456 B`.
pub fn human_bytes(bytes: u64) -> (r: String)
    ensures
        r@ == bytes_text(bytes),
{
    let (size, name): (u128, &str) = if bytes < 1024 {
        (1, "B")
    } else if bytes < 0x10_0000 {
        (1024, "KiB")
    } else if bytes < 0x4000_0000 {
        (0x10_0000, "MiB")
    } else if bytes < 0x100_0000_0000 {
        (0x4000_0000, "GiB")
    } else {
        (0x100_0000_0000, "TiB")
    };
    let mut r = String::new();
    if bytes < 1024 {
        push_decimal(&mut r, bytes);
    } else {
        push_fixed(&mut r, hold_whole(bytes as u128), size, 1);
    }
    r.push_str(" ");
    r.push_str(name);
    assert(r@ =~= bytes_text(bytes));
    r
}

/// `+12.3 MiB`, `-456 B`.
pub open spec fn signed_bytes_text(delta: i64) -> Seq<char> {
    if delta < 0 {
        "-"@ + bytes_text((-delta) as u64)
    } else {
        "+"@ + bytes_text(delta as u64)
    }
}

/// `+12.3 MiB`, `-456 B`.
pub fn human_bytes_signed(delta: i64) -> (r: String)
    ensures
        r@ == signed_bytes_text(delta),
{
    let size: u64 = if delta >= 0 {
        delta as u64
    } else if delta == i64::MIN {
        9_223_372_036_854_775_808
    } else {
        (-delta) as u64
    };
    let mut r: String = if delta < 0 {
        "-".to_string()
    } else {
        "+".to_string()
    };
    r.push_str(human_bytes(size).as_str());
    r
}

/// A time in nanoseconds: `1.234 s`, `12.30 ms`, `456 µs`.
pub open spec fn duration_text(ns: u64) -> Seq<char> {
    let us = ns as int / 1000;
    if us >= 1_000_000 {
        let part = held(ns as int % 1_000_000_000, 1_000_000_000);
        let all = held(ns as int / 1_000_000_000 * part.1 + part.0, part.1);
        fixed(all.0, all.1, 3) + " s"@
    } else if us >= 1000 {
        let ms = held(us, 1000);
        fixed(ms.0, ms.1, 2) + " ms"@
    } else {
        decimal(us as nat) + " µs"@
    }
}

/// A time in nanoseconds: `1.234 s`, `12.30 ms`, `456 µs`.
pub fn human_duration(ns: u64) -> (r: String)
    ensures
        r@ == duration_text(ns),
{
    let us: u64 = ns / 1000;
    let mut r = String::new();
    if us >= 1_000_000 {
        let secs: u128 = (ns / 1_000_000_000) as u128;
        let (m, p) = hold((ns % 1_000_000_000) as u128, 1_000_000_000);
        assert(p <= PAST * 1_000_000_000) by (nonlinear_arith)
            requires
                p == 1 || ns % 1_000_000_000 >= 1 && (ns % 1_000_000_000) * p < PAST
                    * 1_000_000_000,
        ;
        assert(p <= secs * p <= 18_446_744_073 * (PAST * 1_000_000_000)) by (nonlinear_arith)
            requires
                1 <= secs <= 18_446_744_073,
                0 <= p <= PAST * 1_000_000_000,
        ;
        let whole: u128 = secs * p;
        assert(whole + m < PAST * p) by (nonlinear_arith)
            requires
                whole == secs * p,
                m <= p,
                p >= 1,
                secs <= 18_446_744_073,
        ;
        let (n, d) = hold(whole + m, p);
        push_fixed(&mut r, n, d, 3);
        r.push_str(" s");
    } else if us >= 1000 {
        let (n, d) = hold(us as u128, 1000);
        push_fixed(&mut r, n, d, 2);
        r.push_str(" ms");
    } else {
        push_decimal(&mut r, us);
        r.push_str(" µs");
    }
    assert(r@ =~= duration_text(ns));
    r
}

/// A share in percent, with one digit behind the point.
pub open spec fn percent_text(part: u64, whole: u64) -> Seq<char> {
    let share = held(held_whole(100 * held_whole(part as int)), held_whole(whole as int));
    fixed(share.0, share.1, 1)
}

/// A share in percent, with one digit behind the point.
pub fn percent(part: u64, whole: u64) -> (r: String)
    requires
        whole > 0,
    ensures
        r@ == percent_text(part, whole),
{
    let hundredfold: u128 = hold_whole(100 * hold_whole(part as u128));
    let all: u128 = hold_whole(whole as u128);
    let (n, d) = hold(hundredfold, all);
    assert(d == 1 || d < PAST * all) by (nonlinear_arith)
        requires
            d == 1 || hundredfold >= 1 && hundredfold * d < PAST * all,
            d >= 1,
    ;
    let mut r = String::new();
    push_fixed(&mut r, n, d, 1);
    assert(r@ =~= percent_text(part, whole));
    r
}

/// A line of a report.
pub open spec fn line(label: Seq<char>, value: Seq<char>) -> Seq<char> {
    label + value + "\n"@
}

/// A line of a report that is there only under a condition.
pub open spec fn line_if(shown: bool, label: Seq<char>, value: Seq<char>) -> Seq<char> {
    if shown {
        line(label, value)
    } else {
        Seq::empty()
    }
}

/// Appends a line.
pub fn push_line(out: &mut String, label: &str, value: &str)
    ensures
        final(out)@ == old(out)@ + line(label@, value@),
{
    let ghost had = out@;
    out.push_str(label);
    out.push_str(value);
    out.push_str("\n");
    assert(out@ =~= had + line(label@, value@));
}

fn push_line_if(out: &mut String, shown: bool, label: &str, value: &str)
    ensures
        final(out)@ == old(out)@ + line_if(shown, label@, value@),
{
    if shown {
        push_line(out, label, value);
    } else {
        assert(out@ + Seq::<char>::empty() =~= out@);
    }
}

/// The lines on the files of the crawl.
pub open spec fn crawl_lines(s: IndexStats) -> Seq<char> {
    line("files seen            "@, comma_text(s.crawl.files_seen)) + line(
        "  skipped             "@,
        comma_text(s.crawl.skipped_too_large) + " too large, "@ + comma_text(s.crawl.skipped_binary)
            + " binary, "@ + comma_text(s.crawl.errors) + " errors"@,
    )
}

/// The lines on what is indexed.
pub open spec fn count_lines(s: IndexStats) -> Seq<char> {
    line("docs indexed          "@, comma_text(s.docs_indexed as u64)) + line_if(
        s.docs_skipped > 0,
        "  not indexed         "@,
        comma_text(s.docs_skipped as u64),
    ) + line("total terms           "@, comma_text(s.total_tokens)) + line(
        "postings              "@,
        comma_text(s.total_postings),
    ) + line(
        "unique terms          "@,
        comma_text(s.unique_terms) + if s.segments > 1 {
            "  (summed over segments)"@
        } else {
            ""@
        },
    ) + line("segments              "@, decimal(s.segments as nat))
}

/// The lines on sizes and times.
pub open spec fn cost_lines(s: IndexStats) -> Seq<char> {
    line_if(
        s.crawl.indexable_bytes > 0,
        "corpus size           "@,
        bytes_text(s.crawl.indexable_bytes),
    ) + line(
        "index on disk         "@,
        bytes_text(s.on_disk_bytes) + if s.crawl.indexable_bytes > 0 {
            "  ("@ + percent_text(s.on_disk_bytes, s.crawl.indexable_bytes) + "% of corpus)"@
        } else {
            ""@
        },
    ) + line_if(s.crawl_time > 0, "crawl time            "@, duration_text(s.crawl_time)) + line_if(
        s.build_time > 0,
        "build time            "@,
        duration_text(s.build_time),
    ) + line("open time             "@, duration_text(s.open_time)) + line(
        "reader heap           "@,
        bytes_text(s.memory_bytes) + "  (accounted; segment data is mapped)"@,
    )
}

/// The line on the process.
pub open spec fn process_line(s: IndexStats) -> Seq<char> {
    line(
        "process RSS           "@,
        match (s.rss_bytes, s.rss_delta_bytes) {
            (Some(rss), Some(delta)) => bytes_text(rss) + "  ("@ + signed_bytes_text(delta)
                + " during crawl + build + open)"@,
            (Some(rss), None) => bytes_text(rss),
            _ => "unavailable"@,
        },
    )
}

/// The statistics of an index, a line each.
pub fn stats_text(s: &IndexStats) -> (r: String)
    ensures
        r@ == crawl_lines(*s) + count_lines(*s) + cost_lines(*s) + process_line(*s),
{
    let mut r = String::new();
    push_crawl(&mut r, s);
    push_counts(&mut r, s);
    push_costs(&mut r, s);
    push_process(&mut r, s);
    assert(r@ =~= crawl_lines(*s) + count_lines(*s) + cost_lines(*s) + process_line(*s));
    r
}

fn push_crawl(r: &mut String, s: &IndexStats)
    ensures
        final(r)@ == old(r)@ + crawl_lines(*s),
{
    let ghost had = r@;
    push_line(r, "files seen            ", commas(s.crawl.files_seen).as_str());
    let mut skipped = commas(s.crawl.skipped_too_large);
    skipped.push_str(" too large, ");
    skipped.push_str(commas(s.crawl.skipped_binary).as_str());
    skipped.push_str(" binary, ");
    skipped.push_str(commas(s.crawl.errors).as_str());
    skipped.push_str(" errors");
    push_line(r, "  skipped             ", skipped.as_str());
    assert(r@ =~= had + crawl_lines(*s));
}

fn push_counts(r: &mut String, s: &IndexStats)
    ensures
        final(r)@ == old(r)@ + count_lines(*s),
{
    let ghost had = r@;
    push_line(r, "docs indexed          ", commas(s.docs_indexed as u64).as_str());
    push_line_if(
        r,
        s.docs_skipped > 0,
        "  not indexed         ",
        commas(s.docs_skipped as u64).as_str(),
    );
    push_line(r, "total terms           ", commas(s.total_tokens).as_str());
    push_line(r, "postings              ", commas(s.total_postings).as_str());
    let mut terms = commas(s.unique_terms);
    terms.push_str(
        if s.segments > 1 {
            "  (summed over segments)"
        } else {
            ""
        },
    );
    push_line(r, "unique terms          ", terms.as_str());
    let mut segments = String::new();
    push_decimal(&mut segments, s.segments as u64);
    assert(segments@ =~= decimal(s.segments as nat));
    push_line(r, "segments              ", segments.as_str());
    assert(r@ =~= had + count_lines(*s));
}

fn push_costs(r: &mut String, s: &IndexStats)
    ensures
        final(r)@ == old(r)@ + cost_lines(*s),
{
    let ghost had = r@;
    push_line_if(
        r,
        s.crawl.indexable_bytes > 0,
        "corpus size           ",
        human_bytes(s.crawl.indexable_bytes).as_str(),
    );
    let mut disk = human_bytes(s.on_disk_bytes);
    if s.crawl.indexable_bytes > 0 {
        let ghost size = disk@;
        disk.push_str("  (");
        disk.push_str(percent(s.on_disk_bytes, s.crawl.indexable_bytes).as_str());
        disk.push_str("% of corpus)");
        assert(disk@ =~= size + ("  ("@ + percent_text(s.on_disk_bytes, s.crawl.indexable_bytes)
            + "% of corpus)"@));
    } else {
        disk.push_str("");
    }
    push_line(r, "index on disk         ", disk.as_str());
    push_line_if(r, s.crawl_time > 0, "crawl time            ", human_duration(s.crawl_time).as_str());
    push_line_if(r, s.build_time > 0, "build time            ", human_duration(s.build_time).as_str());
    push_line(r, "open time             ", human_duration(s.open_time).as_str());
    let mut heap = human_bytes(s.memory_bytes);
    heap.push_str("  (accounted; segment data is mapped)");
    push_line(r, "reader heap           ", heap.as_str());
    assert(r@ =~= had + cost_lines(*s));
}

fn push_process(r: &mut String, s: &IndexStats)
    ensures
        final(r)@ == old(r)@ + process_line(*s),
{
    match (s.rss_bytes, s.rss_delta_bytes) {
        (Some(rss), Some(delta)) => {
            let mut v = human_bytes(rss);
            v.push_str("  (");
            v.push_str(human_bytes_signed(delta).as_str());
            v.push_str(" during crawl + build + open)");
            push_line(r, "process RSS           ", v.as_str());
        },
        (Some(rss), None) => push_line(r, "process RSS           ", human_bytes(rss).as_str()),
        _ => push_line(r, "process RSS           ", "unavailable"),
    }
}

} // verus!
