//! Timing queries, and the report on a build, its opening and its queries.

use vstd::prelude::*;

use crate::index::IndexStats;
use crate::query::parser::parsed;
use crate::query::Query;
use crate::report::{
    bytes_text, comma_text, commas, cost_lines, count_lines, crawl_lines, duration_text,
    human_bytes, human_bytes_signed, human_duration, line, percent, percent_text, process_line,
    push_line, signed_bytes_text, stats_text,
};
use crate::sort::{is_order, lemma_order_is_unique, order, picked};
use crate::text::{chars_of, decimal, push_decimal, text_of};

verus! {

/// The queries that are timed where none are given: one for each operator, on a
/// typical source tree.
pub fn default_queries() -> (v: Vec<&'static str>)
    ensures
        v@.len() == 10,
        v@ == seq![
            "fn",
            "error",
            "impl AND struct",
            "error OR result",
            "\"pub fn\"",
            "\"use std\"",
            "test -mod",
            "http OR response OR request",
            "the quick brown fox",
            "zzzz_no_such_term",
        ],
{
    let mut v: Vec<&'static str> = Vec::new();
    v.push("fn");
    v.push("error");
    v.push("impl AND struct");
    v.push("error OR result");
    v.push("\"pub fn\"");
    v.push("\"use std\"");
    v.push("test -mod");
    v.push("http OR response OR request");
    v.push("the quick brown fox");
    v.push("zzzz_no_such_term");
    v
}

/// What the runs of one query took. Times are in nanoseconds.
#[derive(Debug)]
pub struct QueryTiming {
    pub query: String,
    /// Documents that match, shown or not.
    pub matches: u64,
    pub iterations: u32,
    pub mean: u64,
    pub min: u64,
    pub p50: u64,
    pub max: u64,
}

/// The samples in ascending order.
pub open spec fn ascending_samples(samples: Seq<u64>) -> Seq<u64> {
    picked(samples, choose|places: Seq<usize>| is_order(samples, places))
}

/// The sum of the first `n`.
pub open spec fn sum(samples: Seq<u64>, n: int) -> int
    decreases n,
{
    if n <= 0 {
        0
    } else {
        sum(samples, n - 1) + samples[n - 1]
    }
}

proof fn lemma_sum(samples: Seq<u64>, n: int)
    requires
        0 <= n <= samples.len(),
    ensures
        0 <= sum(samples, n) <= n * u64::MAX,
    decreases n,
{
    if n > 0 {
        lemma_sum(samples, n - 1);
        assert(n * u64::MAX == (n - 1) * u64::MAX + u64::MAX) by (nonlinear_arith);
    }
}

/// Mean, least, median and greatest of the samples. The median of an even number
/// is the greater of the two in the middle.
pub fn timing(query: &str, matches: u64, samples: &[u64]) -> (t: QueryTiming)
    requires
        0 < samples@.len() <= u32::MAX,
    ensures
        t.query@ == query@,
        t.matches == matches,
        t.iterations == samples@.len(),
        ({
            let n = samples@.len() as int;
            let s = ascending_samples(samples@);
            &&& s.len() == n
            &&& t.mean == sum(samples@, n) / n
            &&& t.min == s[0]
            &&& t.p50 == s[n / 2]
            &&& t.max == s[n - 1]
        }),
{
    let n: usize = samples.len();
    let places = order(samples);
    proof {
        let chosen = choose|q: Seq<usize>| is_order(samples@, q);
        lemma_order_is_unique(samples@, places@, chosen);
    }
    let mut total: u128 = 0;
    let mut i: usize = 0;
    while i < n
        invariant
            n == samples@.len(),
            i <= n,
            total == sum(samples@, i as int),
        decreases n - i,
    {
        proof {
            lemma_sum(samples@, i as int);
            assert(i * u64::MAX <= 0xffff_ffff_ffff_ffff * 0xffff_ffff_ffff_ffff)
                by (nonlinear_arith)
                requires
                    i <= 0xffff_ffff_ffff_ffff,
            ;
        }
        total = total + samples[i] as u128;
        i = i + 1;
    }
    proof {
        lemma_sum(samples@, n as int);
        assert(total / (n as u128) <= u64::MAX) by (nonlinear_arith)
            requires
                total <= n * u64::MAX,
                n > 0,
        ;
    }
    QueryTiming {
        query: query.to_string(),
        matches,
        iterations: n as u32,
        mean: (total / n as u128) as u64,
        min: samples[places[0]],
        p50: samples[places[n / 2]],
        max: samples[places[n - 1]],
    }
}

/// One query to time.
#[derive(Debug)]
pub struct BenchQuery {
    pub text: String,
    pub query: Query,
}

/// The texts of the queries.
pub open spec fn query_texts(qs: Seq<BenchQuery>) -> Seq<Seq<char>> {
    Seq::new(qs.len(), |i: int| qs[i].text@)
}

/// The queries that can be parsed, in their order.
pub open spec fn runnable(texts: Seq<Seq<char>>) -> Seq<Seq<char>> {
    texts.filter(|t: Seq<char>| parsed(t) is Ok)
}

/// The texts of the string slices.
pub open spec fn slice_views(v: Seq<&str>) -> Seq<Seq<char>> {
    Seq::new(v.len(), |i: int| v[i]@)
}

/// The queries to time: those that can be parsed of the ones given.
pub fn plan(given: &[&str]) -> (r: Vec<BenchQuery>)
    requires
        forall|i: int| 0 <= i < given@.len() ==> (#[trigger] given@[i])@.len() <= u32::MAX,
    ensures
        query_texts(r@) == runnable(slice_views(given@)),
        forall|i: int|
            0 <= i < r@.len() ==> parsed((#[trigger] r@[i]).text@) == Ok::<
                crate::query::parser::NodeView,
                crate::error::QueryErrorView,
            >(r@[i].query.node()),
{
    let mut r: Vec<BenchQuery> = Vec::new();
    let ghost all = slice_views(given@);
    let mut i: usize = 0;
    proof {
        reveal(Seq::filter);
        assert(all.take(0) =~= Seq::empty());
        assert(query_texts(r@) =~= runnable(all.take(0)));
    }
    while i < given.len()
        invariant
            i <= given@.len(),
            all == slice_views(given@),
            forall|k: int| 0 <= k < given@.len() ==> (#[trigger] given@[k])@.len() <= u32::MAX,
            query_texts(r@) == runnable(all.take(i as int)),
            forall|k: int|
                0 <= k < r@.len() ==> parsed((#[trigger] r@[k]).text@) == Ok::<
                    crate::query::parser::NodeView,
                    crate::error::QueryErrorView,
                >(r@[k].query.node()),
        decreases given@.len() - i,
    {
        let ghost had = query_texts(r@);
        proof {
            reveal(Seq::filter);
            assert(all.take(i + 1).drop_last() =~= all.take(i as int));
            assert(all.take(i + 1).last() == given@[i as int]@);
        }
        match Query::parse(given[i]) {
            Ok(query) => {
                r.push(BenchQuery { text: given[i].to_string(), query });
                assert(query_texts(r@) =~= had.push(given@[i as int]@));
            },
            Err(_) => {},
        }
        i = i + 1;
    }
    assert(all.take(i as int) =~= all);
    r
}

/// How often each query is run: as asked for, and once at least.
pub fn runs(iterations: u32) -> (n: u32)
    ensures
        n == if iterations >= 1 {
            iterations
        } else {
            1
        },
{
    if iterations >= 1 {
        iterations
    } else {
        1
    }
}

/// A report. Times are in nanoseconds.
#[derive(Debug)]
pub struct BenchReport {
    /// Of the build.
    pub index: IndexStats,
    /// The first open, once the system was asked to drop the pages of the index.
    pub open_cold: u64,
    /// How it was asked.
    pub eviction: String,
    /// The second open.
    pub open_warm: u64,
    pub queries: Vec<QueryTiming>,
    pub rss_before_queries: Option<u64>,
    /// The largest resident set seen behind any query.
    pub rss_max_during_queries: Option<u64>,
}

/// So many spaces.
pub open spec fn spaces(n: int) -> Seq<char> {
    Seq::new(
        if n > 0 {
            n as nat
        } else {
            0
        },
        |i: int| ' ',
    )
}

/// A text and spaces behind it up to a width.
pub open spec fn padded(s: Seq<char>, width: int) -> Seq<char> {
    s + spaces(width - s.len())
}

/// A text and spaces before it up to a width.
pub open spec fn indented(s: Seq<char>, width: int) -> Seq<char> {
    spaces(width - s.len()) + s
}

fn push_spaces(out: &mut String, len: usize, width: usize)
    ensures
        final(out)@ == old(out)@ + spaces(width - len),
{
    let ghost had = out@;
    let mut n: usize = len;
    assert(had + spaces(0) =~= had);
    while n < width
        invariant
            out@ == had + spaces(
                if n < width {
                    n - len
                } else if len < width {
                    width - len
                } else {
                    0
                },
            ),
            len <= n,
            n <= width || n == len,
        decreases width - n,
    {
        let ghost before = out@;
        out.push(' ');
        n = n + 1;
        assert(out@ =~= had + spaces(n - len));
    }
    assert(out@ =~= had + spaces(width - len));
}

fn push_left(out: &mut String, s: &str, width: usize)
    ensures
        final(out)@ == old(out)@ + padded(s@, width as int),
{
    let ghost had = out@;
    out.push_str(s);
    push_spaces(out, s.unicode_len(), width);
    assert(out@ =~= had + padded(s@, width as int));
}

fn push_right(out: &mut String, s: &str, width: usize)
    ensures
        final(out)@ == old(out)@ + indented(s@, width as int),
{
    let ghost had = out@;
    push_spaces(out, s.unicode_len(), width);
    out.push_str(s);
    assert(out@ =~= had + indented(s@, width as int));
}

/// A row of the table of queries.
pub open spec fn row(
    query: Seq<char>,
    matches: Seq<char>,
    mean: Seq<char>,
    p50: Seq<char>,
    min: Seq<char>,
    max: Seq<char>,
) -> Seq<char> {
    padded(query, 34) + " "@ + indented(matches, 9) + " "@ + indented(mean, 11) + " "@ + indented(
        p50,
        11,
    ) + " "@ + indented(min, 11) + " "@ + indented(max, 11) + "\n"@
}

fn push_row(
    out: &mut String,
    query: &str,
    matches: &str,
    mean: &str,
    p50: &str,
    min: &str,
    max: &str,
)
    ensures
        final(out)@ == old(out)@ + row(query@, matches@, mean@, p50@, min@, max@),
{
    let ghost had = out@;
    push_left(out, query, 34);
    out.push_str(" ");
    push_right(out, matches, 9);
    out.push_str(" ");
    push_right(out, mean, 11);
    out.push_str(" ");
    push_right(out, p50, 11);
    out.push_str(" ");
    push_right(out, min, 11);
    out.push_str(" ");
    push_right(out, max, 11);
    out.push_str("\n");
    assert(out@ =~= had + row(query@, matches@, mean@, p50@, min@, max@));
}

/// A query as the table shows it: cut where it is longer than 32 characters.
pub open spec fn shown(query: Seq<char>) -> Seq<char> {
    if query.len() > 32 {
        query.take(31) + "…"@
    } else {
        query
    }
}

/// The row of a query.
pub open spec fn query_row(q: QueryTiming) -> Seq<char> {
    row(
        shown(q.query@),
        comma_text(q.matches),
        duration_text(q.mean),
        duration_text(q.p50),
        duration_text(q.min),
        duration_text(q.max),
    )
}

/// The rows of the first `n` queries.
pub open spec fn query_rows(qs: Seq<QueryTiming>, n: int) -> Seq<char>
    decreases n,
{
    if n <= 0 {
        Seq::empty()
    } else {
        query_rows(qs, n - 1) + query_row(qs[n - 1])
    }
}

/// The part of a report on opening.
pub open spec fn open_part(r: BenchReport) -> Seq<char> {
    "== open ==\n"@ + line(
        "cold (best effort)    "@,
        duration_text(r.open_cold) + "   eviction: "@ + r.eviction@,
    ) + line("warm                  "@, duration_text(r.open_warm))
}

/// The part of a report on queries.
pub open spec fn query_part(r: BenchReport) -> Seq<char> {
    let runs = if r.queries@.len() > 0 {
        r.queries@[0].iterations
    } else {
        0
    };
    "== queries ("@ + decimal(runs as nat) + " timed runs each, after warm-up) ==\n"@ + row(
        "query"@,
        "matches"@,
        "mean"@,
        "p50"@,
        "min"@,
        "max"@,
    ) + query_rows(r.queries@, r.queries@.len() as int)
}

/// The size of the index, and one where it has none.
pub open spec fn disk_size(r: BenchReport) -> u64 {
    if r.index.on_disk_bytes >= 1 {
        r.index.on_disk_bytes
    } else {
        1
    }
}

/// The part of a report on memory.
pub open spec fn memory_part(r: BenchReport) -> Seq<char> {
    "== memory while querying ==\n"@ + match (r.rss_before_queries, r.rss_max_during_queries) {
        (Some(before), Some(max)) => line("RSS after open        "@, bytes_text(before)) + line(
            "RSS max during queries "@,
            bytes_text(max) + "  ("@ + signed_bytes_text((max - before) as i64) + " growth)"@,
        ) + line(
            "index on disk         "@,
            bytes_text(disk_size(r)) + "  → queries touched at most "@ + percent_text(
                if max >= before {
                    (max - before) as u64
                } else {
                    0
                },
                disk_size(r),
            ) + "% of it"@,
        ),
        _ => line("RSS                   "@, "unavailable on this platform"@),
    }
}

/// The part of a report on the build.
pub open spec fn build_part(r: BenchReport) -> Seq<char> {
    "== build ==\n"@ + crawl_lines(r.index) + count_lines(r.index) + cost_lines(r.index) + process_line(r.index)
}

impl BenchReport {
    /// The report for people to read.
    pub fn text(&self) -> (r: String)
        requires
            self.rss_before_queries matches Some(n) ==> n <= i64::MAX,
            self.rss_max_during_queries matches Some(n) ==> n <= i64::MAX,
        ensures
            r@ == build_part(*self) + "\n"@ + open_part(*self) + "\n"@ + query_part(*self) + "\n"@
                + memory_part(*self),
    {
        let mut r: String = "== build ==\n".to_string();
        r.push_str(stats_text(&self.index).as_str());
        assert(r@ =~= build_part(*self));
        r.push_str("\n");
        self.push_open(&mut r);
        r.push_str("\n");
        self.push_queries(&mut r);
        r.push_str("\n");
        self.push_memory(&mut r);
        assert(r@ =~= build_part(*self) + "\n"@ + open_part(*self) + "\n"@ + query_part(*self)
            + "\n"@ + memory_part(*self));
        r
    }

    fn push_open(&self, r: &mut String)
        ensures
            final(r)@ == old(r)@ + open_part(*self),
    {
        let ghost had = r@;
        r.push_str("== open ==\n");
        let mut cold = human_duration(self.open_cold);
        cold.push_str("   eviction: ");
        cold.push_str(self.eviction.as_str());
        push_line(r, "cold (best effort)    ", cold.as_str());
        push_line(r, "warm                  ", human_duration(self.open_warm).as_str());
        assert(r@ =~= had + open_part(*self));
    }

    fn push_queries(&self, r: &mut String)
        ensures
            final(r)@ == old(r)@ + query_part(*self),
    {
        let ghost had = r@;
        let runs: u32 = if self.queries.len() > 0 {
            self.queries[0].iterations
        } else {
            0
        };
        r.push_str("== queries (");
        push_decimal(r, runs as u64);
        r.push_str(" timed runs each, after warm-up) ==\n");
        push_row(r, "query", "matches", "mean", "p50", "min", "max");
        let ghost head = r@;
        let mut i: usize = 0;
        assert(head + query_rows(self.queries@, 0) =~= head);
        while i < self.queries.len()
            invariant
                i <= self.queries@.len(),
                r@ == head + query_rows(self.queries@, i as int),
            decreases self.queries@.len() - i,
        {
            let q = &self.queries[i];
            let name = shorten(q.query.as_str());
            push_row(
                r,
                name.as_str(),
                commas(q.matches).as_str(),
                human_duration(q.mean).as_str(),
                human_duration(q.p50).as_str(),
                human_duration(q.min).as_str(),
                human_duration(q.max).as_str(),
            );
            i = i + 1;
            assert(r@ =~= head + query_rows(self.queries@, i as int));
        }
        assert(r@ =~= had + query_part(*self));
    }

    fn push_memory(&self, r: &mut String)
        requires
            self.rss_before_queries matches Some(n) ==> n <= i64::MAX,
            self.rss_max_during_queries matches Some(n) ==> n <= i64::MAX,
        ensures
            final(r)@ == old(r)@ + memory_part(*self),
    {
        let ghost had = r@;
        r.push_str("== memory while querying ==\n");
        match (self.rss_before_queries, self.rss_max_during_queries) {
            (Some(before), Some(max)) => {
                let growth: i64 = max as i64 - before as i64;
                push_line(r, "RSS after open        ", human_bytes(before).as_str());
                let mut most = human_bytes(max);
                most.push_str("  (");
                most.push_str(human_bytes_signed(growth).as_str());
                most.push_str(" growth)");
                push_line(r, "RSS max during queries ", most.as_str());
                let disk: u64 = if self.index.on_disk_bytes >= 1 {
                    self.index.on_disk_bytes
                } else {
                    1
                };
                let grown: u64 = if max >= before {
                    max - before
                } else {
                    0
                };
                let mut touched = human_bytes(disk);
                touched.push_str("  → queries touched at most ");
                touched.push_str(percent(grown, disk).as_str());
                touched.push_str("% of it");
                push_line(r, "index on disk         ", touched.as_str());
            },
            _ => push_line(r, "RSS                   ", "unavailable on this platform"),
        }
        assert(r@ =~= had + memory_part(*self));
    }
}

fn shorten(query: &str) -> (r: String)
    ensures
        r@ == shown(query@),
{
    let cs = chars_of(query);
    if cs.len() > 32 {
        let mut r = text_of(cs.as_slice(), 0, 31);
        assert(r@ =~= query@.take(31));
        r.push_str("…");
        r
    } else {
        query.to_string()
    }
}

} // verus!
