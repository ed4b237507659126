//! Snippets, reports, benchmark texts and what the crawler decides.

use std::time::Duration;

use ripindex::bench::{default_queries, plan, runs, timing, BenchReport, QueryTiming};
use ripindex::crawler::{
    crawl_stats, is_visited, kind_of, looks_binary, sniff_len, sort_by_path, text_files,
    CrawlConfig, CrawlStats, CrawledFile, FileEntry, FileKind,
};
use ripindex::error::{Error, QueryError};
use ripindex::format::FormatError;
use ripindex::index::IndexStats;
use ripindex::order::{byte_order, common_prefix, ByteOrder};
use ripindex::query::Query;
use ripindex::report::{
    commas, human_bytes, human_bytes_signed, human_duration, percent, push_line, stats_text,
};
use ripindex::rounding::{hold, hold_whole, rounded};
use ripindex::snippet::{make_snippet, render, snippet_for, Snippet};
use ripindex::sort::{arrange, order};
use ripindex::text::{
    char_width, ends_with, lines, push_decimal, push_hex, starts_with, text_of, trim,
};

// Snippets.

fn terms(ts: &[&str]) -> Vec<String> {
    ts.iter().map(|t| t.to_string()).collect()
}

fn plain(text: &str, ts: &[&str]) -> Option<(usize, String)> {
    snippet_for(text, &terms(ts), 160).map(|s| (s.line_no, render(&s, false)))
}

#[test]
fn picks_line_with_most_distinct_terms() {
    let p = "alpha\nbeta beta beta\n  alpha beta  \nalpha\n";
    assert_eq!(plain(p, &["alpha", "beta"]), Some((3, "[alpha] [beta]".into())));
    assert_eq!(plain(p, &["alpha"]), Some((1, "[alpha]".into()))); // earliest on ties
    assert_eq!(plain(p, &["beta"]), Some((2, "[beta] [beta] [beta]".into())));
    assert_eq!(plain(p, &["gamma"]), None);
    assert_eq!(plain(p, &[]), None);
}

#[test]
fn highlights_whole_atom_for_identifier_parts() {
    let p = "fn parse_http_response() -> HttpResponse {}\n";
    assert_eq!(
        plain(p, &["http"]),
        Some((1, "fn [parse_http_response]() -> [HttpResponse] {}".into()))
    );
    // Two query terms hitting the same atom produce one highlight.
    assert_eq!(
        plain(p, &["parse", "response"]),
        Some((1, "fn [parse_http_response]() -> [HttpResponse] {}".into()))
    );
}

#[test]
fn crlf_and_unicode() {
    let p = "first\r\nle café est ouvert\r\n";
    assert_eq!(plain(p, &["café"]), Some((2, "le [café] est ouvert".into())));
}

#[test]
fn long_lines_are_windowed_around_the_first_hit() {
    let filler = "x ".repeat(100); // 200 chars
    let line = format!("{filler}needle here {filler}");
    let s = snippet_for(&line, &terms(&["needle", "here"]), 40).unwrap();
    assert!(s.text.starts_with('…') && s.text.ends_with('…'));
    assert_eq!(s.text.chars().count(), 42);
    assert_eq!(render(&s, false).matches("[needle] [here]").count(), 1);
    for r in &s.highlights {
        assert!(s.text.is_char_boundary(r.start) && s.text.is_char_boundary(r.end));
    }

    // Hit at the very start: no leading ellipsis.
    let s2 = snippet_for(&format!("needle {filler}"), &terms(&["needle"]), 20).unwrap();
    assert!(s2.text.starts_with("needle") && s2.text.ends_with('…'));
    assert_eq!(render(&s2, false).find("[needle]"), Some(0));

    // Hit at the very end: window slides back, no trailing ellipsis.
    let s3 = snippet_for(&format!("{filler}needle"), &terms(&["needle"]), 20).unwrap();
    assert!(s3.text.starts_with('…') && s3.text.ends_with("needle"));
    assert!(render(&s3, false).ends_with("[needle]"));
}

#[test]
fn window_respects_multibyte_boundaries() {
    let line = format!("{} needle {}", "é".repeat(50), "日".repeat(50));
    let s = snippet_for(&line, &terms(&["needle"]), 30).unwrap();
    assert_eq!(s.text.chars().count(), 32);
    assert_eq!(render(&s, false).matches("[needle]").count(), 1);
}

#[test]
fn render_color() {
    let s = Snippet { line_no: 1, text: "ab cd".into(), highlights: vec![0..2, 3..5] };
    assert_eq!(render(&s, true), "\x1b[1;31mab\x1b[0m \x1b[1;31mcd\x1b[0m");
    assert_eq!(render(&s, false), "[ab] [cd]");
    let empty = Snippet { line_no: 1, text: "plain".into(), highlights: vec![] };
    assert_eq!(render(&empty, true), "plain");
}

#[test]
fn snippets_are_trimmed_and_cut_without_a_hit() {
    let s = make_snippet(7, "  ab cd  ", vec![5..7], 160);
    assert_eq!(
        s,
        Snippet { line_no: 7, text: "ab cd".to_string(), highlights: vec![3..5] }
    );
}

// Reports.

#[test]
fn comma_grouping() {
    assert_eq!(commas(0), "0");
    assert_eq!(commas(999), "999");
    assert_eq!(commas(1000), "1,000");
    assert_eq!(commas(1234567), "1,234,567");
}

#[test]
fn byte_units() {
    assert_eq!(human_bytes(0), "0 B");
    assert_eq!(human_bytes(1023), "1023 B");
    assert_eq!(human_bytes(1024), "1.0 KiB");
    assert_eq!(human_bytes(12_900_000), "12.3 MiB");
    assert_eq!(human_bytes_signed(-2048), "-2.0 KiB");
    assert_eq!(human_bytes_signed(512), "+512 B");
}

#[test]
fn byte_units_at_the_edges() {
    assert_eq!(human_bytes(1024 * 1024 - 1), "1024.0 KiB");
    assert_eq!(human_bytes(1 << 40), "1.0 TiB");
    assert_eq!(human_bytes(1024 + 51), "1.0 KiB");
    assert_eq!(human_bytes(1024 + 52), "1.1 KiB");
    // A tie goes to the even digit.
    assert_eq!(human_bytes(1024 + 256), "1.2 KiB");
    assert_eq!(human_bytes_signed(0), "+0 B");
    assert_eq!(human_bytes_signed(i64::MIN), "-8388608.0 TiB");
}

fn nanos(d: Duration) -> u64 {
    d.as_nanos() as u64
}

#[test]
fn durations() {
    assert_eq!(human_duration(nanos(Duration::from_micros(456))), "456 µs");
    assert_eq!(human_duration(nanos(Duration::from_micros(12_345))), "12.35 ms");
    assert_eq!(human_duration(nanos(Duration::from_millis(1234))), "1.234 s");
}

fn float_duration(ns: u64) -> String {
    let d = Duration::from_nanos(ns);
    let us = d.as_micros();
    if us >= 1_000_000 {
        format!("{:.3} s", d.as_secs_f64())
    } else if us >= 1_000 {
        format!("{:.2} ms", us as f64 / 1000.0)
    } else {
        format!("{us} µs")
    }
}

fn numbers() -> Vec<u64> {
    let mut x: u64 = 0x9E37_79B9_7F4A_7C15;
    (0..20_000)
        .map(|i| {
            x ^= x << 13;
            x ^= x >> 7;
            x ^= x << 17;
            x >> (i % 64)
        })
        .collect()
}

#[test]
fn durations_are_rounded_as_fractions() {
    assert_eq!(human_duration(0), "0 µs");
    assert_eq!(human_duration(999_999), "999 µs");
    // Halves that a fraction of two holds go to the even digit, the others to
    // the side on which they are held.
    assert_eq!(human_duration(1_125_000), "1.12 ms");
    assert_eq!(human_duration(1_375_000), "1.38 ms");
    assert_eq!(human_duration(1_005_000), "1.00 ms");
    assert_eq!(human_duration(999_999_999), "1000.00 ms");
    assert_eq!(human_duration(1_000_500_000), "1.000 s");
    assert_eq!(human_duration(u64::MAX), "18446744073.710 s");
    for us in (1_005..1_000_000u64).step_by(10) {
        assert_eq!(human_duration(us * 1000), float_duration(us * 1000));
    }
    for ms in (0..20_000u64).step_by(1) {
        let ns = 1_000_500_000 + ms * 1_000_000;
        assert_eq!(human_duration(ns), float_duration(ns));
    }
    for ns in numbers() {
        assert_eq!(human_duration(ns), float_duration(ns), "{ns}");
    }
}

#[test]
fn shares_are_rounded_as_fractions() {
    assert_eq!(percent(1, 2), "50.0");
    assert_eq!(percent(0, 7), "0.0");
    assert_eq!(percent(1, 3), "33.3");
    assert_eq!(percent(1, 16), "6.2");
    assert_eq!(percent(u64::MAX, 1), "1844674407370955161600.0");
    let ns = numbers();
    for (a, b) in ns.iter().zip(ns.iter().skip(7)) {
        let b = (*b).max(1);
        assert_eq!(percent(*a, b), format!("{:.1}", 100.0 * *a as f64 / b as f64), "{a} {b}");
    }
}

#[test]
fn sizes_are_rounded_as_fractions() {
    for n in numbers() {
        let mut v = n as f64;
        let mut u = 0;
        while v >= 1024.0 && u < 4 {
            v /= 1024.0;
            u += 1;
        }
        let unit = ["B", "KiB", "MiB", "GiB", "TiB"][u];
        let want = if u == 0 { format!("{n} B") } else { format!("{v:.1} {unit}") };
        assert_eq!(human_bytes(n), want);
    }
    // One byte above a tie, which a fraction of 53 bits does not tell from it.
    let tie = (1u64 << 40) / 4 * ((1 << 16) + 1);
    assert_eq!(human_bytes(tie), "16384.2 TiB");
    assert_eq!(human_bytes(tie + 1), "16384.2 TiB");
}

#[test]
fn fractions_are_held_by_the_nearest() {
    for n in numbers() {
        assert_eq!(hold_whole(n as u128) as f64, n as f64);
        let (m, d) = hold(hold_whole(n as u128), 1_000_000_007);
        assert_eq!(m as f64 / d as f64, n as f64 / 1_000_000_007.0, "{n}");
    }
    assert_eq!(hold(0, 5), (0, 1));
    assert_eq!(hold(1, 2), (1 << 52, 1 << 53));
    assert_eq!(hold_whole((1 << 53) + 1), 1 << 53);
    assert_eq!(hold_whole((1 << 53) + 3), (1 << 53) + 4);
    assert_eq!((rounded(5, 2), rounded(7, 2), rounded(8, 3)), (2, 4, 3));
}

#[test]
fn statistics_are_a_line_each() {
    let s = IndexStats {
        crawl: CrawlStats {
            files_seen: 1234,
            skipped_too_large: 1,
            skipped_binary: 2,
            errors: 3,
            indexable: 4,
            indexable_bytes: 2048,
        },
        docs_total: 5,
        docs_indexed: 4,
        docs_skipped: 1,
        total_tokens: 9000,
        total_postings: 8000,
        unique_terms: 70,
        segments: 2,
        crawl_time: 5_000,
        build_time: 0,
        open_time: 7_000,
        memory_bytes: 100,
        on_disk_bytes: 1024,
        rss_bytes: Some(4096),
        rss_delta_bytes: Some(-1024),
    };
    assert_eq!(
        stats_text(&s),
        "files seen            1,234\n\
         \x20 skipped             1 too large, 2 binary, 3 errors\n\
         docs indexed          4\n\
         \x20 not indexed         1\n\
         total terms           9,000\n\
         postings              8,000\n\
         unique terms          70  (summed over segments)\n\
         segments              2\n\
         corpus size           2.0 KiB\n\
         index on disk         1.0 KiB  (50.0% of corpus)\n\
         crawl time            5 µs\n\
         open time             7 µs\n\
         reader heap           100 B  (accounted; segment data is mapped)\n\
         process RSS           4.0 KiB  (-1.0 KiB during crawl + build + open)\n"
    );
    let mut out = String::new();
    push_line(&mut out, "a ", "b");
    assert_eq!(out, "a b\n");
    assert!(stats_text(&IndexStats::default()).ends_with("RSS           unavailable\n"));
}

// Benchmarks.

#[test]
fn default_queries_all_parse() {
    for q in default_queries() {
        Query::parse(q).unwrap_or_else(|e| panic!("{q:?}: {}", e.message()));
    }
}

#[test]
fn runs_and_skips_bad_queries() {
    let planned = plan(&["beta", "-only_negation", "\"alpha beta\""]);
    let texts: Vec<&str> = planned.iter().map(|q| q.text.as_str()).collect();
    assert_eq!(texts, vec!["beta", "\"alpha beta\""]); // the bad one is skipped
    assert_eq!(planned[0].query, Query::parse("beta").unwrap());
    assert_eq!(plan(&default_queries()).len(), default_queries().len());
    assert_eq!((runs(3), runs(0)), (3, 1));
}

#[test]
fn timings_are_of_the_samples() {
    let t = timing("q", 3, &[5, 1, 9, 2]);
    assert_eq!((t.mean, t.min, t.p50, t.max), (4, 1, 5, 9));
    assert_eq!((t.query.as_str(), t.matches, t.iterations), ("q", 3, 4));
    let t = timing("", 0, &[7]);
    assert_eq!((t.mean, t.min, t.p50, t.max), (7, 7, 7, 7));
}

#[test]
fn bench_reports_have_their_parts() {
    let report = BenchReport {
        index: IndexStats::default(),
        open_cold: 3_000,
        eviction: "none".to_string(),
        open_warm: 1_000,
        queries: vec![QueryTiming {
            query: "\"alpha beta\"".to_string(),
            matches: 1,
            iterations: 3,
            mean: 4_000,
            min: 1_000,
            p50: 5_000_000,
            max: 9_000,
        }],
        rss_before_queries: Some(1024),
        rss_max_during_queries: Some(2048),
    };
    let text = report.text();
    assert!(text.starts_with("== build ==\n"));
    assert!(text.contains("== open ==\ncold (best effort)    3 µs   eviction: none\nwarm                  1 µs\n"));
    assert!(text.contains("== queries (3 timed runs each, after warm-up) ==\n"));
    assert!(text.contains("unique terms"));
    assert!(text.contains("\"alpha beta\""));
    assert!(text.contains(
        "\"alpha beta\"                               1        4 µs     5.00 ms        1 µs        9 µs\n"
    ));
    assert!(text.contains(
        "== memory while querying ==\n\
         RSS after open        1.0 KiB\n\
         RSS max during queries 2.0 KiB  (+1.0 KiB growth)\n\
         index on disk         1 B  → queries touched at most 102400.0% of it\n"
    ));
}

// The crawler.

#[test]
fn binary_sniff() {
    assert!(!looks_binary(b""));
    assert!(!looks_binary(b"plain text\n"));
    assert!(!looks_binary("ünïcödé 日本語".as_bytes()));
    assert!(looks_binary(b"\x00"));
    assert!(looks_binary(b"MZ\x90\x00\x03"));
    assert!(looks_binary(b"text then \x00 nul"));
}

fn crawled(path: &str, size: u64, kind: FileKind) -> CrawledFile {
    CrawledFile { entry: FileEntry { path: path.to_string(), inode: 1, mtime: 2, size }, kind }
}

#[test]
fn crawl_all_reports_binary_and_too_large_with_identity() {
    let cfg = CrawlConfig { max_size: 50, ..CrawlConfig::default() };
    let found: [(&str, Vec<u8>); 3] =
        [("c.big", vec![b'x'; 100]), ("b.bin", vec![0, 1, 2]), ("a.txt", b"hello".to_vec())];
    let all = sort_by_path(
        found
            .iter()
            .map(|(name, bytes)| {
                let size = bytes.len() as u64;
                let prefix = match sniff_len(size, &cfg) {
                    Some(n) => &bytes[..n.min(bytes.len())],
                    None => &bytes[..0],
                };
                crawled(&format!("/r/{name}"), size, kind_of(size, prefix, &cfg))
            })
            .collect(),
    );
    let kinds: Vec<(&str, FileKind)> = all.iter().map(|f| (f.entry.path.as_str(), f.kind)).collect();
    assert_eq!(
        kinds,
        vec![
            ("/r/a.txt", FileKind::Text),
            ("/r/b.bin", FileKind::Binary),
            ("/r/c.big", FileKind::TooLarge),
        ]
    );
    let stats = crawl_stats(&all, 3, 0);
    assert_eq!(stats.indexable, 1);
    assert_eq!(stats.indexable_bytes, 5);
    assert_eq!(stats.skipped_binary, 1);
    assert_eq!(stats.skipped_too_large, 1);
    // Binary/too-large entries still carry a real size, just no content.
    assert!(all[1].entry.size == 3);
    assert!(all[2].entry.size == 100);
    let text = text_files(all);
    assert_eq!(text.len(), 1);
    assert_eq!(text[0].path, "/r/a.txt");
}

#[test]
fn corpus_size_stops_at_the_largest_number() {
    let all = vec![
        crawled("/r/a", u64::MAX - 2, FileKind::Text),
        crawled("/r/b", 7, FileKind::Binary),
        crawled("/r/c", 2, FileKind::Text),
    ];
    assert_eq!(crawl_stats(&all, 3, 0).indexable_bytes, u64::MAX);
    let all = vec![
        crawled("/r/a", u64::MAX - 2, FileKind::Text),
        crawled("/r/c", 3, FileKind::Text),
    ];
    let stats = crawl_stats(&all, 2, 0);
    assert_eq!(stats.indexable_bytes, u64::MAX);
    assert_eq!(stats.indexable, 2);
}

#[test]
fn own_index_directory_is_never_indexed() {
    assert!(!is_visited(".ripindex"));
    assert!(!is_visited(".git"));
    assert!(is_visited("src") && is_visited(".github"));
}

#[test]
fn paths_sort_by_component() {
    let sorted = sort_by_path(vec![
        crawled("/r/a.b", 0, FileKind::Text),
        crawled("/r/a/z", 0, FileKind::Text),
        crawled("/r/a", 0, FileKind::Text),
    ]);
    let paths: Vec<&str> = sorted.iter().map(|f| f.entry.path.as_str()).collect();
    assert_eq!(paths, vec!["/r/a", "/r/a/z", "/r/a.b"]);
}

// Errors.

#[test]
fn error_messages() {
    assert_eq!(Error::Io("gone".into()).message(), "gone");
    assert_eq!(Error::NotADirectory("/x".into()).message(), "/x: not a directory");
    assert_eq!(Error::Query(QueryError::Empty).message(), "empty query");
    assert_eq!(Error::Format(FormatError::BadMagic).message(), "bad magic");
    assert_eq!(Error::Corrupt { path: "/f".into(), reason: "bad".into() }.message(), "/f: bad");
    assert_eq!(
        Error::Incompatible { path: "/f".into(), version: 9 }.message(),
        "/f: format version 9 is newer than this build supports"
    );
    assert!(Error::NoIndex("/r".into()).message().contains("no index"));
    assert!(Error::Locked("/d".into()).message().contains("/d"));
    assert!(Error::Vanished("/f".into()).message().contains("/f"));
}

// Texts, orders and sorting.

#[test]
fn texts_are_taken_apart() {
    assert_eq!(trim(" \t a b \n"), "a b");
    assert_eq!(lines("a\r\nb\n\nc"), vec!["a", "b", "", "c"]);
    assert!(starts_with("abc", "ab") && !starts_with("a", "ab"));
    assert!(ends_with("abc", "bc") && !ends_with("c", "bc"));
    assert_eq!(text_of(&['a', 'b', 'c'], 1, 3), "bc");
    assert_eq!((char_width('a'), char_width('é'), char_width('日'), char_width('👋')), (1, 2, 3, 4));
    let mut s = String::new();
    push_decimal(&mut s, u64::MAX);
    s.push(' ');
    push_hex(&mut s, 0xf00d);
    assert_eq!(s, "18446744073709551615 0000f00d");
}

#[test]
fn bytes_are_ordered_and_sorting_is_stable() {
    assert!(matches!(byte_order(b"a", b"ab"), ByteOrder::Less));
    assert!(matches!(byte_order(b"b", b"ab"), ByteOrder::Greater));
    assert!(matches!(byte_order(b"\xff", b"\xff"), ByteOrder::Equal));
    assert_eq!(common_prefix(b"abcd", b"abxd"), 2);
    let items = [3u64, 1, 3, 2];
    let places = order(&items);
    assert_eq!(places, vec![1, 3, 0, 2]);
    assert_eq!(arrange(vec!["c", "a", "d", "b"], &places), vec!["a", "b", "c", "d"]);
}
