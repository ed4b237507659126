//! Queries: parsing, evaluation over an index, and ranking.

use std::collections::BTreeMap;

use ripindex::crawler::FileEntry;
use ripindex::error::QueryError;
use ripindex::index::builder::{hash_bytes, index_document, Content};
use ripindex::index::memory::TermMap;
use ripindex::index::{
    BuildConfig, DocId, DocMeta, DocStatus, DocTable, IndexReader, IndexStats, MemIndex,
    MemTermStore,
};
use ripindex::query::exec::{evaluate, phrase_matches};
use ripindex::query::hits::{difference, intersect, union, Hit, Score};
use ripindex::query::parser::{lex, parse, parse_toks, Node, Tok};
use ripindex::query::{rank, Query, RankKey};
use ripindex::store::commit::{delete_docs, Commit};
use ripindex::store::flush::build_segments;
use ripindex::store::protocol::{Action, CommitRun};
use ripindex::store::reader::{read_manifest, Index, OpenOptions, SegmentFiles};
use ripindex::store::segment::FileBytes;
use ripindex::store::update::build_commit;
use ripindex::store::{del_name, doc_name, idx_name, overlay_name, MANIFEST};

// Parsing.

fn t(s: &str) -> Node {
    Node::Term(s.into())
}
fn ph(words: &[&str]) -> Node {
    Node::Phrase(words.iter().map(|w| w.to_string()).collect())
}
fn and(must: Vec<Node>, must_not: Vec<Node>) -> Node {
    Node::And { must, must_not }
}

#[test]
fn single_term_is_lowercased() {
    assert_eq!(parse("foo").unwrap(), t("foo"));
    assert_eq!(parse("  Foo  ").unwrap(), t("foo"));
    assert_eq!(parse("Café").unwrap(), t("café"));
}

#[test]
fn white_space_parts_words_and_nothing_else_does() {
    for c in '\u{0}'..=char::MAX {
        let white = matches!(
            c as u32,
            0x9..=0xd | 0x20 | 0x85 | 0xa0 | 0x1680 | 0x2000..=0x200a | 0x2028 | 0x2029 | 0x202f
                | 0x205f | 0x3000
        );
        if c != '(' && c != ')' && c != '"' {
            let words = lex(&format!("a{c}b")).unwrap().len();
            assert_eq!(words, if white { 2 } else { 1 }, "{:x}", c as u32);
        }
    }
}

#[test]
fn adjacency_and_explicit_and_are_the_same() {
    let expected = and(vec![t("foo"), t("bar")], vec![]);
    assert_eq!(parse("foo bar").unwrap(), expected);
    assert_eq!(parse("foo AND bar").unwrap(), expected);
    assert_eq!(parse("foo AND bar baz").unwrap(), and(vec![t("foo"), t("bar"), t("baz")], vec![]));
}

#[test]
fn lowercase_keywords_are_terms() {
    assert_eq!(parse("foo and bar").unwrap(), and(vec![t("foo"), t("and"), t("bar")], vec![]));
    assert_eq!(parse("foo or bar").unwrap(), and(vec![t("foo"), t("or"), t("bar")], vec![]));
}

#[test]
fn or_binds_looser_than_and() {
    assert_eq!(parse("foo OR bar").unwrap(), Node::Or(vec![t("foo"), t("bar")]));
    assert_eq!(
        parse("a b OR c d OR e").unwrap(),
        Node::Or(vec![and(vec![t("a"), t("b")], vec![]), and(vec![t("c"), t("d")], vec![]), t("e")])
    );
}

#[test]
fn phrases() {
    assert_eq!(parse("\"hello world\"").unwrap(), ph(&["hello", "world"]));
    assert_eq!(parse("\"Hello, World!\"").unwrap(), ph(&["hello", "world"]));
    assert_eq!(parse("\"hello\"").unwrap(), t("hello"));
    assert_eq!(parse("\"hello world\" foo").unwrap(), and(vec![ph(&["hello", "world"]), t("foo")], vec![]));
    assert_eq!(parse("a\"b c\"d").unwrap(), and(vec![t("a"), ph(&["b", "c"]), t("d")], vec![]));
}

#[test]
fn empty_phrase_is_skipped() {
    assert_eq!(parse("foo \"\" bar").unwrap(), and(vec![t("foo"), t("bar")], vec![]));
    assert_eq!(parse("\"\""), Err(QueryError::Empty));
    assert_eq!(parse("\"...\""), Err(QueryError::Empty));
}

#[test]
fn punctuated_words_become_phrases_of_atoms() {
    assert_eq!(parse("std::fs::read").unwrap(), ph(&["std", "fs", "read"]));
    assert_eq!(parse("foo.bar").unwrap(), ph(&["foo", "bar"]));
    assert_eq!(parse("foo-bar").unwrap(), ph(&["foo", "bar"]));
    assert_eq!(parse("a@b.com").unwrap(), ph(&["a", "b", "com"]));
}

#[test]
fn identifiers_are_single_atoms_on_the_query_side() {
    // Same segmentation as the index side, no part splitting.
    assert_eq!(parse("snake_case").unwrap(), t("snake_case"));
    assert_eq!(parse("parseHttpResponse").unwrap(), t("parsehttpresponse"));
    assert_eq!(parse("__init__").unwrap(), t("__init__"));
    assert_eq!(parse("\"parse http\"").unwrap(), ph(&["parse", "http"]));
}

#[test]
fn parser_negation() {
    assert_eq!(parse("foo -bar").unwrap(), and(vec![t("foo")], vec![t("bar")]));
    assert_eq!(parse("foo -bar -baz").unwrap(), and(vec![t("foo")], vec![t("bar"), t("baz")]));
    assert_eq!(parse("-bar foo").unwrap(), and(vec![t("foo")], vec![t("bar")]));
    assert_eq!(parse("foo -\"a b\"").unwrap(), and(vec![t("foo")], vec![ph(&["a", "b"])]));
    assert_eq!(parse("foo -(a OR b)").unwrap(), and(vec![t("foo")], vec![Node::Or(vec![t("a"), t("b")])]));
    assert_eq!(parse("foo -bar-baz").unwrap(), and(vec![t("foo")], vec![ph(&["bar", "baz"])]));
    assert_eq!(parse("foo AND -bar").unwrap(), and(vec![t("foo")], vec![t("bar")]));
}

#[test]
fn negation_needs_a_positive_clause() {
    assert_eq!(parse("-foo"), Err(QueryError::OnlyNegation));
    assert_eq!(parse("-foo -bar"), Err(QueryError::OnlyNegation));
    assert_eq!(parse("foo OR -bar"), Err(QueryError::OnlyNegation));
    assert_eq!(parse("(-foo) bar"), Err(QueryError::OnlyNegation));
    // ...but a negation inside a group that has its own positive is fine.
    assert_eq!(
        parse("(a -b) OR c").unwrap(),
        Node::Or(vec![and(vec![t("a")], vec![t("b")]), t("c")])
    );
}

#[test]
fn lone_minus_is_noise_and_double_minus_is_an_error() {
    assert_eq!(parse("foo - bar").unwrap(), and(vec![t("foo"), t("bar")], vec![]));
    assert_eq!(parse("foo -").unwrap(), t("foo"));
    assert_eq!(parse("foo --bar"), Err(QueryError::Unexpected { found: "-".into(), at: 5 }));
}

#[test]
fn parentheses() {
    assert_eq!(parse("(foo)").unwrap(), t("foo"));
    assert_eq!(parse("(a OR b) c").unwrap(), and(vec![Node::Or(vec![t("a"), t("b")]), t("c")], vec![]));
    assert_eq!(parse("a (b OR c)").unwrap(), and(vec![t("a"), Node::Or(vec![t("b"), t("c")])], vec![]));
    assert_eq!(parse("a(b)c").unwrap(), and(vec![t("a"), t("b"), t("c")], vec![]));
    assert_eq!(
        parse("((a OR b) AND (c OR d)) OR e").unwrap(),
        Node::Or(vec![
            and(vec![Node::Or(vec![t("a"), t("b")]), Node::Or(vec![t("c"), t("d")])], vec![]),
            t("e"),
        ])
    );
}

#[test]
fn paren_errors() {
    assert_eq!(parse("(foo"), Err(QueryError::UnbalancedParen { at: 0 }));
    assert_eq!(parse("foo)"), Err(QueryError::UnbalancedParen { at: 3 }));
    assert_eq!(parse("(a (b) c"), Err(QueryError::UnbalancedParen { at: 0 }));
    assert_eq!(parse("()"), Err(QueryError::Unexpected { found: ")".into(), at: 1 }));
    assert_eq!(parse("foo ()"), Err(QueryError::Unexpected { found: ")".into(), at: 5 }));
}

#[test]
fn empty_and_punctuation_only() {
    assert_eq!(parse(""), Err(QueryError::Empty));
    assert_eq!(parse("   \t "), Err(QueryError::Empty));
    assert_eq!(parse("!!! ..."), Err(QueryError::Empty));
    assert_eq!(parse("foo !!! bar").unwrap(), and(vec![t("foo"), t("bar")], vec![]));
}

#[test]
fn keyword_position_errors() {
    assert_eq!(parse("AND foo"), Err(QueryError::Unexpected { found: "AND".into(), at: 0 }));
    assert_eq!(parse("foo AND"), Err(QueryError::Unexpected { found: "AND".into(), at: 4 }));
    assert_eq!(parse("foo OR"), Err(QueryError::Unexpected { found: "OR".into(), at: 4 }));
    assert_eq!(parse("OR foo"), Err(QueryError::Unexpected { found: "OR".into(), at: 0 }));
    assert_eq!(parse("foo AND OR bar"), Err(QueryError::Unexpected { found: "AND".into(), at: 4 }));
    assert_eq!(parse("foo OR AND bar"), Err(QueryError::Unexpected { found: "OR".into(), at: 4 }));
    assert_eq!(parse("foo -AND"), Err(QueryError::Unexpected { found: "AND".into(), at: 5 }));
}

#[test]
fn unterminated_phrase() {
    assert_eq!(parse("foo \"bar baz"), Err(QueryError::UnterminatedPhrase { at: 4 }));
}

#[test]
fn offsets_are_bytes_in_the_original_input() {
    // "Café " is 6 bytes; the paren error should point past it.
    assert_eq!(parse("Café )"), Err(QueryError::UnbalancedParen { at: 6 }));
}

#[test]
fn lexing_keeps_byte_offsets() {
    assert_eq!(
        lex("é (a -b)").unwrap(),
        vec![
            (0, Tok::Word("é".to_string())),
            (3, Tok::LParen),
            (4, Tok::Word("a".to_string())),
            (6, Tok::Minus),
            (7, Tok::Word("b".to_string())),
            (8, Tok::RParen),
        ]
    );
    assert_eq!(lex("\"x"), Err(QueryError::UnterminatedPhrase { at: 0 }));
}

#[test]
fn parsing_takes_the_atoms_of_each_token() {
    let toks = vec![(0usize, Tok::Word("A.b".to_string())), (4, Tok::Or), (7, Tok::Word("C".to_string()))];
    let ops = vec![vec!["a".to_string(), "b".to_string()], vec![], vec!["c".to_string()]];
    assert_eq!(parse_toks(&toks, &ops).unwrap(), Node::Or(vec![ph(&["a", "b"]), t("c")]));
}

#[test]
fn query_error_messages() {
    assert_eq!(QueryError::Empty.message(), "empty query");
    assert_eq!(
        QueryError::Unexpected { found: ")".into(), at: 5 }.message(),
        "unexpected \")\" at byte 5"
    );
    assert_eq!(
        QueryError::Unexpected { found: "a\nb".into(), at: 0 }.message(),
        "unexpected \"a\\nb\" at byte 0"
    );
    assert_eq!(
        QueryError::UnterminatedPhrase { at: 4 }.message(),
        "unterminated phrase starting at byte 4"
    );
    assert_eq!(
        QueryError::UnbalancedParen { at: 1 }.message(),
        "unbalanced parenthesis at byte 1"
    );
    assert_eq!(
        QueryError::OnlyNegation.message(),
        "negation needs a positive term to subtract from (e.g. `foo -bar`)"
    );
}

// Evaluation.

const ROOT: &str = "/corpus";

/// A directory in memory.
struct Dir {
    files: BTreeMap<String, Vec<u8>>,
}

impl Dir {
    fn bytes(&self, name: &str) -> FileBytes<'_> {
        match self.files.get(name) {
            Some(b) => FileBytes::Bytes(b),
            None => FileBytes::Missing,
        }
    }

    fn commit(&mut self, commit: Commit) {
        let mut run = CommitRun::new(commit);
        loop {
            match run.action() {
                Action::Put { name, file } => {
                    self.files.insert(name, run.bytes(file).to_vec());
                }
                Action::Rename { from, to } => {
                    let b = self.files.remove(&from).unwrap();
                    self.files.insert(to, b);
                }
                Action::Remove { name } => {
                    self.files.remove(&name);
                }
                Action::Sync { .. } | Action::SyncDir => {}
                Action::Committed => return,
                Action::Failed(why) => panic!("{why}"),
            }
            run.step(None);
        }
    }

    fn open(&self) -> Index<'_> {
        let m = read_manifest(ROOT, self.bytes(MANIFEST)).unwrap().unwrap();
        let parts = m
            .segments
            .iter()
            .map(|e| SegmentFiles {
                idx: self.bytes(&idx_name(e.segment_id)),
                doc: self.bytes(&doc_name(e.segment_id)),
                del: self.bytes(&del_name(e.segment_id, e.del_gen)),
            })
            .collect();
        let overlay = self.bytes(&overlay_name(m.state_gen));
        let len = self.files[MANIFEST].len() as u64;
        Index::open(ROOT, m, len, parts, overlay, &OpenOptions { verify: true }).unwrap()
    }
}

/// Doc `i` is `doc{i:03}.txt` with global id `i`. Two docs per segment so
/// the multi-segment path is always exercised.
fn index_from_texts(texts: &[&str]) -> Dir {
    let files: Vec<FileEntry> = texts
        .iter()
        .enumerate()
        .map(|(i, t)| FileEntry {
            path: format!("{ROOT}/doc{i:03}.txt"),
            inode: 0,
            mtime: 0,
            size: t.len() as u64,
        })
        .collect();
    let contents: Vec<Content> =
        texts.iter().map(|t| Content::Bytes(t.as_bytes().to_vec())).collect();
    // One file per shard so the budget check (per shard) can split tiny corpora.
    let cfg = BuildConfig { docs_per_segment: 2, shard_size: 1, ..BuildConfig::default() };
    let (fs, _) = build_segments(ROOT, &files, &contents, 0, &cfg, 0).unwrap();
    let mut dir = Dir { files: BTreeMap::new() };
    dir.commit(build_commit(None, fs, 0));
    assert_eq!(dir.open().docs().len(), texts.len() as u64);
    dir
}

fn mem_index_from_texts(texts: &[&str]) -> MemIndex {
    let mut docs = DocTable::new();
    let mut terms = TermMap::new();
    for (i, text) in texts.iter().enumerate() {
        let id = i as DocId;
        docs.insert(
            id,
            DocMeta {
                path: format!("doc{i}"),
                inode: 0,
                mtime: 0,
                size: text.len() as u64,
                len: 0,
                status: DocStatus::Skipped,
                content_hash: 0,
            },
        );
        let (len, _) = index_document(id, text, &mut terms);
        docs.mark_indexed(id, len);
        docs.set_hash(id, hash_bytes(text.as_bytes()));
    }
    let mut store = MemTermStore::default();
    store.merge_shard(terms);
    MemIndex::new(docs, store, IndexStats::default())
}

/// A document and its score as a number.
#[derive(Debug, Clone, Copy, PartialEq)]
struct Scored {
    doc: DocId,
    score: f32,
}

/// The weight of a score over an index of `n` documents of mean length `avg`.
fn weigh(s: &Score, n: u32, avg: f32) -> f32 {
    let idf = |df: u32| {
        let n = n as f32;
        let df = (df as f32).min(n);
        (1.0 + (n - df + 0.5) / (df + 0.5)).ln()
    };
    let bm25 = |idf: f32, tf: u32, len: u32| {
        if tf == 0 {
            return 0.0;
        }
        let avg = if avg > 0.0 { avg } else { 1.0 };
        let tf = tf as f32;
        let norm = 1.2 * (1.0 - 0.75 + 0.75 * len as f32 / avg);
        idf * tf * (1.2 + 1.0) / (tf + norm)
    };
    match s {
        Score::Term { df, tf, len } => bm25(idf(*df), *tf, *len),
        Score::Phrase { dfs, tf, len } => bm25(dfs.iter().map(|&df| idf(df)).sum(), *tf, *len),
        Score::Sum(a, b) => weigh(a, n, avg) + weigh(b, n, avg),
    }
}

fn scored<R: IndexReader>(index: &R, node: &Node) -> Vec<Scored> {
    let n = index.indexed_count();
    let (total, count) = index.avg_len();
    let avg = if count == 0 { 0.0 } else { total as f32 / count as f32 };
    evaluate(index, node).iter().map(|h| Scored { doc: h.doc, score: weigh(&h.score, n, avg) }).collect()
}

fn run_on<R: IndexReader>(index: &R, q: &str) -> Vec<Scored> {
    scored(index, &parse(q).unwrap())
}

fn run(dir: &Dir, q: &str) -> Vec<Scored> {
    run_on(&&dir.open(), q)
}

fn corpus() -> Dir {
    index_from_texts(&[
        "the quick brown fox",                        // 0
        "the lazy dog",                               // 1
        "quick quick quick brown",                    // 2
        "fox and dog",                                // 3
        "parse_http_response returns HttpResponse",   // 4
        "",                                           // 5: empty, indexed with len 0
    ])
}

fn ids(hits: &[Scored]) -> Vec<DocId> {
    hits.iter().map(|h| h.doc).collect()
}

fn score_of(hits: &[Scored], doc: DocId) -> f32 {
    hits.iter().find(|h| h.doc == doc).unwrap().score
}

#[test]
fn corpus_spans_several_segments() {
    let idx = corpus();
    let idx = idx.open();
    assert_eq!(idx.stats().segments, 3);
    assert_eq!(idx.docs().id_bound(), 6);
}

#[test]
fn single_term() {
    let idx = corpus();
    assert_eq!(ids(&run(&idx, "the")), vec![0, 1]);
    assert_eq!(ids(&run(&idx, "fox")), vec![0, 3]);
    assert_eq!(ids(&run(&idx, "THE")), vec![0, 1]); // folded
}

#[test]
fn missing_term_is_empty() {
    let idx = corpus();
    assert!(run(&idx, "zebra").is_empty());
    assert!(run(&idx, "zebra fox").is_empty());
    assert!(run(&idx, "\"zebra fox\"").is_empty());
    assert_eq!(ids(&run(&idx, "zebra OR fox")), vec![0, 3]);
}

#[test]
fn exec_empty_index() {
    let idx = index_from_texts(&[]);
    assert!(run(&idx, "anything").is_empty());
    assert!(run(&idx, "a OR b").is_empty());
    assert!(run(&idx, "\"a b\"").is_empty());
}

#[test]
fn higher_tf_scores_higher() {
    let idx = corpus();
    let hits = run(&idx, "quick");
    assert_eq!(ids(&hits), vec![0, 2]);
    assert!(score_of(&hits, 2) > score_of(&hits, 0));
    assert!(hits.iter().all(|h| h.score.is_finite() && h.score > 0.0));
}

#[test]
fn rarer_term_scores_higher() {
    let idx = corpus();
    // "lazy" appears in 1 doc, "the" in 2; both tf=1 in doc 1.
    assert!(score_of(&run(&idx, "lazy"), 1) > score_of(&run(&idx, "the"), 1));
}

#[test]
fn and_intersects_and_sums() {
    let idx = corpus();
    assert_eq!(ids(&run(&idx, "quick brown")), vec![0, 2]);
    assert_eq!(ids(&run(&idx, "quick AND fox")), vec![0]);
    assert!(run(&idx, "quick dog").is_empty());
    assert_eq!(ids(&run(&idx, "the quick brown fox")), vec![0]);

    let both = score_of(&run(&idx, "quick brown"), 0);
    let q = score_of(&run(&idx, "quick"), 0);
    let b = score_of(&run(&idx, "brown"), 0);
    assert!((both - (q + b)).abs() < 1e-5);
}

#[test]
fn or_unions_and_sums() {
    let idx = corpus();
    let hits = run(&idx, "fox OR dog");
    assert_eq!(ids(&hits), vec![0, 1, 3]);
    // Doc 3 has both terms, so it outscores docs with one.
    assert!(score_of(&hits, 3) > score_of(&hits, 0));
    assert!(score_of(&hits, 3) > score_of(&hits, 1));
    assert_eq!(ids(&run(&idx, "lazy OR lazy")), vec![1]); // no duplicates
}

#[test]
fn exec_negation() {
    let idx = corpus();
    assert_eq!(ids(&run(&idx, "quick -fox")), vec![2]);
    assert_eq!(ids(&run(&idx, "the -dog")), vec![0]);
    assert!(run(&idx, "the -dog -fox").is_empty());
    assert_eq!(ids(&run(&idx, "quick -zebra")), vec![0, 2]); // excluding nothing
    assert_eq!(ids(&run(&idx, "(fox OR dog) -the")), vec![3]);
    assert_eq!(ids(&run(&idx, "fox -\"lazy dog\"")), vec![0, 3]);
    // Negation does not change the surviving scores.
    assert_eq!(score_of(&run(&idx, "quick -fox"), 2), score_of(&run(&idx, "quick"), 2));
}

#[test]
fn phrases_use_positions() {
    let idx = corpus();
    assert_eq!(ids(&run(&idx, "\"quick brown\"")), vec![0, 2]);
    assert_eq!(ids(&run(&idx, "\"brown fox\"")), vec![0]);
    assert!(run(&idx, "\"fox quick\"").is_empty()); // wrong order
    assert!(run(&idx, "\"quick fox\"").is_empty()); // not adjacent
    assert_eq!(ids(&run(&idx, "\"the quick brown fox\"")), vec![0]);
    assert_eq!(ids(&run(&idx, "\"quick quick\"")), vec![2]);
}

#[test]
fn phrase_tf_counts_occurrences() {
    // "quick quick quick": "quick quick" occurs at positions 0 and 1.
    assert_eq!(phrase_matches(&[vec![0, 1, 2], vec![0, 1, 2]]), 2);
    assert_eq!(phrase_matches(&[vec![0, 5], vec![1, 6], vec![2, 7]]), 2);
    assert_eq!(phrase_matches(&[vec![0, 5], vec![1, 6], vec![2, 8]]), 1);
    assert_eq!(phrase_matches(&[vec![3], vec![1]]), 0);
    assert_eq!(phrase_matches(&[vec![u32::MAX], vec![0]]), 0); // no overflow wraparound
    assert_eq!(phrase_matches(&[]), 0);
}

#[test]
fn identifier_parts_match_terms_but_not_phrases() {
    let idx = corpus();
    assert_eq!(ids(&run(&idx, "http")), vec![4]);
    assert_eq!(ids(&run(&idx, "response")), vec![4]);
    assert_eq!(ids(&run(&idx, "parse_http_response")), vec![4]);
    assert_eq!(ids(&run(&idx, "HttpResponse")), vec![4]);
    assert_eq!(ids(&run(&idx, "parse http response")), vec![4]); // AND of parts
    // Documented asymmetry: parts share one position, so no phrase across them...
    assert!(run(&idx, "\"parse http\"").is_empty());
    // ...but a part does stand in for its atom in a phrase with a neighbour.
    assert_eq!(ids(&run(&idx, "\"response returns\"")), vec![4]);
    assert_eq!(ids(&run(&idx, "\"returns httpresponse\"")), vec![4]);
    assert_eq!(ids(&run(&idx, "\"returns response\"")), vec![4]);
}

#[test]
fn removed_docs_are_skipped_even_with_stale_postings() {
    let mut idx = corpus();
    let commit = delete_docs(&idx.open(), &[0], 1).unwrap();
    idx.commit(commit);
    assert_eq!(ids(&run(&idx, "the")), vec![1]);
    assert_eq!(ids(&run(&idx, "\"quick brown\"")), vec![2]);
    assert_eq!(ids(&run(&idx, "fox OR dog")), vec![1, 3]);
    assert_eq!(ids(&run(&idx, "quick -fox")), vec![2]);
    let open = idx.open();
    assert!((&open).doc(0).is_none());
    assert_eq!((&open).indexed_count(), 5);
}

#[test]
fn in_memory_and_persistent_agree() {
    let texts = ["alpha beta gamma", "beta beta", "gamma alpha alpha", "delta", "alpha_beta gammaDelta"];
    let mem = mem_index_from_texts(&texts);
    let disk = index_from_texts(&texts);
    for q in ["alpha", "beta OR gamma", "alpha -gamma", "\"alpha beta\"", "\"gamma alpha alpha\"", "delta", "alpha_beta", "gamma AND delta"] {
        let a = run_on(&&mem, q);
        let b = run(&disk, q);
        assert_eq!(ids(&a), ids(&b), "{q}");
        for (x, y) in a.iter().zip(&b) {
            assert!((x.score - y.score).abs() < 1e-5, "{q}: {} vs {}", x.score, y.score);
        }
    }
}

#[test]
fn set_ops_directly() {
    // Each score is the same leaf, so that a sum counts its leaves.
    let h = |docs: &[DocId]| -> Vec<Hit> {
        docs.iter().map(|&d| Hit { doc: d, score: Score::Term { df: 1, tf: 1, len: 1 } }).collect()
    };
    fn leaves(s: &Score) -> f32 {
        match s {
            Score::Sum(a, b) => leaves(a) + leaves(b),
            _ => 1.0,
        }
    }
    let score_of = |hits: &[Hit], doc: DocId| leaves(&hits.iter().find(|h| h.doc == doc).unwrap().score);
    let ids = |hits: &[Hit]| -> Vec<DocId> { hits.iter().map(|h| h.doc).collect() };
    assert_eq!(ids(&intersect(vec![h(&[1, 2, 3, 5, 8]), h(&[2, 3, 4, 8]), h(&[0, 3, 8, 9])])), vec![3, 8]);
    assert!(intersect(vec![h(&[1, 2]), h(&[])]).is_empty());
    assert!(intersect(vec![]).is_empty());
    assert_eq!(ids(&union(vec![h(&[1, 3]), h(&[2, 3]), h(&[]), h(&[0])])), vec![0, 1, 2, 3]);
    assert_eq!(score_of(&union(vec![h(&[1, 3]), h(&[2, 3])]), 3), 2.0);
    assert_eq!(ids(&difference(h(&[1, 2, 3, 4]), &h(&[2, 4, 6]))), vec![1, 3]);
    assert_eq!(ids(&difference(h(&[1, 2]), &h(&[]))), vec![1, 2]);
    assert!(difference(h(&[1, 2]), &h(&[0, 1, 2, 3])).is_empty());
}

#[test]
fn scores_keep_their_numbers() {
    let idx = corpus();
    let open = idx.open();
    let hits = evaluate(&&open, &parse("\"quick quick\"").unwrap());
    assert_eq!(
        hits,
        vec![Hit { doc: 2, score: Score::Phrase { dfs: vec![2, 2], tf: 2, len: 4 } }]
    );
    let hits = evaluate(&&open, &parse("lazy OR dog").unwrap());
    assert_eq!(hits[0].doc, 1);
    assert_eq!(
        hits[1],
        Hit { doc: 3, score: Score::Term { df: 2, tf: 1, len: 3 } }
    );
}

// Ranking.

/// The best `limit` of the hits, and how many there were.
fn search(dir: &Dir, query: &Query, limit: usize) -> (Vec<Scored>, usize) {
    let hits = scored(&&dir.open(), query.root());
    // Non-negative floats are ordered as their bits are.
    let keys: Vec<RankKey> =
        hits.iter().map(|h| RankKey { key: h.score.to_bits(), doc: h.doc }).collect();
    (rank(&keys, limit).into_iter().map(|i| hits[i]).collect(), hits.len())
}

#[test]
fn highlight_terms_skips_negations_and_dedups() {
    let q = Query::parse("foo \"bar baz\" -nope (foo OR qux) -\"no way\"").unwrap();
    assert_eq!(q.highlight_terms(), vec!["foo", "bar", "baz", "qux"]);
}

#[test]
fn search_ranks_and_limits() {
    let idx = index_from_texts(&["a", "a a", "a a a", "a a a a", "b"]);
    let q = Query::parse("a").unwrap();

    let (all, total) = search(&idx, &q, 100);
    assert_eq!(total, 4);
    assert_eq!(all.iter().map(|h| h.doc).collect::<Vec<_>>(), vec![3, 2, 1, 0]);
    assert!(all.windows(2).all(|w| w[0].score >= w[1].score));

    let (top2, total) = search(&idx, &q, 2);
    assert_eq!(total, 4);
    assert_eq!(top2, all[..2].to_vec());

    let (none, total) = search(&idx, &q, 0);
    assert_eq!(total, 4);
    assert!(none.is_empty());
}

#[test]
fn ties_break_by_doc_id() {
    let idx = index_from_texts(&["x y", "x z", "x w"]);
    let (hits, _) = search(&idx, &Query::parse("x").unwrap(), 20);
    assert_eq!(hits.iter().map(|h| h.doc).collect::<Vec<_>>(), vec![0, 1, 2]);
}
