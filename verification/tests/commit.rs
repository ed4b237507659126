//! Builds, updates, merges and deletions over a directory in memory: what is
//! committed, what a fault leaves behind, and what is read back.

use std::collections::{BTreeMap, BTreeSet};

use ripindex::crawler::{
    crawl_stats, kind_of, sniff_len, sort_by_path, CrawlConfig, CrawledFile, FileEntry, FileKind,
};
use ripindex::error::Error;
use ripindex::fs::{FaultFs, FaultPlan};
use ripindex::harness::{corpus as state_corpus, first_wrong, matching, Tally, XorShift};
use ripindex::index::builder::Content;
use ripindex::index::{BuildConfig, DocId, DocMeta, DocStatus, IndexReader};
use ripindex::query::exec::evaluate;
use ripindex::query::Query;
use ripindex::report::stats_text;
use ripindex::store::commit::{delete_docs, Commit};
use ripindex::store::flush::build_segments;
use ripindex::store::live::refresh;
use ripindex::store::merge::{prepare_merge, PreparedMerge};
use ripindex::store::merge_commit::commit_merges;
use ripindex::store::merge_plan::{plan_merges, MergePolicy};
use ripindex::store::protocol::{Action, CommitRun};
use ripindex::store::reader::{
    after_vanished, orphans, read_manifest, swept, Index, OpenOptions, SegmentFiles, MAX_ATTEMPTS,
};
use ripindex::store::segment::FileBytes;
use ripindex::store::state::{reconcile, wants_read, Plan, StateIndex};
use ripindex::store::update::{build_commit, split, update_index};
use ripindex::store::writer::{lock_refused, relative_path, LOCK_WAIT_MS};
use ripindex::store::{
    del_name, doc_name, idx_name, index_dir, overlay_name, referenced_files, LOCK, MANIFEST,
};

const ROOT: &str = "/corpus";

/// A directory in memory.
#[derive(Clone, Default)]
struct Dir {
    files: BTreeMap<String, Vec<u8>>,
}

impl Dir {
    fn bytes(&self, name: &str) -> FileBytes<'_> {
        match self.files.get(name) {
            Some(b) => FileBytes::Bytes(b),
            None => FileBytes::Missing,
        }
    }

    fn try_open(&self, verify: bool) -> Result<Option<Index<'_>>, Error> {
        let m = match read_manifest(&index_dir(ROOT), self.bytes(MANIFEST))? {
            Some(m) => m,
            None => return Ok(None),
        };
        let parts = m
            .segments
            .iter()
            .map(|e| SegmentFiles {
                idx: self.bytes(&idx_name(e.segment_id)),
                doc: self.bytes(&doc_name(e.segment_id)),
                del: self.bytes(&del_name(e.segment_id, e.del_gen)),
            })
            .collect();
        let overlay = self.bytes(&overlay_name(m.state_gen));
        let len = self.files[MANIFEST].len() as u64;
        Index::open(ROOT, m, len, parts, overlay, &OpenOptions { verify }).map(Some)
    }

    fn open(&self) -> Index<'_> {
        self.try_open(true).expect("open must not error").expect("index must not vanish")
    }

    /// Removes what the manifest does not refer to, as opening does.
    fn sweep(&mut self) {
        let m = read_manifest(ROOT, self.bytes(MANIFEST)).unwrap();
        let names: Vec<String> = self.files.keys().cloned().collect();
        for name in swept(m.as_ref(), true, &names) {
            self.files.remove(&name);
        }
    }

    /// Commits with a plan of faults; tells whether it was committed.
    fn commit_under(&mut self, commit: Commit, faults: &mut FaultFs) -> Result<(), String> {
        let mut run = CommitRun::new(commit);
        loop {
            let failed = match run.action() {
                Action::Put { name, file } => {
                    let mut fault = faults.op(&format!("create {name}"));
                    if fault.is_none() {
                        self.files.insert(name.clone(), vec![]);
                        fault = match faults.write(&name, &name) {
                            Ok(kept) => {
                                if kept {
                                    self.files.insert(name.clone(), run.bytes(file).to_vec());
                                }
                                None
                            }
                            Err(f) => Some(f),
                        };
                    }
                    fault
                }
                Action::Sync { name } => match faults.sync(&name, &name) {
                    None => faults.op(&format!("close {name}")),
                    f => f,
                },
                Action::Rename { from, to } => {
                    let fault = faults.op(&format!("rename {from} -> {to}"));
                    if fault.is_none() {
                        let b = self.files.remove(&from).unwrap();
                        self.files.insert(to, b);
                    }
                    fault
                }
                Action::SyncDir => faults.sync_dir("."),
                Action::Remove { name } => {
                    let fault = faults.op(&format!("remove {name}"));
                    if fault.is_none() {
                        self.files.remove(&name);
                    }
                    fault
                }
                Action::Committed => {
                    return if faults.crashed { Err("crashed".to_string()) } else { Ok(()) };
                }
                Action::Failed(why) => return Err(why),
            };
            run.step(failed.map(|f| f.message().to_string()));
        }
    }

    fn commit(&mut self, commit: Commit) {
        let mut none = FaultFs::new(FaultPlan::default());
        self.commit_under(commit, &mut none).unwrap();
    }
}

/// A file of the corpus: its bytes, its identity and its time.
#[derive(Clone)]
struct Doc {
    bytes: Vec<u8>,
    inode: u64,
    mtime: i64,
}

/// A corpus and its index.
#[derive(Clone, Default)]
struct World {
    docs: BTreeMap<String, Doc>,
    inodes: u64,
    clock: i64,
    dir: Dir,
}

impl World {
    fn write(&mut self, name: &str, text: impl AsRef<[u8]>) {
        self.clock += 1;
        let inode = match self.docs.get(name) {
            Some(d) => d.inode,
            None => {
                self.inodes += 1;
                self.inodes
            }
        };
        let doc = Doc { bytes: text.as_ref().to_vec(), inode, mtime: self.clock };
        self.docs.insert(name.to_string(), doc);
    }

    fn rename(&mut self, from: &str, to: &str) {
        let d = self.docs.remove(from).unwrap();
        self.docs.insert(to.to_string(), d);
    }

    fn crawl(&self) -> Vec<CrawledFile> {
        let cfg = CrawlConfig::default();
        let files = self
            .docs
            .iter()
            .rev()
            .map(|(name, d)| {
                let size = d.bytes.len() as u64;
                let prefix = match sniff_len(size, &cfg) {
                    Some(n) => &d.bytes[..n.min(d.bytes.len())],
                    None => &[],
                };
                CrawledFile {
                    entry: FileEntry {
                        path: format!("{ROOT}/{name}"),
                        inode: d.inode,
                        mtime: d.mtime,
                        size,
                    },
                    kind: kind_of(size, prefix, &cfg),
                }
            })
            .collect();
        sort_by_path(files)
    }

    fn content(&self, f: &CrawledFile) -> Content {
        match f.kind {
            FileKind::Binary => Content::Binary,
            FileKind::TooLarge => Content::TooLarge,
            FileKind::Text => {
                Content::Bytes(self.docs[&relative_path(ROOT, &f.entry.path)].bytes.clone())
            }
        }
    }

    /// What a full build commits.
    fn build_commit(&self, cfg: &BuildConfig) -> Commit {
        let crawled = self.crawl();
        let contents: Vec<Content> = crawled.iter().map(|f| self.content(f)).collect();
        let entries: Vec<FileEntry> = crawled.into_iter().map(|f| f.entry).collect();
        let prev = read_manifest(ROOT, self.dir.bytes(MANIFEST)).unwrap();
        let next = prev.as_ref().map_or(0, |m| m.next_segment_id);
        let (fs, _) = build_segments(ROOT, &entries, &contents, 0, cfg, next).unwrap();
        build_commit(prev.as_ref(), fs, self.clock)
    }

    fn build(&mut self, cfg: &BuildConfig) {
        let c = self.build_commit(cfg);
        self.dir.commit(c);
    }

    fn plan(&self) -> Plan {
        let index = self.dir.open();
        let state = StateIndex::from_docs(ROOT, &index.docs().iter());
        let crawled = self.crawl();
        let wanted = wants_read(&state, ROOT, &crawled);
        let reads = crawled
            .iter()
            .zip(wanted)
            .map(|(f, w)| {
                if w {
                    Some(self.docs[&relative_path(ROOT, &f.entry.path)].bytes.clone())
                } else {
                    None
                }
            })
            .collect();
        reconcile(&state, ROOT, &crawled, reads)
    }

    /// Brings the index up to date with the corpus.
    fn update(&mut self) {
        if self.dir.try_open(true).unwrap().is_none() {
            return self.build(&small_build());
        }
        let plan = self.plan();
        let contents: Vec<Content> =
            split(&plan, ROOT).files.iter().map(|f| self.content(f)).collect();
        let commit =
            update_index(&self.dir.open(), &plan, &contents, &small_build(), self.clock).unwrap();
        if let Some(c) = commit {
            self.dir.commit(c);
        }
    }

    fn delete(&mut self, ids: &[DocId]) {
        let commit = delete_docs(&self.dir.open(), ids, self.clock);
        if let Some(c) = commit {
            self.dir.commit(c);
        }
    }

    fn merge(&mut self, policy: &MergePolicy) {
        let commit = {
            let index = self.dir.open();
            let prepared = plan_merges(&index.manifest().segments, policy)
                .iter()
                .map(|g| prepare_merge(&index, g).unwrap())
                .collect();
            commit_merges(&index, prepared, self.clock).unwrap()
        };
        if let Some(c) = commit {
            self.dir.commit(c);
        }
    }
}

fn small_build() -> BuildConfig {
    BuildConfig { shard_size: 1, docs_per_segment: 3, ..BuildConfig::default() }
}

fn per_segment(docs_per_segment: usize) -> BuildConfig {
    BuildConfig { shard_size: 1, docs_per_segment, ..BuildConfig::default() }
}

fn name_of(m: &DocMeta) -> String {
    relative_path(ROOT, &m.path)
}

fn names(index: &Index<'_>) -> Vec<String> {
    let mut v: Vec<String> = index.docs().iter().iter().map(|(_, m)| name_of(m)).collect();
    v.sort();
    v
}

fn hits(index: &Index<'_>, q: &str) -> Vec<String> {
    let found = evaluate(&index, Query::parse(q).unwrap().root());
    let mut v: Vec<String> =
        found.iter().map(|h| name_of(&(&index).doc(h.doc).unwrap())).collect();
    v.sort();
    v
}

/// The same corpus: paths and answers. Ids need not match, since a rebuild
/// gives out new ones.
fn assert_converged(w: &World) {
    let mut fresh = World { dir: Dir::default(), ..w.clone() };
    fresh.build(&BuildConfig::default());
    let (a, b) = (w.dir.open(), fresh.dir.open());
    assert_eq!(names(&a), names(&b));
    for q in ["alpha", "beta", "\"alpha beta\"", "gamma OR delta", "alpha -beta"] {
        assert_eq!(hits(&a, q), hits(&b, q), "query {q:?} diverged");
    }
}

// Segments.

#[test]
fn a_segment_ends_where_its_memory_is_used_up() {
    let entries: Vec<FileEntry> = (0..4)
        .map(|i| FileEntry { path: format!("{ROOT}/{i}"), inode: 0, mtime: 0, size: 5 })
        .collect();
    let contents: Vec<Content> =
        (0..4).map(|_| Content::Bytes(b"alpha beta gamma".to_vec())).collect();
    let cuts = |segment_bytes: usize| -> Vec<u32> {
        let cfg = BuildConfig { shard_size: 1, segment_bytes, ..BuildConfig::default() };
        let (fs, _) = build_segments(ROOT, &entries, &contents, 0, &cfg, 0).unwrap();
        fs.iter().map(|f| f.entry.num_docs).collect()
    };
    // Three terms of 14 bytes and a posting of each: one document is too much.
    assert_eq!(cuts(14), vec![1, 1, 1, 1]);
    assert_eq!(cuts(1 << 30), vec![4]);
}

// Updates.

#[test]
fn update_with_no_previous_index_is_a_full_build() {
    let mut w = World::default();
    w.write("a.txt", "alpha beta");
    w.update();
    let index = w.dir.open();
    assert_eq!(index.manifest().generation, 1);
    assert_eq!(names(&index), vec!["a.txt"]);
}

#[test]
fn no_change_does_not_commit() {
    let mut w = World::default();
    w.write("a.txt", "alpha");
    w.update();
    let gen = w.dir.open().manifest().generation;
    w.update();
    assert_eq!(w.dir.open().manifest().generation, gen);
}

#[test]
fn added_and_deleted_files_converge_with_a_rebuild() {
    let mut w = World::default();
    w.write("a.txt", "alpha beta");
    w.write("b.txt", "beta gamma");
    w.update();
    assert_eq!(names(&w.dir.open()), vec!["a.txt", "b.txt"]);

    w.docs.remove("a.txt");
    w.write("c.txt", "gamma delta");
    w.update();
    assert_eq!(names(&w.dir.open()), vec!["b.txt", "c.txt"]);
    assert_eq!(w.dir.open().manifest().generation, 2);
    assert_converged(&w);
}

#[test]
fn content_change_tombstones_the_old_doc_and_appends_a_new_one() {
    let mut w = World::default();
    w.write("a.txt", "alpha beta");
    w.update();
    let old_id = w.dir.open().docs().iter()[0].0;

    w.write("a.txt", "gamma delta");
    w.update();
    let second = w.dir.open();
    assert!((&second).doc(old_id).is_none(), "old id must be tombstoned");
    assert_eq!(names(&second), vec!["a.txt"]);
    assert_eq!(hits(&second, "gamma"), vec!["a.txt"]);
    assert!(hits(&second, "alpha").is_empty());
    assert_converged(&w);
}

#[test]
fn metadata_only_touch_does_not_reindex() {
    let mut w = World::default();
    w.write("a.txt", "alpha beta gamma");
    w.update();
    let (old_id, old_len) = {
        let first = w.dir.open();
        let (id, meta) = &first.docs().iter()[0];
        (*id, meta.len)
    };

    // The same bytes again: the time changes, the content does not.
    w.write("a.txt", "alpha beta gamma");
    w.update();
    let second = w.dir.open();
    assert_eq!(second.manifest().generation, 2);
    // Same doc id survives — it was patched, not tombstoned and appended.
    let meta = (&second).doc(old_id).expect("id must survive a metadata-only touch");
    assert_eq!(meta.len, old_len);
    assert_eq!(meta.mtime, w.docs["a.txt"].mtime);
    assert_eq!(hits(&second, "alpha"), vec!["a.txt"]);
}

#[test]
fn rename_does_not_reindex_content() {
    let mut w = World::default();
    w.write("old/doc.txt", "alpha beta gamma delta");
    w.update();
    let old_id = w.dir.open().docs().iter()[0].0;

    w.rename("old/doc.txt", "new/doc.txt");
    w.update();
    let second = w.dir.open();
    assert_eq!(names(&second), vec!["new/doc.txt"]);
    assert_eq!(
        (&second).doc(old_id).unwrap().len,
        "alpha beta gamma delta".split(' ').count() as u32
    );
    assert_eq!(hits(&second, "gamma"), vec!["new/doc.txt"]);
    assert_converged(&w);
}

#[test]
fn renaming_a_directory_reindexes_nothing() {
    let mut w = World::default();
    for i in 0..20 {
        w.write(&format!("src/f{i}.txt"), format!("word{i} common text body number {i}"));
    }
    w.update();

    for i in 0..20 {
        w.rename(&format!("src/f{i}.txt"), &format!("lib/f{i}.txt"));
    }
    let plan = w.plan();
    assert_eq!(plan.reindexes(), 0, "a directory rename must cost zero reindexed bytes");
    assert_eq!(plan.patches(), 20);
    assert_eq!(plan.bytes_read, 0);

    w.update();
    let updated = w.dir.open();
    assert_eq!(names(&updated).len(), 20);
    assert!(names(&updated).iter().all(|n| n.starts_with("lib/")));
}

#[test]
fn binary_file_becoming_text_is_reindexed() {
    let mut w = World::default();
    w.write("a.dat", b"\x00binary");
    w.update();
    assert_eq!(w.dir.open().docs().indexed_count(), 0);

    w.write("a.dat", b"now alpha text");
    w.update();
    assert_eq!(hits(&w.dir.open(), "alpha"), vec!["a.dat"]);
    assert_converged(&w);
}

struct Rng(u64);

impl Rng {
    fn next(&mut self) -> u64 {
        self.0 ^= self.0 << 13;
        self.0 ^= self.0 >> 7;
        self.0 ^= self.0 << 17;
        self.0
    }

    fn below(&mut self, n: usize) -> usize {
        (self.next() % n.max(1) as u64) as usize
    }
}

/// Sequences of creations, changes, deletions and renames converge to a fresh
/// rebuild after every step.
fn run_random_scenario(seed: u64, steps: usize) {
    let mut w = World::default();
    let mut rng = Rng(seed.wrapping_mul(0x9E3779B97F4A7C15) | 1);
    let mut live: Vec<String> = Vec::new();
    let words = ["alpha", "beta", "gamma", "delta", "epsilon", "zeta"];
    let mut next_file = 0u32;

    for _ in 0..steps {
        match rng.below(4) {
            0 => {
                // create
                let name = format!("f{next_file}.txt");
                next_file += 1;
                let n = 1 + rng.below(6);
                let body: Vec<&str> = (0..n).map(|_| words[rng.below(words.len())]).collect();
                w.write(&name, body.join(" "));
                live.push(name);
            }
            1 if !live.is_empty() => {
                // modify
                let i = rng.below(live.len());
                let n = 1 + rng.below(6);
                let body: Vec<&str> = (0..n).map(|_| words[rng.below(words.len())]).collect();
                w.write(&live[i], body.join(" "));
            }
            2 if !live.is_empty() => {
                // delete
                let i = rng.below(live.len());
                let name = live.remove(i);
                w.docs.remove(&name);
            }
            3 if !live.is_empty() => {
                // rename
                let i = rng.below(live.len());
                let new_name = format!("r{next_file}.txt");
                next_file += 1;
                w.rename(&live[i], &new_name);
                live[i] = new_name;
            }
            _ => {}
        }
        w.update();
        assert_converged(&w);
    }
}

#[test]
fn random_scenarios_converge() {
    for seed in 1..=8 {
        run_random_scenario(seed, 15);
    }
}

#[test]
fn random_scenarios_converge_with_merges() {
    let policy = MergePolicy { tier_size: 2, max_merge: 4, ..MergePolicy::default() };
    let mut w = World::default();
    for i in 0..12u32 {
        w.write(&format!("f{i}.txt"), format!("alpha beta{i} gamma"));
        w.update();
        if i % 3 == 2 {
            w.docs.remove(&format!("f{}.txt", i - 1));
            w.update();
            w.merge(&policy);
        }
        assert_converged(&w);
    }
}

// Many segments.

/// 25 files, five words each drawn from a small vocabulary.
fn corpus() -> World {
    let vocab = [
        "alpha",
        "beta",
        "gamma",
        "delta",
        "parse_http_response",
        "HttpResponse",
        "x_x",
        "café",
    ];
    let mut w = World::default();
    for i in 0..25u32 {
        let words: Vec<&str> =
            (0..5).map(|k| vocab[((i * 7 + k * 3) % vocab.len() as u32) as usize]).collect();
        w.write(&format!("f{i:02}.txt"), words.join(" "));
    }
    w
}

const ANSWERS: [&str; 8] = [
    "alpha",
    "beta gamma",
    "\"alpha beta\"",
    "http",
    "x_x",
    "café",
    "alpha -beta",
    "gamma OR delta",
];

#[test]
fn many_segments_reopen_and_agree_with_single_segment() {
    let mut w = corpus();
    w.build(&per_segment(3));
    let multi = w.dir.open();
    assert_eq!(multi.stats().segments, 9); // ceil(25 / 3)
    assert_eq!(multi.docs().len(), 25);
    assert_eq!(multi.docs().id_bound(), 25);
    assert_eq!(multi.manifest().generation, 1);
    let multi_answers: Vec<_> = ANSWERS.iter().map(|q| hits(&multi, q)).collect();
    assert!(multi_answers[0].len() > 5);
    drop(multi);

    // Rebuild as one segment: same answers, old segments gone, generation bumped.
    w.build(&BuildConfig::default());
    let single = w.dir.open();
    assert_eq!(single.stats().segments, 1);
    assert_eq!(single.manifest().generation, 2);
    assert_eq!(single.manifest().segments[0].segment_id, 9, "segment ids are never reused");
    for (i, q) in ANSWERS.iter().enumerate() {
        assert_eq!(hits(&single, q), multi_answers[i], "{q}");
    }
    let on_disk: Vec<&String> = w.dir.files.keys().collect();
    assert!(
        !on_disk.iter().any(|n| n.starts_with("seg-0000") && !n.starts_with("seg-00009")),
        "{on_disk:?}"
    );
}

#[test]
fn byte_budget_splits_segments() {
    let mut w = corpus();
    // A tiny byte budget: every shard overflows it, so one segment per shard.
    w.build(&BuildConfig { shard_size: 5, docs_per_segment: 1_000_000, segment_bytes: 1 });
    let index = w.dir.open();
    assert_eq!(index.stats().segments, 5);
    assert_eq!(hits(&index, "alpha").len(), hits(&index, "alpha").len());
}

#[test]
fn deletions_persist_and_generations_advance() {
    let mut w = corpus();
    w.build(&per_segment(4));
    let (all_alpha, n_before, alpha_ids) = {
        let index = w.dir.open();
        let all = hits(&index, "alpha");
        let ids: Vec<(u32, String)> = index
            .docs()
            .iter()
            .iter()
            .filter(|(_, m)| all.contains(&name_of(m)))
            .map(|(id, m)| (*id, name_of(m)))
            .collect();
        (all, index.docs().indexed_count(), ids)
    };

    // One alpha doc from segment 0 (ids 0..4) and one from segment 1 (ids 4..8),
    // plus an id that does not exist.
    let v0 = alpha_ids.iter().find(|(id, _)| *id / 4 == 0).unwrap().clone();
    let v1 = alpha_ids.iter().find(|(id, _)| *id / 4 == 1).unwrap().clone();
    w.delete(&[v0.0, v1.0, 9_999]);
    let third = {
        let deleted = w.dir.open();
        assert_eq!(deleted.manifest().generation, 2);
        assert_eq!(deleted.docs().len(), 23);
        assert_eq!(deleted.docs().indexed_count(), n_before - 2);
        assert!((&deleted).doc(v0.0).is_none() && (&deleted).doc(v1.0).is_none());
        let after: Vec<String> =
            all_alpha.iter().filter(|n| **n != v0.1 && **n != v1.1).cloned().collect();
        assert_eq!(hits(&deleted, "alpha"), after);
        let dels: Vec<&_> =
            deleted.manifest().segments.iter().filter(|s| s.del_gen == 1).collect();
        assert_eq!(dels.len(), 2, "one .del generation per affected segment");
        let docs = deleted.docs().iter();
        docs.iter().find(|(id, _)| *id != v0.0 && *id / 4 == 0).map(|(id, _)| *id).unwrap()
    };

    // Deleting an already-deleted doc changes nothing and commits nothing.
    w.delete(&[v0.0]);
    assert_eq!(w.dir.open().manifest().generation, 2, "no change, no commit");

    // Second round on segment 0 → its generation 2; generation-1 file retired.
    w.delete(&[third]);
    let round2 = w.dir.open();
    assert_eq!(round2.manifest().generation, 3);
    let seg = round2.manifest().segments.iter().find(|s| s.base_doc == 0).unwrap();
    assert_eq!(seg.del_gen, 2);
    assert_eq!(seg.num_deleted, 2);
    assert!(w.dir.files.contains_key(&del_name(seg.segment_id, 2)));
    assert!(!w.dir.files.contains_key(&del_name(seg.segment_id, 1)));

    // Reopen with verification: deletions are durable.
    assert_eq!(round2.docs().len(), 22);
    assert_eq!(round2.docs().indexed_count(), n_before - 3);
    assert!(!hits(&round2, "alpha").contains(&v0.1));
    assert!(!hits(&round2, "alpha").contains(&v1.1));
}

#[test]
fn empty_root_builds_an_empty_index() {
    let mut w = World::default();
    w.build(&BuildConfig::default());
    let index = w.dir.open();
    assert_eq!(index.stats().segments, 0);
    assert!(index.docs().is_empty());
    assert!(hits(&index, "anything").is_empty());
}

#[test]
fn stats_report_disk_and_corpus_sizes() {
    let mut w = corpus();
    w.build(&BuildConfig::default());
    let index = w.dir.open();
    let mut s = *index.stats();
    assert!(s.on_disk_bytes > 0);
    assert_eq!((s.crawl.files_seen, s.crawl.indexable, s.crawl.indexable_bytes), (0, 0, 0));
    assert_eq!((s.crawl.skipped_binary, s.crawl.skipped_too_large, s.crawl.errors), (0, 0, 0));
    let actual: u64 = w.dir.files.values().map(|b| b.len() as u64).sum();
    assert_eq!(s.on_disk_bytes, actual);
    assert!(s.memory_bytes < 64 * 1024, "reader heap should be tiny: {}", s.memory_bytes);
    s.crawl = crawl_stats(&w.crawl(), 25, 0);
    assert!(s.crawl.indexable_bytes > 0);
    let text = stats_text(&s);
    assert!(
        text.contains("index on disk") && text.contains("corpus size") && text.contains("segments")
    );
}

#[test]
fn every_file_of_an_index_is_referenced() {
    let mut w = corpus();
    w.build(&per_segment(4));
    w.delete(&[1]);
    w.rename("f05.txt", "moved.txt");
    w.update();
    let index = w.dir.open();
    assert_eq!(index.manifest().state_gen, 1);
    let mut want: Vec<String> = referenced_files(index.manifest());
    want.push(MANIFEST.to_string());
    let mut have: Vec<String> = w.dir.files.keys().cloned().collect();
    want.sort();
    have.sort();
    assert_eq!(have, want);
    let mut paths: Vec<String> = index.files();
    paths.sort();
    assert_eq!(paths[0], format!("{ROOT}/.ripindex/MANIFEST"));
    assert_eq!(index.overlay_patches().len(), 1);
    assert_eq!(index.overlay_patches()[0].path, "moved.txt");
}

// Faults.

const QUERIES: [&str; 5] = ["alpha", "beta OR gamma", "\"alpha beta\"", "alpha -gamma", "delta"];

/// Everything a reader can observe, keyed by path so doc ids need not match.
#[derive(Debug, Clone, PartialEq, Eq)]
struct State {
    docs: BTreeSet<(String, u32, bool)>,
    queries: Vec<BTreeSet<String>>,
    generation: u64,
}

fn snapshot(index: &Index<'_>) -> State {
    let docs = index
        .docs()
        .iter()
        .iter()
        .map(|(_, m)| (name_of(m), m.len, m.status == DocStatus::Indexed))
        .collect();
    let queries = QUERIES.iter().map(|q| hits(index, q).into_iter().collect()).collect();
    State { docs, queries, generation: index.manifest().generation }
}

const CORPUS_A: &[(&str, &str)] =
    &[("a.txt", "alpha beta"), ("b.txt", "beta gamma"), ("c.txt", "alpha gamma delta")];
const CORPUS_B: &[(&str, &str)] = &[
    ("a.txt", "alpha beta changed"),
    ("c.txt", "alpha gamma delta"),
    ("d.txt", "alpha alpha beta"),
    ("e.txt", "delta"),
];

fn world_of(files: &[(&str, &str)]) -> World {
    let mut w = World::default();
    for (name, text) in files {
        w.write(name, text);
    }
    w
}

/// Reopen with full verification behind a sweep; the directory must then be
/// tidy (nothing unreferenced left behind).
fn reopened(dir: &Dir) -> State {
    let mut dir = dir.clone();
    dir.sweep();
    let index = dir.open();
    let referenced: BTreeSet<String> = referenced_files(index.manifest()).into_iter().collect();
    for name in dir.files.keys().filter(|n| *n != MANIFEST) {
        assert!(referenced.contains(name), "unreferenced file left behind: {name}");
    }
    snapshot(&index)
}

/// The corpus B beside the committed index of the corpus A.
struct Fixture {
    template: World,
    state_a: State,
    state_b: State,
    clean_log: Vec<String>,
}

fn fixture() -> Fixture {
    let mut a = world_of(CORPUS_A);
    a.build(&per_segment(2));
    assert_eq!(a.dir.open().stats().segments, 2, "A should span two segments");
    let state_a = snapshot(&a.dir.open());
    let mut template = world_of(CORPUS_B);
    template.dir = a.dir;

    let mut clean = template.clone();
    let mut none = FaultFs::new(FaultPlan::default());
    let c = clean.build_commit(&per_segment(2));
    clean.dir.commit_under(c, &mut none).unwrap();
    assert_eq!(clean.dir.open().stats().segments, 2, "B should span two segments");
    let state_b = snapshot(&clean.dir.open());
    assert_ne!(state_a.docs, state_b.docs);
    Fixture { template, state_a, state_b, clean_log: none.log }
}

/// One faulted rebuild; the state observed after it.
fn faulted_rebuild(f: &Fixture, plan: FaultPlan) -> (State, Result<(), String>) {
    let mut w = f.template.clone();
    let mut faults = FaultFs::new(plan);
    let c = w.build_commit(&per_segment(2));
    let outcome = w.dir.commit_under(c, &mut faults);
    (reopened(&w.dir), outcome)
}

#[test]
fn clean_commit_follows_the_documented_protocol_exactly() {
    let f = fixture();
    let expected: Vec<String> = [
        // Per new file: temp → write → sync → close → rename
        "create seg-00002.idx.tmp",
        "write seg-00002.idx.tmp",
        "sync seg-00002.idx.tmp",
        "close seg-00002.idx.tmp",
        "rename seg-00002.idx.tmp -> seg-00002.idx",
        "create seg-00002.doc.tmp",
        "write seg-00002.doc.tmp",
        "sync seg-00002.doc.tmp",
        "close seg-00002.doc.tmp",
        "rename seg-00002.doc.tmp -> seg-00002.doc",
        "create seg-00003.idx.tmp",
        "write seg-00003.idx.tmp",
        "sync seg-00003.idx.tmp",
        "close seg-00003.idx.tmp",
        "rename seg-00003.idx.tmp -> seg-00003.idx",
        "create seg-00003.doc.tmp",
        "write seg-00003.doc.tmp",
        "sync seg-00003.doc.tmp",
        "close seg-00003.doc.tmp",
        "rename seg-00003.doc.tmp -> seg-00003.doc",
        "sync_dir .",
        "create MANIFEST.tmp",
        "write MANIFEST.tmp",
        "sync MANIFEST.tmp",
        "close MANIFEST.tmp",
        // The commit point.
        "rename MANIFEST.tmp -> MANIFEST",
        "sync_dir .",
        "remove seg-00000.idx",
        "remove seg-00000.doc",
        "remove seg-00001.idx",
        "remove seg-00001.doc",
    ]
    .iter()
    .map(|s| s.to_string())
    .collect();
    assert_eq!(f.clean_log, expected);
}

#[test]
fn crash_at_every_operation_recovers_to_a_or_b() {
    let f = fixture();
    let n_ops = f.clean_log.len() as u64;
    let (mut ended_a, mut ended_b) = (0, 0);
    for k in 1..=n_ops {
        let plan = FaultPlan { crash_at_op: Some(k), ..Default::default() };
        let (state, outcome) = faulted_rebuild(&f, plan);
        assert!(
            state == f.state_a || state == f.state_b,
            "{plan:?}: recovered to a state that is neither A nor B: {state:#?}"
        );
        assert!(outcome.is_err(), "a crash injected at op {k} must surface as an error");
        if state == f.state_b {
            ended_b += 1;
        } else {
            ended_a += 1;
        }
    }
    // The commit point is the manifest rename; crashes before it leave A, at
    // or after it leave B. Both sides must be exercised.
    assert!(ended_a > 0 && ended_b > 0, "A: {ended_a}, B: {ended_b}");
    let rename_at =
        f.clean_log.iter().position(|l| l == "rename MANIFEST.tmp -> MANIFEST").unwrap() as u64 + 1;
    // Ops are 1-based; a crash *at* op k means op k did not happen. So a crash
    // at the rename itself still leaves A; only crashes after it leave B.
    assert_eq!(ended_a, rename_at, "every crash up to and including the rename must yield A");
    assert_eq!(ended_b, n_ops - rename_at, "every op after the rename must yield B");
}

#[test]
fn failed_write_at_every_write_leaves_a() {
    let f = fixture();
    let n_writes = f.clean_log.iter().filter(|l| l.starts_with("write ")).count() as u64;
    assert!(n_writes >= 5);
    for w in 1..=n_writes {
        let plan = FaultPlan { fail_write: Some(w), ..Default::default() };
        let (state, outcome) = faulted_rebuild(&f, plan);
        assert!(outcome.is_err(), "write {w}");
        assert_eq!(state, f.state_a, "a failed write ({w}) happens before the commit point");
    }
}

#[test]
fn failed_sync_at_every_sync_recovers_to_a_or_b() {
    let f = fixture();
    let syncs: Vec<&String> = f
        .clean_log
        .iter()
        .filter(|l| l.starts_with("sync ") || l.starts_with("sync_dir "))
        .collect();
    assert!(syncs.len() >= 5);
    for (i, what) in syncs.iter().enumerate() {
        let s = i as u64 + 1;
        let plan = FaultPlan { fail_sync: Some(s), ..Default::default() };
        let (state, outcome) = faulted_rebuild(&f, plan);
        // Only the directory sync *after* the manifest rename can fail and still
        // leave B — and then the build reports success, since the commit is
        // complete and merely may not be durable.
        let after_commit = i == syncs.len() - 1;
        if after_commit {
            assert_eq!(state, f.state_b, "sync {s} ({what}) is after the commit point");
            assert!(outcome.is_ok(), "a failure behind the commit is no failed build: {outcome:?}");
        } else {
            assert!(outcome.is_err(), "sync {s} ({what})");
            assert_eq!(state, f.state_a, "sync {s} ({what}) is before the commit point");
        }
    }
}

#[test]
fn discarded_write_is_caught_by_the_following_sync_and_leaves_a() {
    let f = fixture();
    let n_writes = f.clean_log.iter().filter(|l| l.starts_with("write ")).count() as u64;
    for w in 1..=n_writes {
        // Lost bytes, process keeps going: the file's sync reports it.
        let plan = FaultPlan { discard_write: Some(w), ..Default::default() };
        let (state, outcome) = faulted_rebuild(&f, plan);
        assert!(outcome.is_err(), "discard {w}");
        assert_eq!(state, f.state_a, "discarded write {w} must abort before the commit point");
    }
}

#[test]
fn discarded_write_followed_by_crash_leaves_a() {
    let f = fixture();
    // Op index of each write in the clean run, so we can crash right after it
    // (before its sync) — a torn file that never reaches a rename.
    let write_ops: Vec<u64> = f
        .clean_log
        .iter()
        .enumerate()
        .filter(|(_, l)| l.starts_with("write "))
        .map(|(i, _)| i as u64 + 1)
        .collect();
    for (w, op) in write_ops.iter().enumerate() {
        let plan = FaultPlan {
            discard_write: Some(w as u64 + 1),
            crash_at_op: Some(op + 1),
            ..Default::default()
        };
        let (state, outcome) = faulted_rebuild(&f, plan);
        assert!(outcome.is_err());
        assert_eq!(state, f.state_a, "{plan:?}");
    }
}

#[test]
fn deletion_commit_under_crashes_is_all_or_nothing() {
    let mut w = world_of(CORPUS_B);
    w.build(&per_segment(2));
    let before = snapshot(&w.dir.open());
    // Delete a.txt (segment 0) and d.txt (segment 1): two new .del generations.
    let ids: Vec<u32> = w
        .dir
        .open()
        .docs()
        .iter()
        .iter()
        .filter(|(_, m)| matches!(name_of(m).as_str(), "a.txt" | "d.txt"))
        .map(|(id, _)| *id)
        .collect();
    assert_eq!(ids.len(), 2);

    let mut clean = w.clone();
    let mut none = FaultFs::new(FaultPlan::default());
    let c = delete_docs(&w.dir.open(), &ids, 9).unwrap();
    clean.dir.commit_under(c, &mut none).unwrap();
    let after = snapshot(&clean.dir.open());
    assert_ne!(before, after);
    assert!(
        after.queries[0].len() + 2 == before.queries[0].len(),
        "alpha hits drop by the two deleted docs"
    );
    let log = none.log;
    let rename_at = log.iter().position(|l| l == "rename MANIFEST.tmp -> MANIFEST").unwrap();
    assert!(log[..rename_at]
        .iter()
        .any(|l| l == "rename seg-00000.00001.del.tmp -> seg-00000.00001.del"));
    assert!(log[..rename_at]
        .iter()
        .any(|l| l == "rename seg-00001.00001.del.tmp -> seg-00001.00001.del"));

    let (mut ended_before, mut ended_after) = (0, 0);
    for k in 1..=(log.len() as u64) {
        let mut scratch = w.clone();
        let mut faults =
            FaultFs::new(FaultPlan { crash_at_op: Some(k), ..Default::default() });
        let c = delete_docs(&w.dir.open(), &ids, 9).unwrap();
        let outcome = scratch.dir.commit_under(c, &mut faults);
        assert!(outcome.is_err(), "crash at op {k}");
        let state = reopened(&scratch.dir);
        assert!(
            state == before || state == after,
            "crash at op {k}: neither before nor after: {state:#?}"
        );
        if state == after {
            ended_after += 1;
        } else {
            ended_before += 1;
        }
    }
    assert!(ended_before > 0 && ended_after > 0, "before: {ended_before}, after: {ended_after}");
}

#[test]
fn a_failed_commit_leaves_the_directory_as_it_was() {
    let f = fixture();
    let mut w = f.template.clone();
    let mut faults = FaultFs::new(FaultPlan { fail_sync: Some(3), ..Default::default() });
    let c = w.build_commit(&per_segment(2));
    let outcome = w.dir.commit_under(c, &mut faults);
    assert_eq!(outcome, Err("injected fault: sync failed".to_string()));
    assert_eq!(w.dir.files, f.template.dir.files);
}

#[test]
fn corrupt_manifest_is_absent_and_deletes_nothing() {
    let mut w = world_of(CORPUS_A);
    w.build(&per_segment(2));
    // Flip a byte in the body.
    let before: BTreeSet<String> = w.dir.files.keys().cloned().collect();
    w.dir.files.get_mut(MANIFEST).unwrap()[40] ^= 0xff;
    assert!(w.dir.try_open(false).unwrap().is_none());
    w.dir.sweep();
    let after: BTreeSet<String> = w.dir.files.keys().cloned().collect();
    assert_eq!(before, after, "a corrupt manifest must not trigger cleanup");

    // Truncated.
    w.dir.files.get_mut(MANIFEST).unwrap().truncate(20);
    assert!(w.dir.try_open(false).unwrap().is_none());

    // Missing.
    w.dir.files.remove(MANIFEST);
    assert!(w.dir.try_open(false).unwrap().is_none());

    // A rebuild recovers and the next sweep removes the orphans.
    w.dir.sweep();
    w.build(&per_segment(2));
    assert_eq!(
        w.dir.open().manifest().generation,
        1,
        "no readable predecessor, so generation restarts"
    );
    reopened(&w.dir);
}

#[test]
fn newer_format_version_is_an_error_not_absence() {
    let mut w = world_of(CORPUS_A);
    w.build(&per_segment(2));
    w.dir.files.get_mut(MANIFEST).unwrap()[8..12].copy_from_slice(&99u32.to_le_bytes());
    match w.dir.try_open(false) {
        Err(Error::Incompatible { path, version: 99 }) => {
            assert_eq!(path, format!("{ROOT}/.ripindex/MANIFEST"));
        }
        other => panic!("{:?}", other.map(|o| o.is_some())),
    }
    match read_manifest(ROOT, FileBytes::Failed("denied".to_string())) {
        Err(Error::Io(why)) => assert_eq!(why, "denied"),
        _ => panic!("a manifest that cannot be read is an error"),
    }
}

#[test]
fn committed_segment_that_fails_checks_is_corrupt_not_absent() {
    let mut w = world_of(CORPUS_A);
    w.build(&per_segment(2));
    let good = w.dir.clone();

    // Truncate a referenced segment: length check fails on open.
    w.dir.files.get_mut("seg-00000.idx").unwrap().pop();
    assert!(matches!(w.dir.try_open(false), Err(Error::Corrupt { .. })));

    // Same length, flipped byte deep in the body: envelope passes, verify catches it.
    w.dir = good.clone();
    w.dir.files.get_mut("seg-00000.idx").unwrap()[24] ^= 0x01;
    assert!(w.dir.try_open(false).unwrap().is_some(), "opens without verify");
    assert!(matches!(w.dir.try_open(true), Err(Error::Corrupt { .. })));
    assert!(matches!(w.dir.try_open(false).unwrap().unwrap().verify(), Err(Error::Corrupt { .. })));

    // Missing: it may have been retired meanwhile, so it is looked for again, and
    // corrupt where it never turns up.
    w.dir = good;
    w.dir.files.remove("seg-00000.idx");
    match w.dir.try_open(false) {
        Err(Error::Vanished(path)) => {
            assert!(matches!(after_vanished(MAX_ATTEMPTS, &path), Some(Error::Corrupt { .. })));
        }
        _ => panic!("a missing file is noticed"),
    }
}

#[test]
fn vanished_files_are_looked_for_again_up_to_a_limit() {
    assert!(after_vanished(1, "p").is_none());
    assert!(after_vanished(MAX_ATTEMPTS - 1, "p").is_none());
    assert!(
        matches!(after_vanished(MAX_ATTEMPTS, "p"), Some(Error::Corrupt { path, .. }) if path == "p")
    );
}

#[test]
fn second_writer_is_refused_while_lock_is_held() {
    assert!(lock_refused("/d", 0, LOCK_WAIT_MS).is_none());
    assert!(lock_refused("/d", LOCK_WAIT_MS - 1, LOCK_WAIT_MS).is_none());
    assert!(
        matches!(lock_refused("/d", LOCK_WAIT_MS, LOCK_WAIT_MS), Some(Error::Locked(d)) if d == "/d")
    );
}

#[test]
fn sweeping_spares_what_is_referenced_and_what_is_not_its_own() {
    let mut w = world_of(CORPUS_A);
    w.build(&per_segment(2));
    let m = read_manifest(ROOT, w.dir.bytes(MANIFEST)).unwrap().unwrap();
    let names: Vec<String> = [
        MANIFEST,
        LOCK,
        "seg-00000.idx",
        "seg-00009.idx",
        "seg-00000.idx.tmp",
        "state-00001.ovl",
        "notes.txt",
    ]
    .iter()
    .map(|s| s.to_string())
    .collect();
    assert_eq!(orphans(&m, &names), vec!["seg-00009.idx", "seg-00000.idx.tmp", "state-00001.ovl"]);
}

// Merges.

fn merge_corpus(n: usize) -> World {
    let vocab = ["alpha", "beta", "gamma", "delta"];
    let mut w = World::default();
    for i in 0..n {
        w.write(&format!("f{i:03}.txt"), format!("{} common{i}", vocab[i % vocab.len()]));
    }
    w
}

fn pairs_policy() -> MergePolicy {
    MergePolicy { tier_size: 2, ..MergePolicy::default() }
}

#[test]
fn a_deletion_arriving_between_snapshot_and_commit_is_carried_into_the_merged_segment() {
    let mut w = merge_corpus(8);
    w.build(&per_segment(4));
    let (before_alpha, prepared, victim_id) = {
        let index = w.dir.open();
        assert_eq!(index.stats().segments, 2);
        let before_alpha = hits(&index, "alpha");
        assert!(!before_alpha.is_empty());

        // 1. Snapshot for the merge.
        let plan = plan_merges(&index.manifest().segments, &pairs_policy());
        assert_eq!(plan.len(), 1);
        assert_eq!(plan[0].len(), 2);
        let prepared = prepare_merge(&index, &plan[0]).unwrap();
        assert_eq!(prepared.num_docs(), 8);
        assert_eq!(prepared.source_ids(), plan[0]);
        let docs = index.docs().iter();
        let victim = docs.iter().find(|(_, m)| name_of(m) == before_alpha[0]).unwrap().0;
        (before_alpha, prepared, victim)
    };

    // 2. A doc of one of the segments being merged is deleted *after* the
    // snapshot was taken.
    w.delete(&[victim_id]);
    assert_eq!(w.dir.open().docs().len(), 7);

    // 3. Now commit the merge, prepared *before* the deletion.
    let c = commit_merges(&w.dir.open(), vec![prepared], 1).unwrap().unwrap();
    w.dir.commit(c);
    let merged = w.dir.open();
    assert_eq!(merged.stats().segments, 1);

    // The deletion must have survived the merge: the victim is gone, and
    // every other original doc is still there and still searchable.
    let after_merge_alpha = hits(&merged, "alpha");
    assert_eq!(
        after_merge_alpha.len(),
        before_alpha.len() - 1,
        "the concurrently-deleted doc must not be resurrected"
    );
    assert!(!after_merge_alpha.contains(&before_alpha[0]));
    for n in &before_alpha[1..] {
        assert!(after_merge_alpha.contains(n));
    }
    assert_eq!(merged.docs().len(), 7);

    // The merged segment's own del bitmap actually exists and carries the count.
    let seg = &merged.manifest().segments[0];
    assert_eq!(seg.del_gen, 1, "the merge must write its own carry-forward .del");
    assert_eq!(seg.num_deleted, 1);
}

#[test]
fn no_intervening_deletion_means_no_del_file_is_written() {
    let mut w = merge_corpus(8);
    w.build(&per_segment(4));
    w.merge(&pairs_policy());
    let merged = w.dir.open();
    let seg = &merged.manifest().segments[0];
    assert_eq!(seg.del_gen, 0, "nothing changed between snapshot and commit, so no .del is needed");
    assert_eq!(seg.num_deleted, 0);
    assert_eq!(merged.docs().len(), 8);
}

#[test]
fn deleting_all_survivors_between_snapshot_and_commit_yields_an_empty_but_valid_segment() {
    let mut w = merge_corpus(4);
    w.build(&per_segment(4));
    let (prepared, ids) = {
        let index = w.dir.open();
        assert_eq!(index.stats().segments, 1);
        let prepared = prepare_merge(&index, &[index.manifest().segments[0].segment_id]).unwrap();
        let ids: Vec<u32> = index.docs().iter().iter().map(|(id, _)| *id).collect();
        (prepared, ids)
    };
    w.delete(&ids);
    assert_eq!(w.dir.open().docs().indexed_count(), 0);

    let c = commit_merges(&w.dir.open(), vec![prepared], 1).unwrap().unwrap();
    w.dir.commit(c);
    let merged = w.dir.open();
    assert_eq!(merged.manifest().segments[0].num_deleted, 4);
    assert_eq!(merged.docs().indexed_count(), 0);
    merged.verify().unwrap();
}

#[test]
fn a_source_segment_removed_before_commit_aborts_and_cleans_up_temp_files() {
    let mut w = merge_corpus(8);
    w.build(&per_segment(4));
    let prepared: PreparedMerge = {
        let index = w.dir.open();
        let plan = plan_merges(&index.manifest().segments, &pairs_policy());
        prepare_merge(&index, &plan[0]).unwrap()
    };

    // A racing merge that already consumed these same source segments must not
    // corrupt anything: merge the corpus away entirely first.
    w.merge(&pairs_policy());

    let before = w.dir.files.clone();
    match commit_merges(&w.dir.open(), vec![prepared], 1) {
        Err(Error::Corrupt { path, .. }) => assert_eq!(path, format!("{ROOT}/.ripindex")),
        _ => panic!("the merge must be given up"),
    }
    assert_eq!(before, w.dir.files, "nothing is touched");

    // The index committed by the racing merge is untouched and still valid.
    assert_eq!(w.dir.open().docs().len(), 8);
}

/// Two documents of one word each, and an index file in which the second word of the
/// dictionary was overwritten. A full check would refuse it.
fn overwritten(words: [&str; 2], with: &[u8]) -> World {
    let mut w = World::default();
    w.write("a.txt", words[0]);
    w.write("b.txt", words[1]);
    w.build(&per_segment(8));
    let idx = w.dir.files.get_mut(&idx_name(0)).unwrap();
    let at = idx.windows(3).position(|b| b == b"bbb").unwrap();
    idx[at..at + 3].copy_from_slice(with);
    w
}

#[test]
fn terms_out_of_order_are_merged_in_order() {
    let mut w = overwritten(["aaa", "bbb"], b"000");
    let c = {
        let index = w.dir.try_open(false).unwrap().unwrap();
        let prepared = prepare_merge(&index, &[0]).unwrap();
        commit_merges(&index, vec![prepared], 1).unwrap().unwrap()
    };
    w.dir.commit(c);
    let merged = w.dir.open();
    assert_eq!(hits(&merged, "aaa"), vec!["a.txt"]);
    assert_eq!(hits(&merged, "000"), vec!["b.txt"]);
}

#[test]
fn a_term_that_comes_twice_is_merged_while_its_documents_ascend() {
    let mut w = overwritten(["aaa", "bbb"], b"aaa");
    let c = {
        let index = w.dir.try_open(false).unwrap().unwrap();
        let prepared = prepare_merge(&index, &[0]).unwrap();
        commit_merges(&index, vec![prepared], 1).unwrap().unwrap()
    };
    w.dir.commit(c);
    assert_eq!(hits(&w.dir.open(), "aaa"), vec!["a.txt", "b.txt"]);

    let w = overwritten(["bbb", "aaa"], b"aaa");
    let index = w.dir.try_open(false).unwrap().unwrap();
    match prepare_merge(&index, &[0]) {
        Err(Error::Corrupt { path, reason }) => {
            assert_eq!(path, format!("{ROOT}/.ripindex/{}", idx_name(0)));
            assert_eq!(reason, "postings are not in order");
        }
        _ => panic!("the documents descend"),
    }
}

#[test]
fn no_merges_are_no_commit() {
    let mut w = merge_corpus(4);
    w.build(&per_segment(4));
    assert!(commit_merges(&w.dir.open(), vec![], 1).unwrap().is_none());
    let before = w.dir.files.clone();
    w.merge(&MergePolicy::default());
    assert_eq!(before, w.dir.files);
}

#[test]
fn merge_index_convenience_still_produces_one_commit_for_several_groups() {
    let mut w = merge_corpus(16);
    w.build(&per_segment(2));
    assert_eq!(w.dir.open().stats().segments, 8);
    let before = hits(&w.dir.open(), "alpha");

    w.merge(&MergePolicy { tier_size: 2, max_merge: 4, ..MergePolicy::default() });
    let merged = w.dir.open();
    assert!(merged.stats().segments < 8, "several groups merged in one pass");
    assert_eq!(
        merged.manifest().generation,
        2,
        "one generation for the whole pass, however many groups"
    );
    assert_eq!(hits(&merged, "alpha"), before);
    merged.verify().unwrap();
}

// Refreshing.

#[test]
fn refresh_names_the_segments_that_are_gone() {
    let mut w = merge_corpus(6);
    w.build(&per_segment(2));
    let old = w.dir.open().manifest().clone();
    let c = {
        let index = w.dir.open();
        let prepared = prepare_merge(&index, &[old.segments[0].segment_id]).unwrap();
        commit_merges(&index, vec![prepared], 1).unwrap().unwrap()
    };
    w.dir.commit(c);
    let new = w.dir.open().manifest().clone();
    assert_eq!(
        refresh(old.generation, &old.segments, Some((new.generation, &new.segments))),
        Some(vec![true, false, false])
    );
    assert_eq!(refresh(new.generation, &new.segments, Some((new.generation, &new.segments))), None);
    assert_eq!(refresh(old.generation, &old.segments, None), None);
}

// Kills at random moments.

/// Which of these states the index is.
fn which(dir: &Dir, candidates: Vec<u64>) -> Option<u64> {
    let index = dir.open();
    let mut docs: Vec<(String, u32)> =
        index.docs().iter().iter().map(|(_, m)| (name_of(m), m.len)).collect();
    docs.sort();
    let (state, expected) = matching(&docs, &candidates)?;
    let checks = expected.checks(state);
    let got = checks.iter().map(|(q, _)| hits(&index, q).len()).collect();
    assert_eq!(first_wrong(&checks, &got), None, "state {state}: {checks:?} {got:?}");
    Some(state)
}

fn set_state(w: &mut World, state: u64) {
    w.docs.clear();
    for (name, text) in state_corpus(state) {
        w.write(&name, text);
    }
}

#[test]
fn random_kills_leave_the_old_state_or_the_new() {
    let cfg = BuildConfig { shard_size: 4, docs_per_segment: 12, ..BuildConfig::default() };
    let mut w = World::default();
    set_state(&mut w, 2);
    w.build(&cfg);
    assert_eq!(which(&w.dir, vec![2]), Some(2));
    let mut rng = XorShift::new(1);
    let mut tally = Tally::new(2);
    for i in 0..40 {
        let state = tally.target(&mut rng);
        set_state(&mut w, state);
        let c = w.build_commit(&cfg);
        let plan = FaultPlan { crash_at_op: Some(1 + rng.below(60)), ..Default::default() };
        let _ = w.dir.commit_under(c, &mut FaultFs::new(plan));
        w.dir.sweep();
        let found = which(&w.dir, vec![state, tally.prev]);
        assert!(tally.take(state, found), "kill {i}: {found:?}");
    }
    assert_eq!(tally.kept_old + tally.took_new, 40);
    assert!(tally.kept_old > 0 && tally.took_new > 0, "{tally:?}");
}

#[test]
fn a_state_is_not_taken_for_another() {
    let mut w = World::default();
    set_state(&mut w, 3);
    w.build(&small_build());
    assert_eq!(which(&w.dir, vec![1, 2]), None);
    assert_eq!(which(&w.dir, vec![1, 3, 2]), Some(3));
}
