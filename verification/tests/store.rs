//! Names, recorded state, merge plans, the watcher's schedule and the governor.

use std::collections::VecDeque;
use std::time::{Duration, SystemTime};

use ripindex::crawler::{CrawledFile, FileEntry, FileKind};
use ripindex::error::Error;
use ripindex::format::manifest::{Manifest, SegmentEntry};
use ripindex::fs::{Fault, FaultFs, FaultPlan};
use ripindex::index::builder::hash_bytes;
use ripindex::index::{BuildConfig, DocId, DocMeta, DocStatus};
use ripindex::store::flush::is_full;
use ripindex::store::governor::{
    is_battery, is_discharging, memory_pressure, DutyCycle, Governor, TokenBucket,
    POWER_BACKOFF_MS,
};
use ripindex::store::merge_plan::{plan_merges, segment_tier, MergePolicy};
use ripindex::store::reader::{opened_heap_of, Index, OwnedPatch};
use ripindex::store::segment::{
    corrupt, nanos_to_time, resolve, sized, time_to_nanos, FileBytes, Moment,
};
use ripindex::store::state::{reconcile, wants_read, Change, FileState, Plan, StateIndex};
use ripindex::store::update::{files_to_retire, merge_patches, split};
use ripindex::store::watcher::{Action, Event, RecvOutcome, Schedule, WatchConfig};
use ripindex::store::writer::relative_path;
use ripindex::store::{
    del_name, doc_name, idx_name, index_dir, is_cleanable, overlay_name, referenced_files,
    segment_files, staging_dir, tmp_name,
};

// Names.

#[test]
fn names() {
    assert_eq!(idx_name(3), "seg-00003.idx");
    assert_eq!(doc_name(123456), "seg-123456.doc");
    assert_eq!(del_name(3, 2), "seg-00003.00002.del");
    assert_eq!(overlay_name(7), "state-00007.ovl");
    assert_eq!(tmp_name(&idx_name(3)), "seg-00003.idx.tmp");
    assert!(
        is_cleanable("seg-00003.idx")
            && is_cleanable("MANIFEST.tmp")
            && is_cleanable("seg-00001.00004.del")
    );
    assert!(is_cleanable("state-00001.ovl") && is_cleanable("state-00001.ovl.tmp"));
    assert!(!is_cleanable("MANIFEST") && !is_cleanable("LOCK"));
}

#[test]
fn referenced_files_includes_overlay_only_when_live() {
    let mut m = Manifest {
        segments: vec![SegmentEntry { segment_id: 0, num_docs: 1, ..Default::default() }],
        ..Default::default()
    };
    let no_overlay = referenced_files(&m);
    assert!(!no_overlay.iter().any(|n| n.starts_with("state-")));
    m.state_gen = 3;
    let with_overlay = referenced_files(&m);
    assert!(with_overlay.contains(&overlay_name(3)));
    assert_eq!(with_overlay.len(), no_overlay.len() + 1);
}

#[test]
fn directories_and_segment_files() {
    assert_eq!(index_dir("/r"), "/r/.ripindex");
    assert_eq!(staging_dir("/r"), "/r/.ripindex/staging");
    let e = SegmentEntry { segment_id: 4, ..Default::default() };
    assert_eq!(segment_files(&e), vec!["seg-00004.idx", "seg-00004.doc"]);
    let e = SegmentEntry { del_gen: 2, ..e };
    assert_eq!(
        segment_files(&e),
        vec!["seg-00004.idx", "seg-00004.doc", "seg-00004.00002.del"]
    );
    let m = Manifest { state_gen: 1, segments: vec![e], ..Default::default() };
    assert_eq!(
        files_to_retire(&m),
        vec!["seg-00004.idx", "seg-00004.doc", "seg-00004.00002.del", "state-00001.ovl"]
    );
}

#[test]
fn paths_are_stored_relative_to_the_root() {
    assert_eq!(relative_path("/r", "/r/a/b.txt"), "a/b.txt");
    assert_eq!(resolve("/r", "a/b.txt"), "/r/a/b.txt");
    assert_eq!(relative_path("/r", &resolve("/r", "x")), "x");
}

// Times.

fn to_moment(t: SystemTime) -> Moment {
    match t.duration_since(SystemTime::UNIX_EPOCH) {
        Ok(d) => Moment { before_epoch: false, secs: d.as_secs(), nanos: d.subsec_nanos() },
        Err(e) => Moment {
            before_epoch: true,
            secs: e.duration().as_secs(),
            nanos: e.duration().subsec_nanos(),
        },
    }
}

#[test]
fn time_roundtrip() {
    for t in [
        SystemTime::UNIX_EPOCH,
        SystemTime::UNIX_EPOCH + Duration::from_nanos(1_700_000_000_123_456_789),
        SystemTime::UNIX_EPOCH - Duration::from_secs(86_400),
        SystemTime::now(),
    ] {
        let t = to_moment(t);
        assert_eq!(nanos_to_time(time_to_nanos(t)), t);
    }
    assert_eq!(
        time_to_nanos(nanos_to_time(i64::MIN)),
        time_to_nanos(nanos_to_time(i64::MIN))
    ); // no panic
}

#[test]
fn times_out_of_range_are_cut_off() {
    assert_eq!(time_to_nanos(Moment { before_epoch: false, secs: u64::MAX, nanos: 0 }), i64::MAX);
    assert_eq!(time_to_nanos(Moment { before_epoch: false, secs: 1, nanos: 5 }), 1_000_000_005);
    assert_eq!(time_to_nanos(Moment { before_epoch: true, secs: 0, nanos: 7 }), -7);
    assert_eq!(
        nanos_to_time(-1_000_000_001),
        Moment { before_epoch: true, secs: 1, nanos: 1 }
    );
}

// Files of a segment.

#[test]
fn a_file_must_have_the_recorded_length() {
    assert_eq!(sized("p", FileBytes::Bytes(b"abc"), 3).unwrap(), b"abc");
    assert!(matches!(sized("p", FileBytes::Bytes(b"abc"), 4), Err(Error::Corrupt { .. })));
    assert!(matches!(sized("p", FileBytes::Missing, 4), Err(Error::Vanished(p)) if p == "p"));
    assert!(matches!(
        sized("p", FileBytes::Failed("no".to_string()), 4),
        Err(Error::Corrupt { .. })
    ));
    assert_eq!(corrupt("p", "bad").message(), "p: bad");
}

#[test]
fn an_opened_index_is_counted_by_its_patches() {
    let own = std::mem::size_of::<Index<'static>>();
    let patch = std::mem::size_of::<OwnedPatch>();
    assert_eq!(opened_heap_of(&[], &[]), own);
    assert_eq!(opened_heap_of(&[], &[5, 30]), own + 2 * patch + 35);
}

#[test]
fn a_segment_is_full_by_documents_or_by_memory() {
    let cfg = BuildConfig { docs_per_segment: 3, segment_bytes: 100, ..BuildConfig::default() };
    assert!(!is_full(2, 99, &cfg));
    assert!(is_full(3, 0, &cfg));
    assert!(is_full(0, 100, &cfg));
}

// Recorded state.

fn state(entries: &[(&str, u64, i64, u64, u64, DocStatus)]) -> StateIndex {
    let mut s = StateIndex::new();
    for &(path, doc_id, mtime_nanos, size, inode, status) in entries {
        s.insert(
            path,
            FileState {
                doc_id: doc_id as DocId,
                inode,
                mtime_nanos,
                size,
                content_hash: mtime_nanos as u64,
                status,
            },
        );
    }
    s
}

fn hashed(path: &str, inode: u64, content_hash: u64) -> StateIndex {
    let mut s = StateIndex::new();
    s.insert(
        path,
        FileState {
            doc_id: 1,
            inode,
            mtime_nanos: 1,
            size: 999, // deliberately stale
            content_hash,
            status: DocStatus::Indexed,
        },
    );
    s
}

fn cf(root: &str, rel: &str, inode: u64, mtime: i64, size: u64, kind: FileKind) -> CrawledFile {
    CrawledFile { entry: FileEntry { path: format!("{root}/{rel}"), inode, mtime, size }, kind }
}

/// Reconciles where every file that is asked for holds `bytes`.
fn plan_with(prev: &StateIndex, crawled: &[CrawledFile], bytes: &[u8]) -> Plan {
    let reads = wants_read(prev, "/root", crawled)
        .into_iter()
        .map(|w| if w { Some(bytes.to_vec()) } else { None })
        .collect();
    reconcile(prev, "/root", crawled, reads)
}

#[test]
fn unchanged_costs_no_io() {
    let prev = state(&[("a.txt", 1, 100, 5, 10, DocStatus::Indexed)]);
    let crawled = [cf("/root", "a.txt", 10, 100, 5, FileKind::Text)];
    assert_eq!(wants_read(&prev, "/root", &crawled), vec![false]);
    let plan = plan_with(&prev, &crawled, b"");
    assert!(plan.is_empty());
    assert_eq!(plan.bytes_read, 0);
}

#[test]
fn deleted_path_is_a_delete() {
    let prev = state(&[("gone.txt", 1, 100, 5, 10, DocStatus::Indexed)]);
    let plan = plan_with(&prev, &[], b"");
    assert_eq!(plan.deletes(), 1);
    assert!(matches!(plan.changes[0], Change::Delete(1)));
}

#[test]
fn new_path_is_a_reindex() {
    let prev = StateIndex::default();
    let crawled = [cf("/root", "new.txt", 5, 1, 3, FileKind::Text)];
    let plan = plan_with(&prev, &crawled, b"");
    assert_eq!(plan.reindexes(), 1);
    assert!(matches!(&plan.changes[0], Change::Reindex { path, .. } if path == "new.txt"));
}

#[test]
fn metadata_touch_with_identical_content_is_a_patch_not_a_reindex() {
    let prev = hashed("a.txt", 10, hash_bytes(b"same bytes"));
    let crawled = [cf("/root", "a.txt", 10, 2, 10, FileKind::Text)]; // content did not change
    let plan = plan_with(&prev, &crawled, b"same bytes");
    assert_eq!(plan.changes.len(), 1);
    assert!(matches!(&plan.changes[0], Change::Patch { doc_id: 1, .. }));
    assert!(plan.bytes_read > 0, "content had to be read to confirm the hash");
}

#[test]
fn metadata_touch_with_changed_content_is_delete_plus_reindex() {
    let prev = hashed("a.txt", 10, 0xdead); // won't match
    let crawled = [cf("/root", "a.txt", 10, 2, 9, FileKind::Text)];
    let plan = plan_with(&prev, &crawled, b"new bytes");
    assert_eq!(plan.deletes(), 1);
    assert_eq!(plan.reindexes(), 1);
    assert!(
        matches!(&plan.changes[1], Change::Reindex { bytes: Some(_), .. }),
        "bytes are reused from the hashing read"
    );
}

#[test]
fn rename_with_unchanged_metadata_costs_no_io() {
    let prev = state(&[("old/name.txt", 1, 100, 5, 42, DocStatus::Indexed)]);
    let crawled = [cf("/root", "new/name.txt", 42, 100, 5, FileKind::Text)]; // same inode, mtime, size
    let plan = plan_with(&prev, &crawled, b"");
    assert_eq!(plan.changes.len(), 1);
    assert!(
        matches!(&plan.changes[0], Change::Patch { doc_id: 1, path, .. } if path == "new/name.txt")
    );
    assert_eq!(plan.bytes_read, 0, "a clean rename never reads the file");
}

#[test]
fn rename_with_changed_metadata_but_same_hash_is_a_patch() {
    let prev = hashed("old/name.txt", 42, hash_bytes(b"content"));
    let crawled = [cf("/root", "new/name.txt", 42, 2, 7, FileKind::Text)];
    let plan = plan_with(&prev, &crawled, b"content");
    assert_eq!(plan.changes.len(), 1);
    assert!(
        matches!(&plan.changes[0], Change::Patch { doc_id: 1, path, .. } if path == "new/name.txt")
    );
}

#[test]
fn rename_with_changed_content_is_delete_plus_reindex_at_new_path() {
    let prev = hashed("a.txt", 42, 0xbeef); // won't match "edited"
    let crawled = [cf("/root", "b.txt", 42, 2, 6, FileKind::Text)];
    let plan = plan_with(&prev, &crawled, b"edited");
    assert_eq!(plan.deletes(), 1);
    assert_eq!(plan.reindexes(), 1);
    assert!(matches!(&plan.changes[1], Change::Reindex { path, .. } if path == "b.txt"));
}

#[test]
fn binary_and_too_large_metadata_change_reindexes_without_hashing() {
    let prev = state(&[("img.png", 1, 100, 5, 10, DocStatus::Binary)]);
    let crawled = [cf("/root", "img.png", 10, 200, 6, FileKind::Binary)];
    let plan = plan_with(&prev, &crawled, b"");
    assert_eq!(plan.deletes(), 1);
    assert_eq!(plan.reindexes(), 1);
    assert_eq!(plan.bytes_read, 0);
}

#[test]
fn no_inode_support_still_detects_content_preserving_moves_by_hash() {
    // inode 0 everywhere (a file system without stable ids): the rename fast
    // path is unavailable, but the same path with other metadata and the same
    // content is still found out.
    let prev = hashed("a.txt", 0, hash_bytes(b"stable content"));
    let crawled = [cf("/root", "a.txt", 0, 2, 14, FileKind::Text)];
    let plan = plan_with(&prev, &crawled, b"stable content");
    assert!(matches!(&plan.changes[0], Change::Patch { .. }));
}

#[test]
fn a_hard_link_is_no_move() {
    // The old path is still there, so the new one is a file of its own.
    let prev = state(&[("a.txt", 1, 100, 5, 42, DocStatus::Indexed)]);
    let crawled = [
        cf("/root", "a.txt", 42, 100, 5, FileKind::Text),
        cf("/root", "b.txt", 42, 100, 5, FileKind::Text),
    ];
    let plan = plan_with(&prev, &crawled, b"");
    assert_eq!((plan.deletes(), plan.patches(), plan.reindexes()), (0, 0, 1));
    assert!(matches!(&plan.changes[0], Change::Reindex { path, .. } if path == "b.txt"));
}

#[test]
fn state_is_taken_from_documents() {
    let meta = DocMeta {
        path: "/root/x/y.txt".to_string(),
        inode: 8,
        mtime: 9,
        size: 10,
        len: 3,
        status: DocStatus::Indexed,
        content_hash: 11,
    };
    let s = StateIndex::from_docs("/root", &[(6, meta)]);
    assert_eq!(s.len(), 1);
    let f = s.get("x/y.txt").unwrap();
    assert_eq!((f.doc_id, f.inode, f.mtime_nanos, f.size, f.content_hash), (6, 8, 9, 10, 11));
    assert!(s.get("y.txt").is_none());
    assert!(StateIndex::new().is_empty());
}

#[test]
fn work_is_sorted_by_what_is_done() {
    let prev = hashed("a.txt", 10, 0xdead);
    let crawled = [
        cf("/root", "a.txt", 10, 2, 9, FileKind::Text),
        cf("/root", "new.bin", 11, 3, 4, FileKind::Binary),
    ];
    let w = split(&plan_with(&prev, &crawled, b"new bytes"), "/root");
    assert_eq!(w.deletes, vec![1]);
    assert!(w.patches.is_empty());
    let paths: Vec<&str> = w.files.iter().map(|f| f.entry.path.as_str()).collect();
    assert_eq!(paths, vec!["/root/a.txt", "/root/new.bin"]);
    assert_eq!(w.files[1].kind, FileKind::Binary);
}

fn patch(doc_id: DocId, path: &str) -> OwnedPatch {
    OwnedPatch { doc_id, inode: 0, mtime_nanos: 0, size: 0, path: path.to_string() }
}

#[test]
fn newer_patches_win_and_deleted_documents_lose_theirs() {
    let merged = merge_patches(
        &vec![patch(1, "a"), patch(3, "c"), patch(5, "e")],
        vec![patch(4, "d"), patch(3, "c2")],
        &[5],
    );
    let seen: Vec<(DocId, &str)> = merged.iter().map(|p| (p.doc_id, p.path.as_str())).collect();
    assert_eq!(seen, vec![(1, "a"), (3, "c2"), (4, "d")]);
}

// Merge plans.

fn seg(id: u32, num_docs: u32, num_deleted: u32, bytes: u64) -> SegmentEntry {
    SegmentEntry {
        segment_id: id,
        base_doc: 0,
        num_docs,
        num_deleted,
        idx_len: bytes,
        ..Default::default()
    }
}

#[test]
fn small_tiers_do_not_merge() {
    let segs = vec![seg(0, 10, 0, 1000), seg(1, 10, 0, 1000)];
    assert!(plan_merges(&segs, &MergePolicy::default()).is_empty());
}

#[test]
fn a_full_tier_merges() {
    let segs: Vec<_> = (0..4).map(|i| seg(i, 10, 0, 1_000_000)).collect(); // same tier
    let groups = plan_merges(&segs, &MergePolicy::default());
    assert_eq!(groups.len(), 1);
    let mut ids = groups[0].clone();
    ids.sort();
    assert_eq!(ids, vec![0, 1, 2, 3]);
}

#[test]
fn different_tiers_do_not_mix() {
    let mut segs: Vec<_> = (0..4).map(|i| seg(i, 10, 0, 1_000_000)).collect(); // ~1MB tier
    segs.extend((4..8).map(|i| seg(i, 10, 0, 100_000_000))); // ~100MB tier
    let groups = plan_merges(&segs, &MergePolicy::default());
    assert_eq!(groups.len(), 2);
    for g in &groups {
        assert!(g.iter().all(|id| *id < 4) || g.iter().all(|id| *id >= 4));
    }
}

#[test]
fn oversized_segments_are_never_merged() {
    let mut segs: Vec<_> = (0..5).map(|i| seg(i, 10, 0, 1_000_000)).collect();
    segs.push(seg(5, 10, 0, 600 << 20)); // over the 512 MiB cap
    let groups = plan_merges(&segs, &MergePolicy::default());
    assert!(groups.iter().flatten().all(|&id| id != 5));
}

#[test]
fn heavily_deleted_segment_is_rewritten_alone() {
    let segs = vec![seg(0, 100, 40, 1_000_000), seg(1, 10, 0, 1_000_000)];
    let groups = plan_merges(&segs, &MergePolicy::default());
    assert!(groups.contains(&vec![0]));
    // Segment 1 alone is below the tier threshold, so no other group forms.
    assert_eq!(groups.len(), 1);
}

#[test]
fn a_deletion_driven_segment_is_not_also_tier_merged() {
    let mut segs = vec![seg(0, 100, 40, 1_000_000)]; // >30% deleted
    segs.extend((1..4).map(|i| seg(i, 10, 0, 1_000_000))); // same tier as 0's live size, but only 3 of them
    let groups = plan_merges(&segs, &MergePolicy::default());
    assert_eq!(groups, vec![vec![0]]); // the other three don't reach tier_size on their own
}

#[test]
fn tier_larger_than_max_merge_is_chunked() {
    let segs: Vec<_> = (0..25).map(|i| seg(i, 10, 0, 1_000_000)).collect();
    let groups = plan_merges(&segs, &MergePolicy::default());
    assert!(groups.iter().all(|g| g.len() <= 10));
    let total: usize = groups.iter().map(|g| g.len()).sum();
    assert_eq!(total, 25);
}

#[test]
fn empty_input_plans_nothing() {
    assert!(plan_merges(&[], &MergePolicy::default()).is_empty());
}

#[test]
fn tiers_go_by_powers_of_two_and_thresholds_are_strict() {
    assert_eq!(segment_tier(&seg(0, 1, 0, 1_000_000)), segment_tier(&seg(1, 1, 0, 1_000_001)));
    assert!(segment_tier(&seg(0, 1, 0, 2 << 20)) == segment_tier(&seg(1, 1, 0, 1 << 20)) + 1);
    // Exactly three tenths deleted is not more than three tenths.
    assert!(plan_merges(&[seg(0, 10, 3, 10)], &MergePolicy::default()).is_empty());
    assert_eq!(plan_merges(&[seg(7, 1000, 301, 10)], &MergePolicy::default()), vec![vec![7]]);
}

#[test]
fn segments_at_the_size_limit_are_not_merged() {
    let segs: Vec<_> = (0..4).map(|i| seg(i, 10, 0, 1000)).collect();
    let at = MergePolicy { max_segment_bytes: 1000, ..MergePolicy::default() };
    assert!(plan_merges(&segs, &at).is_empty());
    let above = MergePolicy { max_segment_bytes: 1001, ..MergePolicy::default() };
    assert_eq!(plan_merges(&segs, &above), vec![vec![0, 1, 2, 3]]);
    // Nor is one rewritten for what was deleted of it.
    let worn = [seg(7, 10, 9, 1000)];
    assert!(plan_merges(&worn, &at).is_empty());
    assert_eq!(plan_merges(&worn, &above), vec![vec![7]]);
}

#[test]
fn a_small_share_of_deletions_can_be_asked_for() {
    let policy = MergePolicy { del_ppm_threshold: 400, ..MergePolicy::default() };
    assert!(plan_merges(&[seg(0, 10_000, 4, 10)], &policy).is_empty());
    assert_eq!(plan_merges(&[seg(0, 10_000, 5, 10)], &policy), vec![vec![0]]);
}

// The watcher.

/// Replays `(milliseconds to advance, outcome)` pairs; once exhausted every wait
/// times out. Returns how many triggers there were.
fn drive(
    script: Vec<(u64, RecvOutcome)>,
    cfg: WatchConfig,
    should_stop: impl Fn(u32) -> bool,
) -> u32 {
    let mut script: VecDeque<(u64, RecvOutcome)> = script.into();
    let mut now = 0u64;
    let mut count = 0u32;
    let (mut schedule, mut action) = Schedule::new(&cfg);
    loop {
        let event = match action {
            Action::Trigger => {
                count += 1;
                Event::Triggered(now)
            }
            Action::Check => Event::Checked(should_stop(count), now),
            Action::Receive(timeout) => Event::Received(match script.pop_front() {
                Some((advance, outcome)) => {
                    now += advance;
                    outcome
                }
                None => {
                    now += timeout;
                    RecvOutcome::Timeout
                }
            }),
            Action::Stop => return count,
        };
        action = schedule.step(event);
    }
}

fn run_script(script: Vec<(u64, RecvOutcome)>, cfg: WatchConfig, stop_after: u32) -> u32 {
    drive(script, cfg, |count| count >= stop_after)
}

#[test]
fn always_reconciles_once_at_startup_even_with_no_events() {
    let n = run_script(
        vec![],
        WatchConfig { periodic_reconcile_ms: 1_000_000, ..Default::default() },
        1,
    );
    assert_eq!(n, 1);
}

#[test]
fn a_burst_of_hints_becomes_one_trigger() {
    // Five hints arriving 10ms apart, well inside the 500ms debounce.
    let script = vec![
        (0, RecvOutcome::Hint),
        (10, RecvOutcome::Hint),
        (10, RecvOutcome::Hint),
        (10, RecvOutcome::Hint),
        (10, RecvOutcome::Hint),
    ];
    // Startup trigger (1) + one more after the burst settles = 2, even
    // though 5 hints arrived.
    let n = run_script(script, WatchConfig::default(), 2);
    assert_eq!(n, 2);
}

#[test]
fn overflow_is_treated_exactly_like_a_hint() {
    let n = run_script(vec![(0, RecvOutcome::Overflow)], WatchConfig::default(), 2);
    assert_eq!(n, 2);
}

#[test]
fn widely_spaced_hints_are_separate_triggers() {
    // Two hints, a full second apart — well outside the 500ms debounce.
    let script = vec![(0, RecvOutcome::Hint), (1_000, RecvOutcome::Hint)];
    let n = run_script(script, WatchConfig::default(), 3);
    assert_eq!(n, 3); // startup + one per hint
}

#[test]
fn no_events_at_all_still_reconciles_periodically() {
    let cfg = WatchConfig { debounce_ms: 500, periodic_reconcile_ms: 60_000 };
    // Nothing in the script: every wait times out.
    let n = run_script(vec![], cfg, 4); // startup + 3 periodic fires
    assert_eq!(n, 4);
}

#[test]
fn stops_promptly_when_asked() {
    let n = drive(vec![], WatchConfig::default(), |_| true);
    assert_eq!(n, 1); // only the startup trigger; stop is checked before the next wait
}

#[test]
fn closed_source_ends_the_run() {
    let n = drive(vec![(0, RecvOutcome::Closed)], WatchConfig::default(), |_| false);
    assert_eq!(n, 1); // startup only; Closed ends the loop before triggering again
}

// The governor.

#[test]
fn token_bucket_grants_up_to_capacity_immediately() {
    let mut b = TokenBucket::new(1000, 0); // 1000 B/s, burst 1000 B
    assert_eq!(b.spend(0, 500), 0);
    assert_eq!(b.spend(0, 500), 0); // exactly the burst
    assert!(b.spend(0, 1) > 0); // over budget now
}

#[test]
fn token_bucket_refills_over_virtual_time() {
    let mut b = TokenBucket::new(1000, 0);
    b.spend(0, 1000); // drain the bucket
    assert_eq!(b.spend(500, 500), 0, "half a second at 1000 B/s refills 500 B");
    assert!(b.spend(500, 1) > 0, "and no more than that");
}

#[test]
fn token_bucket_reports_a_sensible_wait() {
    let mut b = TokenBucket::new(1000, 0);
    b.spend(0, 1000);
    let wait = b.spend(0, 500); // need 500 B at 1 B/ms
    assert_eq!(wait, 500);
}

#[test]
fn token_bucket_never_exceeds_capacity() {
    let mut b = TokenBucket::new(1000, 0);
    assert_eq!(b.spend(1_000_000, 1000), 0); // huge idle gap, still capped at burst
    assert!(b.spend(1_000_000, 1) > 0);
}

/// A fraction as the millionths that settings are kept in.
fn millionths(fraction: f64) -> u32 {
    (fraction * 1_000_000.0) as u32
}

#[test]
fn duty_cycle_half_means_equal_idle_and_work() {
    let d = DutyCycle::new(millionths(0.5));
    assert_eq!(d.idle_after(100), 100);
}

#[test]
fn duty_cycle_full_never_idles() {
    let d = DutyCycle::new(millionths(1.0));
    assert_eq!(d.idle_after(1000), 0);
}

#[test]
fn duty_cycle_small_fraction_idles_much_longer_than_it_works() {
    let d = DutyCycle::new(millionths(0.1));
    assert_eq!(d.idle_after(100), 900); // 10% duty: 9x idle per unit of work
}

#[test]
fn duty_cycle_clamps_to_a_sane_range() {
    assert_eq!(
        DutyCycle::new(millionths(0.0)).idle_after(100),
        DutyCycle::new(millionths(0.01)).idle_after(100)
    );
    assert_eq!(DutyCycle::new(millionths(5.0)).idle_after(100), 0);
}

fn governor(rate: u64) -> Governor {
    Governor::new(rate, 1_000_000, 0)
}

#[test]
fn power_signal_overrides_the_byte_budget() {
    // Effectively unlimited.
    let mut g = governor(1_000_000_000);
    assert_eq!(g.throttle(true, false, 0, 1), POWER_BACKOFF_MS);
    let mut g2 = governor(1_000_000_000);
    assert_eq!(g2.throttle(false, true, 0, 1), POWER_BACKOFF_MS);
}

#[test]
fn no_power_signal_falls_through_to_the_byte_budget() {
    let mut g = governor(100);
    assert_eq!(g.throttle(false, false, 0, 100), 0); // within the burst
    assert!(g.throttle(false, false, 0, 1) > 0); // now over budget
    assert_eq!(Governor::new(1, 250_000, 0).after_cpu_work(10), 30);
}

#[test]
fn power_supplies_and_memory_are_read() {
    assert!(is_battery("BAT0") && !is_battery("AC"));
    assert!(is_discharging("Discharging\n") && !is_discharging("Charging\n"));
    assert!(memory_pressure("MemTotal: 1000 kB\nMemFree: 1 kB\nMemAvailable: 50 kB\n"));
    assert!(!memory_pressure("MemTotal: 1000 kB\nMemAvailable: 500 kB\n"));
    assert!(!memory_pressure("nothing of the kind"));
}

// Injected faults.

#[test]
fn fault_fs_logs_and_injects() {
    let mut clean = FaultFs::new(FaultPlan::default());
    assert_eq!(clean.op("create f"), None);
    assert_eq!(clean.write("/d/f", "f"), Ok(true));
    assert_eq!(clean.sync("/d/f", "f"), None);
    assert_eq!(clean.op("close f"), None);
    assert_eq!(clean.log, vec!["create f", "write f", "sync f", "close f"]);
    assert_eq!((clean.op_count(), clean.write_count(), clean.sync_count()), (4, 1, 1));
    clean.reset();
    assert!(clean.log().is_empty() && clean.op_count() == 0);

    // Failed write.
    let mut s = FaultFs::new(FaultPlan { fail_write: Some(1), ..Default::default() });
    assert_eq!(s.write("/d/f", "f"), Err(Fault::Write));

    // Discarded write: the write succeeds, the sync fails.
    let mut s = FaultFs::new(FaultPlan { discard_write: Some(1), ..Default::default() });
    assert_eq!(s.write("/d/f", "f"), Ok(false));
    assert_eq!(s.sync("/d/f", "f"), Some(Fault::Writeback));

    // Failed sync (counting dir syncs too).
    let mut s = FaultFs::new(FaultPlan::default());
    s.set_plan(FaultPlan { fail_sync: Some(2), ..Default::default() });
    assert_eq!(s.sync("/d/f", "f"), None);
    assert_eq!(s.sync_dir("."), Some(Fault::DirSync));
    assert_eq!(Fault::DirSync.message(), "injected fault: dir sync failed");

    // Crash: the op fails and everything after it fails.
    let mut s = FaultFs::new(FaultPlan { crash_at_op: Some(2), ..Default::default() });
    assert_eq!(s.op("create f"), None);
    assert_eq!(s.write("/d/f", "f"), Err(Fault::Crash));
    assert_eq!(s.sync("/d/f", "f"), Some(Fault::Dead));
    assert_eq!(s.op("rename f -> g"), Some(Fault::Dead));
    assert!(s.log.iter().any(|l| l.starts_with("CRASH before: write f")));
}
