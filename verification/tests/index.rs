//! The index in memory: document tables, posting lists and the builder.

use ripindex::crawler::{
    crawl_stats, kind_of, sort_by_path, CrawlConfig, CrawledFile, FileEntry, FileKind,
};
use ripindex::index::builder::{
    decode_text, doc_meta, hash_bytes, index_document, index_shard, merge, Content, Outcome,
};
use ripindex::index::doc_table::table_heap_of;
use ripindex::index::memory::{
    heap_of, store_heap_of, MemPostingList, Posting, TermEntry, TermMap,
};
use ripindex::index::{
    BuildConfig, DocId, DocMeta, DocStatus, DocTable, IndexBuilder, IndexReader, MemIndex,
    MemTermStore, Position, PostingCursor, PostingList, SegmentReader, TermStore,
};

// Document tables.

fn meta(name: &str) -> DocMeta {
    DocMeta {
        path: name.to_string(),
        inode: 0,
        mtime: 0,
        size: 0,
        len: 0,
        status: DocStatus::Skipped,
        content_hash: 0,
    }
}

fn avg_len(t: &DocTable) -> f32 {
    if t.indexed_count() == 0 {
        0.0
    } else {
        t.total_len() as f32 / t.indexed_count() as f32
    }
}

#[test]
fn insert_get_iter() {
    let mut t = DocTable::new();
    t.insert(0, meta("a"));
    t.insert(1, meta("b"));
    assert_eq!(t.len(), 2);
    assert_eq!(t.get(1).unwrap().path, "b");
    assert!(t.get(2).is_none());
    let ids: Vec<DocId> = t.iter().iter().map(|(id, _)| *id).collect();
    assert_eq!(ids, vec![0, 1]);
}

#[test]
fn holes_are_normal() {
    let mut t = DocTable::new();
    t.insert(5, meta("e")); // gap 0..5 never assigned
    t.insert(2, meta("c"));
    assert_eq!(t.len(), 2);
    assert_eq!(t.id_bound(), 6);
    assert!(t.get(0).is_none());
    assert!(t.get(3).is_none());
    let ids: Vec<DocId> = t.iter().iter().map(|(id, _)| *id).collect();
    assert_eq!(ids, vec![2, 5]);
}

#[test]
fn mark_indexed_and_averages() {
    let mut t = DocTable::new();
    t.insert(0, meta("a"));
    t.insert(1, meta("b"));
    t.insert(2, meta("c"));
    assert_eq!(t.indexed_count(), 0);
    assert_eq!(avg_len(&t), 0.0);

    t.mark_indexed(0, 10);
    t.mark_indexed(2, 30);
    assert_eq!(t.indexed_count(), 2);
    assert_eq!(avg_len(&t), 20.0);
    assert_eq!(t.get(1).unwrap().status, DocStatus::Skipped);
    assert_eq!(t.get(2).unwrap().status, DocStatus::Indexed);

    // Re-marking replaces the old length rather than adding to it.
    t.mark_indexed(2, 50);
    assert_eq!(t.indexed_count(), 2);
    assert_eq!(avg_len(&t), 30.0);
}

#[test]
fn set_status_and_hash() {
    let mut t = DocTable::new();
    t.insert(0, meta("a.png"));
    t.set_status(0, DocStatus::Binary);
    assert_eq!(t.get(0).unwrap().status, DocStatus::Binary);
    assert_eq!(t.indexed_count(), 0);

    t.insert(1, meta("b.txt"));
    t.mark_indexed(1, 5);
    t.set_status(1, DocStatus::TooLarge); // e.g. grew past the limit on reconcile
    assert_eq!(t.get(1).unwrap().status, DocStatus::TooLarge);
    assert_eq!(t.get(1).unwrap().len, 0);
    assert_eq!(t.indexed_count(), 0);
    assert_eq!(avg_len(&t), 0.0);

    t.set_hash(0, 0xabc);
    assert_eq!(t.get(0).unwrap().content_hash, 0xabc);
}

#[test]
fn remove_leaves_hole_and_fixes_counts() {
    let mut t = DocTable::new();
    t.insert(0, meta("a"));
    t.insert(1, meta("b"));
    t.insert(2, meta("c"));
    t.mark_indexed(0, 10);
    t.mark_indexed(1, 20);
    t.mark_indexed(2, 30);

    let removed = t.remove(1).unwrap();
    assert_eq!(removed.path, "b");
    assert!(t.get(1).is_none());
    assert_eq!(t.len(), 2);
    assert_eq!(t.id_bound(), 3); // id space does not shrink
    assert_eq!(t.indexed_count(), 2);
    assert_eq!(avg_len(&t), 20.0);
    let ids: Vec<DocId> = t.iter().iter().map(|(id, _)| *id).collect();
    assert_eq!(ids, vec![0, 2]);

    assert!(t.remove(1).is_none()); // already a hole
    assert!(t.remove(99).is_none()); // never existed
}

#[test]
fn entries_become_unindexed_documents() {
    let e = FileEntry { path: "p".to_string(), inode: 3, mtime: 4, size: 5 };
    let m = DocMeta::from_entry(e.clone());
    assert_eq!((m.path.as_str(), m.inode, m.mtime, m.size, m.len), ("p", 3, 4, 5, 0));
    assert_eq!(m.status, DocStatus::Skipped);
    let o = Outcome { status: DocStatus::Indexed, len: 8, content_hash: 9 };
    let m = doc_meta(&e, o);
    assert_eq!((m.status, m.len, m.content_hash), (DocStatus::Indexed, 8, 9));
    assert!(DocStatus::Indexed.was_read() && DocStatus::Skipped.was_read());
    assert!(!DocStatus::Binary.was_read() && !DocStatus::TooLarge.was_read());
}

#[test]
fn table_memory_is_counted() {
    let mut t = DocTable::new();
    let empty = t.heap_bytes();
    t.insert(0, meta("some/path/or/other.txt"));
    assert!(t.heap_bytes() >= empty + "some/path/or/other.txt".len());
}

#[test]
fn a_table_is_counted_by_its_slots_and_paths() {
    let slot = std::mem::size_of::<Option<DocMeta>>();
    assert_eq!(table_heap_of(0, &[]), 0);
    assert_eq!(table_heap_of(4, &[7, 0, 12]), 4 * slot + 19);
    assert_eq!(table_heap_of(1, &[usize::MAX, 1]), usize::MAX);
}

// Posting lists in memory.

fn list(docs: &[(DocId, &[Position])]) -> MemPostingList {
    let mut l = MemPostingList::default();
    for (d, ps) in docs {
        for &p in *ps {
            l.push(*d, p);
        }
    }
    l
}

fn docs<C: PostingCursor>(mut c: C) -> Vec<DocId> {
    let mut out = vec![];
    while let Some(d) = c.doc() {
        out.push(d);
        c.advance();
    }
    out
}

#[test]
fn push_groups_positions_by_doc_and_dedups_repeats() {
    let mut l = MemPostingList::default();
    l.push(3, 0);
    l.push(3, 0); // identifier part at the same slot
    l.push(3, 5);
    l.push(7, 1);
    assert_eq!(
        l.as_slice(),
        &[Posting { doc: 3, positions: vec![0, 5] }, Posting { doc: 7, positions: vec![1] }]
    );
    assert_eq!(l.doc_freq(), 2);
}

#[test]
fn cursor_walks_in_order_and_exhausts() {
    let l = list(&[(1, &[0]), (4, &[2, 3]), (9, &[1])]);
    assert_eq!(docs(l.cursor()), vec![1, 4, 9]);
    let mut c = l.cursor();
    c.advance();
    assert_eq!(c.positions(), &[2, 3]);
    assert_eq!(c.term_freq(), 2);
    c.advance();
    c.advance();
    assert_eq!(c.doc(), None);
    assert_eq!(c.advance(), None); // stays exhausted
}

#[test]
fn empty_list_cursor_is_exhausted() {
    let l = MemPostingList::default();
    let mut c = l.cursor();
    assert_eq!(c.doc(), None);
    assert_eq!(c.seek(0), None);
}

#[test]
fn seek_semantics() {
    let ids: Vec<DocId> = (0..200).map(|i| i * 3).collect(); // 0,3,6,...,597
    let l = list(&ids.iter().map(|&d| (d, &[0u32][..])).collect::<Vec<_>>());

    let mut c = l.cursor();
    assert_eq!(c.seek(0), Some(0)); // already there
    assert_eq!(c.seek(4), Some(6)); // between → next
    assert_eq!(c.seek(6), Some(6)); // no-op when current >= target
    assert_eq!(c.seek(2), Some(6)); // never moves backwards
    assert_eq!(c.seek(300), Some(300)); // exact, far away (gallop)
    assert_eq!(c.seek(596), Some(597)); // near the end
    assert_eq!(c.seek(598), None); // past the end
    assert_eq!(c.doc(), None);
}

#[test]
fn seek_every_target_matches_linear_scan() {
    let ids: Vec<DocId> = [1u32, 2, 5, 8, 13, 21, 34, 55, 89, 144, 233, 377].to_vec();
    let l = list(&ids.iter().map(|&d| (d, &[0u32][..])).collect::<Vec<_>>());
    for start in 0..ids.len() {
        for target in 0..400u32 {
            let mut c = l.cursor();
            for _ in 0..start {
                c.advance();
            }
            let expected = ids.iter().copied().find(|&d| d >= ids[start] && d >= target);
            assert_eq!(c.seek(target), expected, "start={start} target={target}");
        }
    }
}

#[test]
fn append_concatenates() {
    let mut a = list(&[(1, &[0]), (2, &[1])]);
    let b = list(&[(5, &[0]), (8, &[1])]);
    a.append(b);
    assert_eq!(docs(a.cursor()), vec![1, 2, 5, 8]);
}

#[test]
fn merge_shard_appends_existing_terms_and_adds_new() {
    let mut store = MemTermStore::default();
    let mut s1 = TermMap::new();
    s1.insert("foo".to_string(), list(&[(0, &[0]), (1, &[0])]));
    s1.insert("bar".to_string(), list(&[(1, &[1])]));
    let mut s2 = TermMap::new();
    s2.insert("foo".to_string(), list(&[(2, &[0])]));
    s2.insert("baz".to_string(), list(&[(3, &[0])]));
    store.merge_shard(s1);
    store.merge_shard(s2);

    assert_eq!(store.term_count(), 3);
    assert_eq!(docs(store.get("foo").unwrap().cursor()), vec![0, 1, 2]);
    assert_eq!(docs(store.get("bar").unwrap().cursor()), vec![1]);
    assert_eq!(docs(store.get("baz").unwrap().cursor()), vec![3]);
    assert!(store.get("nope").is_none());
    assert_eq!(store.total_postings(), 5);
}

#[test]
fn reference_is_a_posting_list() {
    fn df<L: PostingList>(l: L) -> u32 {
        l.doc_freq()
    }
    let l = list(&[(1, &[0])]);
    assert_eq!(df(&l), 1);
    assert_eq!(df(&l), 1);
}

#[test]
fn memory_accounting_is_positive_and_grows() {
    let mut store = MemTermStore::default();
    let base = store.memory_bytes();
    let mut s = TermMap::new();
    for i in 0..1000 {
        s.insert(format!("term{i}"), list(&[(i, &[0, 1, 2])]));
    }
    store.merge_shard(s);
    assert!(store.memory_bytes() > base + 1000 * 3 * size_of::<Position>());
}

#[test]
fn reserved_postings_positions_and_terms_are_summed() {
    let (posting, position) = (std::mem::size_of::<Posting>(), std::mem::size_of::<Position>());
    assert_eq!(heap_of(0, &[]), 0);
    assert_eq!(heap_of(4, &[1, 8, 4]), 4 * posting + 13 * position);
    assert_eq!(heap_of(1, &[usize::MAX, usize::MAX]), usize::MAX);

    let own = std::mem::size_of::<MemTermStore>();
    let entry = std::mem::size_of::<TermEntry>();
    assert_eq!(store_heap_of(0, &[], &[]), own);
    assert_eq!(store_heap_of(8, &[3, 5], &[100, 40]), own + 8 * entry + 148);

    // Nothing is reserved before the first posting.
    assert_eq!(MemPostingList::default().heap_bytes(), 0);
    assert_eq!((&MemTermStore::default()).memory_bytes(), own);
    assert_eq!(DocTable::new().heap_bytes(), 0);
}

#[test]
fn a_list_takes_another_where_they_stay_in_order() {
    let mut l = list(&[(1, &[0]), (4, &[2, 3])]);
    assert!(l.try_append(list(&[(4, &[3, 7]), (9, &[0])])));
    assert_eq!(l, list(&[(1, &[0]), (4, &[2, 3, 7]), (9, &[0])]));
    assert!(l.try_append(list(&[(9, &[5])])));
    assert!(l.try_append(MemPostingList::default()));
    assert_eq!(l, list(&[(1, &[0]), (4, &[2, 3, 7]), (9, &[0, 5])]));
    // A document or a position that comes too late.
    assert!(!l.try_append(list(&[(8, &[0])])));
    assert!(!l.try_append(list(&[(9, &[4])])));
    assert_eq!(l, list(&[(1, &[0]), (4, &[2, 3, 7]), (9, &[0, 5])]));

    let mut m = TermMap::new();
    assert!(m.try_append("x", list(&[(2, &[1])])));
    assert!(m.try_append("x", list(&[(3, &[0])])));
    assert!(!m.try_append("x", list(&[(1, &[0])])));
    assert_eq!(m.get("x"), Some(&list(&[(2, &[1]), (3, &[0])])));
}

#[test]
fn term_maps_keep_terms_in_first_use_order() {
    let mut m = TermMap::new();
    assert!(m.is_empty());
    m.push("b", 0, 0);
    m.push("a", 0, 1);
    m.push("b", 2, 7);
    assert_eq!(m.len(), 2);
    assert_eq!((m.term(0), m.term(1)), ("b", "a"));
    assert_eq!(docs(m.list(0).cursor()), vec![0, 2]);
    assert!(m.get("c").is_none());
}

#[test]
fn a_store_is_a_term_store_by_reference() {
    fn count<S: TermStore>(s: S) -> usize {
        s.term_count()
    }
    let mut store = MemTermStore::default();
    let mut s = TermMap::new();
    s.push("x", 1, 1);
    store.merge_shard(s);
    assert_eq!(count(&store), 1);
    let listed: Vec<&str> = store.iter().iter().map(|(t, _)| *t).collect();
    assert_eq!(listed, vec!["x"]);
}

// Building.

fn docs_of(index: &MemIndex, term: &str) -> Vec<DocId> {
    let reader = &index;
    match SegmentReader::postings(reader, term) {
        Some(l) => docs(PostingList::cursor(&l)),
        None => vec![],
    }
}

#[test]
fn index_document_records_positions_and_length() {
    let mut terms = TermMap::new();
    let (len, n) = index_document(7, "foo bar_baz foo", &mut terms);
    assert_eq!(len, 3); // three atoms
    assert_eq!(n, 5); // foo, bar_baz, bar, baz, foo
    let foo = terms.get("foo").unwrap();
    assert_eq!(foo.as_slice()[0].doc, 7);
    assert_eq!(foo.as_slice()[0].positions, vec![0, 2]);
    assert_eq!(terms.get("bar").unwrap().as_slice()[0].positions, vec![1]);
    assert_eq!(terms.get("bar_baz").unwrap().as_slice()[0].positions, vec![1]);
}

#[test]
fn repeated_parts_never_repeat_a_position() {
    let mut terms = TermMap::new();
    index_document(1, "foo_foo x_x getFooFoo Foo_foo_FOO a_a_a", &mut terms);
    for i in 0..terms.len() {
        let term = terms.term(i);
        for p in terms.list(i).as_slice() {
            assert!(p.positions.windows(2).all(|w| w[0] < w[1]), "{term}: {:?}", p.positions);
        }
    }
    assert_eq!(terms.get("foo").unwrap().as_slice()[0].positions, vec![0, 2, 3]);
    assert_eq!(terms.get("x").unwrap().as_slice()[0].positions, vec![1]);
    assert_eq!(terms.get("a").unwrap().as_slice()[0].positions, vec![4]);
}

#[test]
fn texts_lose_their_byte_order_mark_and_must_be_utf_8() {
    assert_eq!(decode_text(b"\xEF\xBB\xBFhello"), Ok("hello".to_string()));
    assert_eq!(decode_text("é".as_bytes()), Ok("é".to_string()));
    assert!(decode_text(b"ok \xFF\xFE bad").is_err());
}

#[test]
fn hash_is_stable_and_sensitive_to_a_single_byte() {
    assert_eq!(hash_bytes(b"hello"), hash_bytes(b"hello"));
    assert_ne!(hash_bytes(b"hello"), hash_bytes(b"hellp"));
    assert_ne!(hash_bytes(b"hello"), hash_bytes(b"hello\n")); // trailing newline changes it
}

#[test]
fn hash_is_the_published_64_bit_xxh3() {
    assert_eq!(hash_bytes(b""), 0x2d06_8005_38d3_94c2);
}

fn entry(name: &str, size: usize) -> FileEntry {
    FileEntry { path: name.to_string(), inode: 0, mtime: 0, size: size as u64 }
}

#[test]
fn build_merges_shards_in_doc_order_and_skips_unreadable() {
    let contents: [&[u8]; 5] =
        [b"alpha beta", b"beta gamma", b"\xFF\xFE not utf8", b"alpha", b"gamma alpha"];
    let files: Vec<FileEntry> =
        contents.iter().enumerate().map(|(i, c)| entry(&format!("f{i}.txt"), c.len())).collect();
    let read: Vec<Content> = contents.iter().map(|c| Content::Bytes(c.to_vec())).collect();

    // shard_size 2 → shards {0,1}, {2,3}, {4}
    let index = IndexBuilder::new(BuildConfig { shard_size: 2, ..Default::default() })
        .build(&files, &read);

    assert_eq!(index.docs().len(), 5);
    assert_eq!(index.docs().indexed_count(), 4);
    assert_eq!(index.docs().get(2).unwrap().status, DocStatus::Skipped);
    assert_eq!(index.docs().get(2).unwrap().len, 0);
    // The hash is recorded even though the text could not be decoded.
    assert_ne!(index.docs().get(2).unwrap().content_hash, 0);
    assert_eq!(index.docs().get(0).unwrap().len, 2);
    assert_eq!(index.docs().get(0).unwrap().content_hash, hash_bytes(b"alpha beta"));
    assert_eq!(index.stats().docs_skipped, 1);
    assert_eq!(index.stats().docs_indexed, 4);

    assert_eq!(docs_of(&index, "alpha"), vec![0, 3, 4]); // spans all three shards
    assert_eq!(docs_of(&index, "beta"), vec![0, 1]);
    assert_eq!(docs_of(&index, "gamma"), vec![1, 4]);
    assert_eq!(docs_of(&index, "not"), Vec::<DocId>::new()); // skipped doc contributes nothing
    assert_eq!(index.stats().unique_terms, 3);
    assert_eq!(index.stats().total_tokens, 7);
    assert_eq!(index.stats().total_postings, 7);
    assert!(index.stats().memory_bytes > 0);
}

#[test]
fn binary_and_too_large_are_recorded_without_reading() {
    let files = vec![entry("a.txt", 5), entry("b.bin", 2), entry("c.big", 1)];
    let read = vec![Content::Bytes(b"alpha".to_vec()), Content::Binary, Content::TooLarge];
    let index = IndexBuilder::new(BuildConfig::default()).build(&files, &read);
    assert_eq!(index.docs().len(), 3);
    assert_eq!(index.docs().indexed_count(), 1);
    assert_eq!(index.docs().get(1).unwrap().status, DocStatus::Binary);
    assert_eq!(index.docs().get(1).unwrap().content_hash, 0);
    assert_eq!(index.docs().get(2).unwrap().status, DocStatus::TooLarge);
}

#[test]
fn build_assigns_ids_in_path_order_and_records_skipped_docs() {
    let tree: [(&str, Vec<u8>); 8] = [
        (
            "src/main.rs",
            b"fn main() {\n    parse_http_response();\n}\n\n\
            fn parse_http_response() -> HttpResponse {\n    HttpResponse::default()\n}\n"
                .to_vec(),
        ),
        (
            "src/lib.rs",
            "pub struct HttpResponse;\n\npub fn snake_case_name() {}\n\
            // na\u{ef}ve caf\u{e9} r\u{e9}sum\u{e9}\n"
                .as_bytes()
                .to_vec(),
        ),
        (".gitignore", b"ignored/\n*.log\n".to_vec()),
        ("README.md", b"# Project\n\nThis is a test project. Hello world.\n".to_vec()),
        (".hidden/notes.txt", b"hidden hello".to_vec()),
        ("big.txt", "hello world ".repeat(20).into_bytes()),
        ("bad_utf8.txt", b"hello \xFF\xFE world".to_vec()),
        ("bin.dat", b"\x00\x01\x02hello world".to_vec()),
    ];
    let cfg = CrawlConfig::default();
    let crawled = tree
        .iter()
        .map(|(name, bytes)| CrawledFile {
            entry: entry(name, bytes.len()),
            kind: kind_of(bytes.len() as u64, bytes, &cfg),
        })
        .collect();
    let crawled = sort_by_path(crawled);
    let stats = crawl_stats(&crawled, 8, 0);
    let contents: Vec<Content> = crawled
        .iter()
        .map(|f| match f.kind {
            FileKind::Binary => Content::Binary,
            FileKind::TooLarge => Content::TooLarge,
            FileKind::Text => {
                let read = tree.iter().find(|(name, _)| *name == f.entry.path).unwrap();
                Content::Bytes(read.1.clone())
            }
        })
        .collect();
    let files: Vec<FileEntry> = crawled.into_iter().map(|f| f.entry).collect();
    let index = IndexBuilder::new(BuildConfig { shard_size: 2, ..Default::default() })
        .build(&files, &contents);

    // A binary file is recorded too, and counts with no postings.
    assert_eq!(index.docs().len(), 8);
    assert_eq!(index.docs().id_bound(), 8);
    let entries: Vec<(DocId, String, DocStatus)> = index
        .docs()
        .iter()
        .into_iter()
        .map(|(id, m)| (id, m.path.clone(), m.status))
        .collect();
    let ids: Vec<DocId> = entries.iter().map(|e| e.0).collect();
    assert_eq!(ids, (0..8).collect::<Vec<_>>());
    assert!(entries.windows(2).all(|w| w[0].1 < w[1].1), "{entries:?}");

    let bad = entries.iter().find(|e| e.1 == "bad_utf8.txt").unwrap();
    assert_eq!(bad.2, DocStatus::Skipped);
    let binary = entries.iter().find(|e| e.1 == "bin.dat").unwrap();
    assert_eq!(binary.2, DocStatus::Binary);
    assert_eq!(entries.iter().filter(|e| e.2 == DocStatus::Indexed).count(), 6);
    assert_eq!(index.docs().indexed_count(), 6);

    let s = index.stats();
    assert_eq!(s.docs_total, 8);
    assert_eq!(s.docs_indexed, 6);
    assert_eq!(s.docs_skipped, 2); // bad_utf8.txt and bin.dat
    assert_eq!(stats.indexable, 7); // texts only
    assert!(s.unique_terms > 0 && s.total_tokens >= s.total_postings && s.total_postings > 0);
    assert!(s.memory_bytes > 0);
}

#[test]
fn empty_build() {
    let index = IndexBuilder::new(BuildConfig::default()).build(&[], &[]);
    assert!(index.docs().is_empty());
    assert_eq!(index.terms().term_count(), 0);
    assert_eq!(avg_len(index.docs()), 0.0);
}

#[test]
fn unreadable_files_are_skipped_without_a_hash() {
    let index = IndexBuilder::new(BuildConfig::default())
        .build(&[entry("gone", 1)], &[Content::Unreadable]);
    let d = index.docs().get(0).unwrap();
    assert_eq!((d.status, d.content_hash, d.len), (DocStatus::Skipped, 0, 0));
}

#[test]
fn shards_merge_in_order() {
    let a = index_shard(0, &[Content::Bytes(b"x y".to_vec())]);
    let b = index_shard(1, &[Content::Bytes(b"y".to_vec()), Content::Binary]);
    assert_eq!((a.tokens, b.tokens), (2, 1));
    assert_eq!(b.outcomes.len(), 2);
    let store = merge(vec![a, b]);
    assert_eq!(docs(store.get("y").unwrap().cursor()), vec![0, 1]);
    assert_eq!(store.term_count(), 2);
}

#[test]
fn a_memory_index_reads_as_one_segment() {
    let index = IndexBuilder::new(BuildConfig::default()).build(
        &[entry("a", 1), entry("b", 3)],
        &[Content::Bytes(b"one".to_vec()), Content::Bytes(b"two two three".to_vec())],
    );
    let reader = &index;
    assert_eq!(reader.indexed_count(), 2);
    assert_eq!(reader.avg_len(), (4, 2));
    assert_eq!(reader.doc(1).unwrap().path, "b");
    assert!(reader.doc(2).is_none());
    let segments = reader.segments();
    assert_eq!(segments.len(), 1);
    assert_eq!((segments[0].base(), segments[0].num_docs()), (0, 2));
    assert_eq!(SegmentReader::doc_len(&segments[0], 1), Some(3));
    let (docs, terms, stats) = index.into_parts();
    assert_eq!((docs.len(), terms.term_count(), stats.docs_total), (2, 3, 2));
}
