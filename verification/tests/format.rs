//! The file formats: what is written is read back, and damage is noticed.

use ripindex::format::del::{self, Bitmap, DelView};
use ripindex::format::doc::{self, DocIn, DocKind, DocTableView};
use ripindex::format::envelope::{
    crc, footer, header, parse, parse_verified, seal, verify_crc, BodyWriter, Kind, FORMAT_VERSION,
};
use ripindex::format::heap::path_at;
use ripindex::format::idx::{self, IdxView, MAX_TERM_BYTES, TOC_LEN};
use ripindex::format::manifest::{Manifest, SegmentEntry};
use ripindex::format::overlay::{self, OverlayView, PatchIn};
use ripindex::format::postings::{encode_postings, DiskCursor, DiskPostingList};
use ripindex::format::varint::{put_u32, put_u64, read_u32, read_u64};
use ripindex::format::{read_i64_le, read_u32_le, read_u64_le, slice, to_usize, FormatError};
use ripindex::index::{DocId, DocStatus, Position, PostingCursor, PostingList};

// Variable-length integers.

fn roundtrip(v: u64) -> usize {
    let mut buf = Vec::new();
    put_u64(&mut buf, v);
    let mut pos = 0;
    assert_eq!(read_u64(&buf, &mut pos).unwrap(), v);
    assert_eq!(pos, buf.len());
    buf.len()
}

#[test]
fn edges() {
    assert_eq!(roundtrip(0), 1);
    assert_eq!(roundtrip(127), 1);
    assert_eq!(roundtrip(128), 2);
    assert_eq!(roundtrip(16_383), 2);
    assert_eq!(roundtrip(16_384), 3);
    assert_eq!(roundtrip(u32::MAX as u64), 5);
    assert_eq!(roundtrip(u64::MAX), 10);
}

#[test]
fn u32_rejects_larger() {
    let mut buf = Vec::new();
    put_u64(&mut buf, u32::MAX as u64 + 1);
    assert!(matches!(read_u32(&buf, &mut 0), Err(FormatError::Corrupt(_))));
}

#[test]
fn truncated_and_overlong() {
    assert!(matches!(read_u64(&[0x80], &mut 0), Err(FormatError::Truncated { .. })));
    assert!(matches!(read_u64(&[], &mut 0), Err(FormatError::Truncated { .. })));
    // 11 continuation bytes.
    let bad = [0x80u8; 11];
    assert!(matches!(read_u64(&bad, &mut 0), Err(FormatError::Corrupt(_))));
    // 10th byte carries more than one bit.
    let mut over = vec![0xffu8; 9];
    over.push(0x02);
    assert!(matches!(read_u64(&over, &mut 0), Err(FormatError::Corrupt(_))));
}

#[test]
fn sequence() {
    let mut buf = Vec::new();
    for v in [1u64, 300, 70_000, 5] {
        put_u64(&mut buf, v);
    }
    let mut pos = 0;
    let got: Vec<u64> = (0..4).map(|_| read_u64(&buf, &mut pos).unwrap()).collect();
    assert_eq!(got, vec![1, 300, 70_000, 5]);
    assert_eq!(pos, buf.len());
}

#[test]
fn varint_bytes_are_little_endian_groups_of_seven() {
    let mut buf = Vec::new();
    put_u32(&mut buf, 300);
    assert_eq!(buf, vec![0xac, 0x02]);
    let mut pos = 0;
    assert_eq!(read_u32(&buf, &mut pos), Ok(300));
    assert_eq!(pos, 2);
}

#[test]
fn fixed_width_reads() {
    let b = [1u8, 0, 0, 0, 2, 0, 0, 0, 0xff];
    assert_eq!(read_u32_le(&b, 4), Ok(2));
    assert_eq!(read_u64_le(&b, 0), Ok(0x2_0000_0001));
    assert_eq!(read_u32_le(&b, 6), Err(FormatError::Truncated { at: 6, needed: 4 }));
    assert_eq!(slice(&b, 8, 1), Ok(&[0xffu8][..]));
    assert_eq!(slice(&b, 9, 1), Err(FormatError::Truncated { at: 9, needed: 1 }));
    assert_eq!(read_i64_le(&[0xff; 8], 0), Ok(-1));
    assert_eq!(to_usize(77), Ok(77));
}

#[test]
fn format_error_messages() {
    assert_eq!(FormatError::BadMagic.message(), "bad magic");
    assert_eq!(FormatError::corrupt("oops").message(), "corrupt: oops");
    assert_eq!(
        FormatError::Truncated { at: 3, needed: 8 }.message(),
        "truncated: needed 8 bytes at offset 3"
    );
    assert_eq!(FormatError::Version(9).message(), "unsupported format version 9");
    assert_eq!(
        FormatError::Checksum { stored: 0xab, computed: 0xdead_beef }.message(),
        "checksum mismatch: stored 000000ab, computed deadbeef"
    );
    assert_eq!(FormatError::Invariant("x").message(), "encoder invariant violated: x");
}

// Envelopes.

#[test]
fn seal_and_parse() {
    let file = seal(Kind::Doc, b"body bytes");
    assert_eq!(file.len(), 32 + 10);
    let env = parse_verified(Kind::Doc, &file).unwrap();
    assert_eq!(&file[env.body.clone()], b"body bytes");
    assert_eq!(env.crc, crc(b"body bytes"));
    // Empty body is legal.
    let empty = seal(Kind::Del, b"");
    assert_eq!(parse_verified(Kind::Del, &empty).unwrap().body, 16..16);
}

#[test]
fn streaming_matches_seal() {
    let mut out = Vec::new();
    out.extend_from_slice(&header(Kind::Idx));
    let mut w = BodyWriter::new(out);
    assert!(w.is_empty());
    w.write_all(b"body ");
    w.write_all(b"bytes");
    assert_eq!(w.len(), 10);
    let (mut out, len, c) = w.finish();
    out.extend_from_slice(&footer(len, c));
    assert_eq!(out, seal(Kind::Idx, b"body bytes"));
}

#[test]
fn rejections() {
    let good = seal(Kind::Doc, b"xyz");
    assert!(matches!(parse(Kind::Idx, &good), Err(FormatError::BadMagic)));
    assert!(matches!(parse(Kind::Doc, &good[..20]), Err(FormatError::Truncated { .. })));

    let mut v = good.clone();
    v[8] = 99;
    assert!(matches!(parse(Kind::Doc, &v), Err(FormatError::Version(99))));

    let mut f = good.clone();
    f[12] = 1;
    assert!(matches!(parse(Kind::Doc, &f), Err(FormatError::Corrupt(_))));

    let mut short = good.clone();
    short.truncate(good.len() - 1); // footer magic damaged
    assert!(matches!(parse(Kind::Doc, &short), Err(FormatError::Corrupt(_))));

    let mut trunc = good.clone();
    trunc.remove(17); // body shorter than body_len claims
    assert!(matches!(parse(Kind::Doc, &trunc), Err(FormatError::Corrupt(_))));

    let mut flipped = good.clone();
    flipped[17] ^= 0xff;
    assert!(parse(Kind::Doc, &flipped).is_ok());
    assert!(matches!(parse_verified(Kind::Doc, &flipped), Err(FormatError::Checksum { .. })));
}

#[test]
fn checksum_is_the_crc_32_of_the_body() {
    assert_eq!(crc(b"123456789"), 0xcbf4_3926);
    assert_eq!(crc(b""), 0);
    let mut file = seal(Kind::Del, b"123456789");
    let env = parse(Kind::Del, &file).unwrap();
    assert_eq!(env.crc, 0xcbf4_3926);
    assert_eq!(verify_crc(&file, &env), Ok(()));
    file[16] = b'0';
    assert!(matches!(
        verify_crc(&file, &env),
        Err(FormatError::Checksum { stored: 0xcbf4_3926, .. })
    ));
    assert_eq!(&file[8..12], &FORMAT_VERSION.to_le_bytes());
}

// Deletion bitmaps.

#[test]
fn del_roundtrip() {
    let mut b = Bitmap::new(13);
    assert!(b.set(0));
    assert!(b.set(12));
    assert!(!b.set(12));
    assert!(!b.set(13)); // out of range, ignored
    assert_eq!(b.count(), 2);
    let bytes = b.encode();
    assert_eq!(bytes.len(), 32 + 8 + 2);
    let v = DelView::parse_verified(&bytes).unwrap();
    assert_eq!((v.num_docs(), v.num_deleted()), (13, 2));
    assert!(v.is_deleted(0) && v.is_deleted(12));
    assert!(!v.is_deleted(1) && !v.is_deleted(13) && !v.is_deleted(1000));
    assert_eq!(v.to_bitmap(), b);
}

#[test]
fn empty_and_zero_docs() {
    let bytes = Bitmap::new(0).encode();
    let v = DelView::parse_verified(&bytes).unwrap();
    assert_eq!(v.num_deleted(), 0);
    assert!(!v.is_deleted(0));
}

#[test]
fn del_corruption() {
    let mut b = Bitmap::new(9);
    b.set(3);
    let bytes = b.encode();
    let mut flipped = bytes.clone();
    flipped[16 + 8] ^= 0x10;
    assert!(matches!(DelView::parse_verified(&flipped), Err(FormatError::Checksum { .. })));

    // Popcount mismatch with a "repaired" crc.
    let body = &flipped[16..flipped.len() - 16];
    let fixed = seal(Kind::Del, body);
    assert!(matches!(DelView::parse_verified(&fixed), Err(FormatError::Corrupt(_))));

    // Stray bit past num_docs.
    let mut stray = bytes[16..bytes.len() - 16].to_vec();
    stray[9] |= 0x80; // bit 15, num_docs = 9
    stray[4..8].copy_from_slice(&2u32.to_le_bytes());
    assert!(matches!(
        DelView::parse_verified(&seal(Kind::Del, &stray)),
        Err(FormatError::Corrupt(_))
    ));
}

#[test]
fn bitmap_get_and_shape() {
    let mut b = Bitmap::new(20);
    assert_eq!(b.num_docs(), 20);
    b.set(9);
    assert!(b.get(9) && !b.get(8) && !b.get(10) && !b.get(200));
    let bytes = b.encode();
    assert_eq!(bytes.len(), 32 + del::BODY_HEADER_LEN + 3);
    assert_eq!(DelView::parse_verified(&bytes).unwrap().crc(), crc(&bytes[16..bytes.len() - 16]));
}

// Document tables.

fn doc_sample() -> Vec<DocIn<'static>> {
    vec![
        DocIn {
            path: "src/main.rs",
            inode: 42,
            mtime_nanos: 1_700_000_000_000_000_000,
            size: 10,
            len: 7,
            kind: DocKind::Indexed,
            content_hash: 0xdead_beef,
        },
        DocIn {
            path: "bad.bin",
            inode: 0,
            mtime_nanos: -5,
            size: 3,
            len: 0,
            kind: DocKind::Skipped,
            content_hash: 0x1234,
        },
        DocIn {
            path: "日本/ünï.txt",
            inode: u64::MAX,
            mtime_nanos: i64::MIN,
            size: u64::MAX,
            len: u32::MAX,
            kind: DocKind::Indexed,
            content_hash: u64::MAX,
        },
        DocIn {
            path: "",
            inode: 1,
            mtime_nanos: 0,
            size: 0,
            len: 0,
            kind: DocKind::Indexed,
            content_hash: 0,
        },
        DocIn {
            path: "img.png",
            inode: 2,
            mtime_nanos: 0,
            size: 5_000_000,
            len: 0,
            kind: DocKind::Binary,
            content_hash: 0,
        },
        DocIn {
            path: "huge.log",
            inode: 3,
            mtime_nanos: 0,
            size: 50_000_000,
            len: 0,
            kind: DocKind::TooLarge,
            content_hash: 0,
        },
    ]
}

#[test]
fn doc_roundtrip() {
    let docs = doc_sample();
    let bytes = doc::encode(&docs).unwrap();
    let v = DocTableView::parse(&bytes).unwrap();
    v.verify().unwrap();
    assert_eq!(v.num_docs(), 6);
    assert_eq!(v.num_indexed(), 3);
    assert_eq!(v.total_len(), 7 + u32::MAX as u64);
    for (i, d) in docs.iter().enumerate() {
        let r = v.record(i as u32).unwrap();
        assert_eq!(
            (r.inode, r.mtime_nanos, r.size, r.len, r.kind(), r.content_hash),
            (d.inode, d.mtime_nanos, d.size, d.len, Some(d.kind), d.content_hash)
        );
        assert_eq!(v.path(i as u32), Some(d.path));
    }
    assert_eq!(v.doc_len_if_indexed(0), Some(7));
    assert_eq!(v.doc_len_if_indexed(1), None); // skipped
    assert_eq!(v.doc_len_if_indexed(3), Some(0));
    assert_eq!(v.doc_len_if_indexed(4), None); // binary
    assert_eq!(v.doc_len_if_indexed(5), None); // too large
    assert_eq!(v.doc_len_if_indexed(6), None);
    assert!(v.record(6).is_none());
}

#[test]
fn empty_table() {
    let bytes = doc::encode(&[]).unwrap();
    let v = DocTableView::parse(&bytes).unwrap();
    v.verify().unwrap();
    assert_eq!(v.num_docs(), 0);
    assert!(v.record(0).is_none());
}

#[test]
fn encoder_refuses_non_indexed_with_length() {
    for kind in [DocKind::Skipped, DocKind::Binary, DocKind::TooLarge] {
        let bad = DocIn {
            path: "x",
            inode: 0,
            mtime_nanos: 0,
            size: 0,
            len: 3,
            kind,
            content_hash: 0,
        };
        assert!(matches!(doc::encode(&[bad]), Err(FormatError::Invariant(_))));
    }
}

#[test]
fn doc_corruption() {
    let bytes = doc::encode(&doc_sample()).unwrap();
    let mut bad = bytes.clone();
    bad[16 + 32 + 36] = 7; // status byte of record 0 -> invalid
    let v = DocTableView::parse(&bad).unwrap();
    assert!(matches!(v.verify(), Err(FormatError::Checksum { .. })));

    // Same damage but with the crc "fixed" is caught structurally.
    let body = &bad[16..bad.len() - 16];
    let fixed = seal(Kind::Doc, body);
    assert!(matches!(
        DocTableView::parse(&fixed).unwrap().verify(),
        Err(FormatError::Corrupt(_))
    ));

    let mut short = bytes.clone();
    short[16 + 16] = 1; // paths_off wrong
    assert!(matches!(DocTableView::parse(&short), Err(FormatError::Corrupt(_))));
}

#[test]
fn kind_status_byte_roundtrip() {
    for k in [DocKind::Skipped, DocKind::Indexed, DocKind::Binary, DocKind::TooLarge] {
        assert_eq!(DocKind::from_byte(k.byte()), Some(k));
    }
    assert_eq!(DocKind::from_byte(4), None);
    for (s, k) in [
        (DocStatus::Skipped, DocKind::Skipped),
        (DocStatus::Indexed, DocKind::Indexed),
        (DocStatus::Binary, DocKind::Binary),
        (DocStatus::TooLarge, DocKind::TooLarge),
    ] {
        assert_eq!(DocKind::from(s), k);
        assert_eq!(DocStatus::from(k), s);
    }
}

#[test]
fn doc_table_parts_make_the_same_view() {
    let bytes = doc::encode(&doc_sample()).unwrap();
    let v = DocTableView::parse(&bytes).unwrap();
    let again = DocTableView::from_parts(
        &bytes,
        v.envelope().clone(),
        v.num_docs(),
        v.num_indexed(),
        v.total_len(),
        v.paths_range(),
    );
    assert_eq!(again.crc(), v.crc());
    assert_eq!(again.path(2), Some("日本/ünï.txt"));
    assert_eq!(again.record(4), v.record(4));
    assert!(again.record(0).unwrap().indexed() && !again.record(1).unwrap().indexed());
}

#[test]
fn heap_slices_must_be_utf_8_and_in_range() {
    let heap = "aé".as_bytes();
    assert_eq!(path_at(heap, 0, 3), Some("aé"));
    assert_eq!(path_at(heap, 1, 2), Some("é"));
    assert_eq!(path_at(heap, 1, 1), None);
    assert_eq!(path_at(heap, 2, 2), None);
    assert_eq!(path_at(heap, u32::MAX, 1), None);
}

// Postings and term dictionaries.

type Lists = Vec<(DocId, Vec<Position>)>;

fn pairs(list: &Lists) -> Vec<(DocId, &[Position])> {
    list.iter().map(|(d, p)| (*d, p.as_slice())).collect()
}

fn build(terms: &[(&str, Lists)]) -> Vec<u8> {
    let mut sorted: Vec<(&str, Lists)> = terms.to_vec();
    sorted.sort_by(|a, b| a.0.as_bytes().cmp(b.0.as_bytes()));
    let (bytes, summary) = idx::write(Vec::new(), &sorted).unwrap();
    assert_eq!(summary.len as usize, bytes.len());
    bytes
}

fn collect(list: DiskPostingList<'_>) -> Lists {
    let mut c = list.cursor();
    let mut out = vec![];
    while let Some(d) = c.doc() {
        out.push((d, c.positions().to_vec()));
        c.advance();
    }
    out
}

#[test]
fn postings_roundtrip_and_laziness() {
    let list: Lists = vec![(3, vec![0, 5, 6]), (4, vec![2]), (100, vec![7, 1000, 100_000])];
    let mut out = Vec::new();
    let tokens = encode_postings(&pairs(&list), &mut out, &mut Vec::new()).unwrap();
    assert_eq!(tokens, 7);
    let dl = DiskPostingList { data: &out, doc_freq: 3 };
    dl.verify().unwrap();
    assert_eq!(collect(dl), list);

    let mut c = dl.cursor();
    assert_eq!(c.doc(), Some(3));
    assert_eq!(c.term_freq(), 3);
    assert!(!c.positions_decoded());
    assert_eq!(c.seek(50), Some(100)); // skipped doc 4 without decoding its positions
    assert!(!c.positions_decoded());
    assert_eq!(c.positions(), &[7, 1000, 100_000]);
    assert_eq!(c.seek(100), Some(100));
    assert_eq!(c.advance(), None);
    assert_eq!(c.seek(0), None);
    assert_eq!(c.term_freq(), 0);
}

#[test]
fn encoder_refuses_invariant_violations() {
    let mut out = Vec::new();
    let mut s = Vec::new();
    let dup_pos: Lists = vec![(1, vec![5, 5])];
    assert_eq!(
        encode_postings(&pairs(&dup_pos), &mut out, &mut s),
        Err(FormatError::Invariant("positions must strictly increase"))
    );
    let dup_doc: Lists = vec![(1, vec![0]), (1, vec![1])];
    assert!(matches!(
        encode_postings(&pairs(&dup_doc), &mut out, &mut s),
        Err(FormatError::Invariant(_))
    ));
    let empty: Lists = vec![(1, vec![])];
    assert!(matches!(
        encode_postings(&pairs(&empty), &mut out, &mut s),
        Err(FormatError::Invariant(_))
    ));
}

#[test]
fn decoder_rejects_zero_deltas() {
    // doc_count=1, doc=1, tf=2, pos_bytes=2, positions 5, +0
    let bad = [1u8, 1, 2, 2, 5, 0];
    let dl = DiskPostingList { data: &bad, doc_freq: 1 };
    assert!(matches!(dl.verify(), Err(FormatError::Corrupt(_))));
    let mut c = dl.cursor();
    assert_eq!(c.positions(), &[] as &[u32]); // failure is recorded and yields nothing
    assert!(c.error().is_some());

    // doc_count=2, doc=1, tf=1, pb=1, pos 0, then doc delta 0
    let bad2 = [2u8, 1, 1, 1, 0, 0, 1, 1, 0];
    let mut c = DiskCursor::new(&bad2);
    assert_eq!(c.doc(), Some(1));
    assert_eq!(c.advance(), None); // second header is corrupt
    assert!(c.error().is_some());
}

#[test]
fn a_cursor_keeps_its_first_failure_and_forgets_positions_on_moving() {
    let list: Lists = vec![(3, vec![0, 5]), (4, vec![2])];
    let mut out = Vec::new();
    encode_postings(&pairs(&list), &mut out, &mut Vec::new()).unwrap();
    let mut c = DiskCursor::new(&out);
    assert_eq!(c.positions(), &[0, 5]);
    assert!(c.positions_decoded());
    assert_eq!(c.advance(), Some(4));
    assert!(!c.positions_decoded());
    assert_eq!(c.positions(), &[2]);
    assert_eq!(c.seek(4), Some(4)); // no move: the positions stay
    assert!(c.positions_decoded());
    assert_eq!(c.advance(), None);
    assert!(c.error().is_none());

    // doc_count=2, doc=1, tf=1, pb=1, pos 0, then the delta is cut off
    let cut = [2u8, 1, 1, 1, 0];
    let mut c = DiskCursor::new(&cut);
    assert_eq!((c.doc(), c.error().is_none()), (Some(1), true));
    assert_eq!(c.seek(9), None);
    let why = c.error().map(|e| e.message());
    assert!(why.is_some());
    assert_eq!(c.advance(), None);
    assert_eq!(c.positions(), &[] as &[u32]);
    assert_eq!(c.error().map(|e| e.message()), why);
}

#[test]
fn postings_have_the_documented_bytes() {
    let list: Lists = vec![(1, vec![0]), (3, vec![2, 130])];
    let mut out = vec![9u8];
    assert_eq!(encode_postings(&pairs(&list), &mut out, &mut Vec::new()), Ok(3));
    // One byte was there; then the count and, per document, the delta, the
    // frequency, the bytes of the positions, and the positions as deltas.
    assert_eq!(out, vec![9, 2, 1, 1, 1, 0, 2, 2, 3, 2, 0x80, 0x01]);
    assert_eq!(DiskPostingList { data: &out[1..], doc_freq: 2 }.encoded_len(), 11);
}

#[test]
fn idx_empty_index() {
    let bytes = build(&[]);
    let v = IdxView::parse(&bytes).unwrap();
    v.verify().unwrap();
    assert_eq!(v.num_terms(), 0);
    assert!(v.lookup("anything").is_none());
    assert!(v.terms().try_next().unwrap().is_none());
}

#[test]
fn lookup_across_block_boundaries() {
    for n in [1usize, 2, 63, 64, 65, 127, 128, 129, 300] {
        let terms: Vec<(String, Lists)> =
            (0..n).map(|i| (format!("t{i:05}"), vec![(i as u32, vec![i as u32])])).collect();
        let refs: Vec<(&str, Lists)> =
            terms.iter().map(|(t, l)| (t.as_str(), l.clone())).collect();
        let bytes = build(&refs);
        let v = IdxView::parse(&bytes).unwrap();
        v.verify().unwrap();
        assert_eq!(v.num_terms() as usize, n);
        assert_eq!(v.toc().num_blocks as usize, n.div_ceil(64));
        for (t, l) in &terms {
            let found = v.lookup(t).unwrap_or_else(|| panic!("n={n} term {t}"));
            assert_eq!(found.doc_freq(), 1);
            assert_eq!(collect(found), *l);
        }
        assert!(v.lookup("s").is_none()); // before everything
        assert!(v.lookup("t00000a").is_none()); // between terms
        assert!(v.lookup("u").is_none()); // after everything
        assert!(v.lookup("").is_none());
        // Iterate everything in order.
        let mut it = v.terms();
        let mut seen = 0;
        while let Some((term, df, _)) = it.try_next().unwrap() {
            assert_eq!(term, terms[seen].0);
            assert_eq!(df, 1);
            seen += 1;
        }
        assert_eq!(seen, n);
        assert_eq!(v.terms().collect().unwrap().len(), n);
    }
}

#[test]
fn front_coding_with_shared_prefixes_and_unicode() {
    let terms: Vec<(&str, Lists)> = vec![
        ("a", vec![(1, vec![1])]),
        ("ab", vec![(1, vec![2])]),
        ("abc", vec![(2, vec![0])]),
        ("abd", vec![(3, vec![0, 1])]),
        ("b", vec![(1, vec![3])]),
        ("café", vec![(4, vec![0])]),
        ("cafés", vec![(4, vec![1])]),
        ("日本", vec![(5, vec![0])]),
        ("日本語", vec![(5, vec![1])]),
    ];
    let bytes = build(&terms);
    let v = IdxView::parse(&bytes).unwrap();
    v.verify().unwrap();
    for (t, l) in &terms {
        assert_eq!(collect(v.lookup(t).unwrap()), *l, "{t}");
    }
    assert!(v.lookup("abcd").is_none());
    assert!(v.lookup("caf").is_none());
    assert!(v.lookup("日").is_none());
}

#[test]
fn overlong_terms_are_dropped() {
    let long = "x".repeat(MAX_TERM_BYTES + 1);
    let terms: Vec<(&str, Lists)> =
        vec![("short", vec![(1, vec![0])]), (long.as_str(), vec![(1, vec![1])])];
    let bytes = build(&terms);
    let v = IdxView::parse(&bytes).unwrap();
    v.verify().unwrap();
    assert_eq!(v.num_terms(), 1);
    assert!(v.lookup(&long).is_none());
    assert!(v.lookup("short").is_some());
}

#[test]
fn corruption_is_caught_by_verify() {
    let terms: Vec<(&str, Lists)> =
        vec![("alpha", vec![(1, vec![0, 3])]), ("beta", vec![(2, vec![1])])];
    let bytes = build(&terms);
    let mut flipped = bytes.clone();
    flipped[20] ^= 0x01; // inside postings
    let v = IdxView::parse(&flipped).unwrap();
    assert!(matches!(v.verify(), Err(FormatError::Checksum { .. })));
    IdxView::parse(&bytes).unwrap().verify().unwrap();

    let mut toc_bad = bytes.clone();
    let toc_at = bytes.len() - 16 - TOC_LEN;
    toc_bad[toc_at + 56] ^= 1; // num_blocks
    assert!(matches!(IdxView::parse(&toc_bad), Err(FormatError::Corrupt(_))));
}

#[test]
fn writer_counts_and_refuses_bad_postings() {
    let terms: Vec<(&str, Lists)> =
        vec![("a", vec![(0, vec![0, 1])]), ("b", vec![(0, vec![2]), (4, vec![0])])];
    let (bytes, s) = idx::write(Vec::new(), &terms).unwrap();
    assert_eq!((s.num_terms, s.num_postings, s.num_tokens), (2, 3, 4));
    assert_eq!(s.crc, IdxView::parse(&bytes).unwrap().crc());
    let bad: Vec<(&str, Lists)> = vec![("a", vec![(0, vec![0])]), ("b", vec![(0, vec![])])];
    assert!(matches!(idx::write(Vec::new(), &bad), Err(FormatError::Invariant(_))));
}

// Manifests.

fn manifest_sample() -> Manifest {
    Manifest {
        generation: 7,
        next_segment_id: 5,
        committed_unix_nanos: -12345,
        state_gen: 2,
        state_crc: 0xabcd,
        state_len: 96,
        segments: vec![
            SegmentEntry {
                segment_id: 2,
                del_gen: 0,
                base_doc: 0,
                num_docs: 100,
                idx_crc: 1,
                doc_crc: 2,
                idx_len: 300,
                doc_len: 400,
                num_tokens: 5,
                num_postings: 6,
                num_terms: 7,
                ..Default::default()
            },
            SegmentEntry {
                segment_id: 4,
                del_gen: 3,
                base_doc: 100,
                num_docs: 50,
                num_deleted: 9,
                del_crc: 8,
                del_len: 40,
                ..Default::default()
            },
        ],
    }
}

#[test]
fn manifest_roundtrip() {
    let m = manifest_sample();
    let bytes = m.encode();
    assert_eq!(bytes.len(), 32 + 48 + 2 * 80);
    assert_eq!(Manifest::decode(&bytes).unwrap(), m);
    let empty = Manifest::default();
    assert_eq!(Manifest::decode(&empty.encode()).unwrap(), empty);
}

#[test]
fn corruption_is_detected() {
    let mut bytes = manifest_sample().encode();
    bytes[40] ^= 1; // generation byte
    assert!(matches!(Manifest::decode(&bytes), Err(FormatError::Checksum { .. })));
    assert!(matches!(Manifest::decode(&bytes[..30]), Err(FormatError::Truncated { .. })));
    assert!(matches!(Manifest::decode(b""), Err(FormatError::Truncated { .. })));
}

#[test]
fn structural_checks() {
    let mut m = manifest_sample();
    m.segments[1].base_doc = 50; // overlaps segment 0
    assert!(matches!(Manifest::decode(&m.encode()), Err(FormatError::Corrupt(_))));

    let mut m = manifest_sample();
    m.segments[1].segment_id = 5; // == next_segment_id
    assert!(matches!(Manifest::decode(&m.encode()), Err(FormatError::Corrupt(_))));

    let mut m = manifest_sample();
    m.segments[0].del_len = 10; // del_gen 0 but a length
    assert!(matches!(Manifest::decode(&m.encode()), Err(FormatError::Corrupt(_))));

    let mut m = manifest_sample();
    m.state_len = 0; // state_gen != 0 but no length
    assert!(matches!(Manifest::decode(&m.encode()), Err(FormatError::Corrupt(_))));

    let mut m = manifest_sample();
    m.segments[1].num_deleted = 51; // exceeds num_docs
    assert!(matches!(Manifest::decode(&m.encode()), Err(FormatError::Corrupt(_))));
}

#[test]
fn no_overlay_is_the_common_case() {
    let mut m = manifest_sample();
    m.state_gen = 0;
    m.state_len = 0;
    assert_eq!(Manifest::decode(&m.encode()).unwrap(), m);
}

#[test]
fn segment_entry_counts() {
    let e = SegmentEntry {
        num_docs: 100,
        num_deleted: 30,
        idx_len: 10,
        doc_len: 20,
        del_len: 5,
        ..Default::default()
    };
    assert_eq!(e.live_docs(), 70);
    assert_eq!(e.total_bytes(), 35);
    assert_eq!(SegmentEntry { base_doc: u32::MAX, num_docs: 2, ..e }.end_doc(), 0x1_0000_0001);
}

// Overlays.

fn overlay_sample() -> Vec<PatchIn<'static>> {
    vec![
        PatchIn { doc_id: 1, inode: 10, mtime_nanos: 100, size: 5, path: "a/b.txt" },
        PatchIn { doc_id: 5, inode: 50, mtime_nanos: -1, size: 0, path: "" },
        PatchIn {
            doc_id: 9,
            inode: u64::MAX,
            mtime_nanos: i64::MIN,
            size: u64::MAX,
            path: "日本/renamed.rs",
        },
    ]
}

#[test]
fn roundtrip_and_find() {
    let patches = overlay_sample();
    let bytes = overlay::encode(&patches).unwrap();
    let v = OverlayView::parse_verified(&bytes).unwrap();
    assert_eq!(v.num_patches(), 3);
    for p in &patches {
        let (found, path) = v.find(p.doc_id).unwrap();
        assert_eq!(
            (found.doc_id, found.inode, found.mtime_nanos, found.size),
            (p.doc_id, p.inode, p.mtime_nanos, p.size)
        );
        assert_eq!(path, p.path);
    }
    assert!(v.find(0).is_none());
    assert!(v.find(6).is_none());
    assert!(v.find(100).is_none());
    let via_iter: Vec<u32> = v.iter().iter().map(|(p, _)| p.doc_id).collect();
    assert_eq!(via_iter, vec![1, 5, 9]);
}

#[test]
fn empty_overlay() {
    let bytes = overlay::encode(&[]).unwrap();
    let v = OverlayView::parse_verified(&bytes).unwrap();
    assert_eq!(v.num_patches(), 0);
    assert!(v.find(0).is_none());
}

#[test]
fn overlay_corruption() {
    let bytes = overlay::encode(&overlay_sample()).unwrap();
    let mut flipped = bytes.clone();
    flipped[16 + 24] ^= 1; // first patch's doc_id
    assert!(matches!(OverlayView::parse_verified(&flipped), Err(FormatError::Checksum { .. })));

    // Swap the first two fixed-size records in place (path heap untouched,
    // so offsets stay valid) to produce out-of-order doc_ids with a
    // correct crc, and confirm that is caught structurally.
    let mut body = bytes[16..bytes.len() - 16].to_vec();
    let (a, b) = (overlay::BODY_HEADER_LEN, overlay::BODY_HEADER_LEN + overlay::PATCH_LEN);
    let (rec_a, rec_b) = (body[a..b].to_vec(), body[b..b + overlay::PATCH_LEN].to_vec());
    body[a..b].copy_from_slice(&rec_b);
    body[b..b + overlay::PATCH_LEN].copy_from_slice(&rec_a);
    let resealed = seal(Kind::Overlay, &body);
    assert!(matches!(OverlayView::parse_verified(&resealed), Err(FormatError::Corrupt(_))));
}

#[test]
fn overlay_records_by_place() {
    let bytes = overlay::encode(&overlay_sample()).unwrap();
    let v = OverlayView::parse_verified(&bytes).unwrap();
    let p = v.patch(2).unwrap();
    assert_eq!(v.path_of(&p), Some("日本/renamed.rs"));
    assert!(v.patch(3).is_none());
    assert_eq!(v.crc(), crc(&bytes[16..bytes.len() - 16]));
}
