//! Document tables: fixed 48-byte records plus a path heap.

use super::envelope::{
    self, body_of, crc32, envelope_of, lemma_sealed_parses, parse_view, sealed, Envelope, Kind,
    FOOTER_LEN, HEADER_LEN,
};
use super::heap::{heap, heap_off, lemma_heap_path, lemma_heap_push, path_at, path_in};
use super::{
    corrupt_view, i64_at, lemma_i64_bits, push_u32, push_u64, read_u32_le, read_u64_le, to_usize,
    u32_at, u32_of, u64_at, u64_of, usize_view, Decoded, FormatError, FormatErrorView, Result,
};
use crate::index::doc_table::DocStatus;
use crate::text::{decimal, push_decimal};
use core::ops::Range;
use vstd::bytes::{
    lemma_auto_spec_u32_to_from_le_bytes, lemma_auto_spec_u64_to_from_le_bytes,
    spec_u32_to_le_bytes, spec_u64_to_le_bytes,
};
use vstd::prelude::*;
use vstd::utf8::encode_utf8;

verus! {

pub const BODY_HEADER_LEN: usize = 32;

pub const RECORD_LEN: usize = 48;

pub const STATUS_SKIPPED: u8 = 0;

pub const STATUS_INDEXED: u8 = 1;

pub const STATUS_BINARY: u8 = 2;

pub const STATUS_TOO_LARGE: u8 = 3;

pub const MAX_STATUS: u8 = STATUS_TOO_LARGE;

/// The meaning of a record's status byte.
#[derive(Debug, Clone, Copy, PartialEq, Eq, Structural)]
pub enum DocKind {
    Skipped,
    Indexed,
    Binary,
    TooLarge,
}

/// The status byte of a kind.
pub open spec fn kind_byte(k: DocKind) -> u8 {
    match k {
        DocKind::Skipped => STATUS_SKIPPED,
        DocKind::Indexed => STATUS_INDEXED,
        DocKind::Binary => STATUS_BINARY,
        DocKind::TooLarge => STATUS_TOO_LARGE,
    }
}

/// The kind of a status byte.
pub open spec fn byte_kind(b: u8) -> Option<DocKind> {
    if b == STATUS_SKIPPED {
        Some(DocKind::Skipped)
    } else if b == STATUS_INDEXED {
        Some(DocKind::Indexed)
    } else if b == STATUS_BINARY {
        Some(DocKind::Binary)
    } else if b == STATUS_TOO_LARGE {
        Some(DocKind::TooLarge)
    } else {
        None
    }
}

/// Status bytes and kinds are one to one.
pub proof fn lemma_kind_bytes(k: DocKind, b: u8)
    ensures
        byte_kind(kind_byte(k)) == Some(k),
        byte_kind(b) is Some <==> b <= MAX_STATUS,
        byte_kind(b) matches Some(j) ==> kind_byte(j) == b,
{
}

impl DocKind {
    /// The status byte.
    pub fn byte(self) -> (b: u8)
        ensures
            b == kind_byte(self),
    {
        match self {
            DocKind::Skipped => STATUS_SKIPPED,
            DocKind::Indexed => STATUS_INDEXED,
            DocKind::Binary => STATUS_BINARY,
            DocKind::TooLarge => STATUS_TOO_LARGE,
        }
    }

    /// The kind a status byte stands for.
    pub fn from_byte(b: u8) -> (r: Option<Self>)
        ensures
            r == byte_kind(b),
    {
        if b == STATUS_SKIPPED {
            Some(DocKind::Skipped)
        } else if b == STATUS_INDEXED {
            Some(DocKind::Indexed)
        } else if b == STATUS_BINARY {
            Some(DocKind::Binary)
        } else if b == STATUS_TOO_LARGE {
            Some(DocKind::TooLarge)
        } else {
            None
        }
    }
}

/// The kind of a status.
pub open spec fn status_kind(s: DocStatus) -> DocKind {
    match s {
        DocStatus::Skipped => DocKind::Skipped,
        DocStatus::Indexed => DocKind::Indexed,
        DocStatus::Binary => DocKind::Binary,
        DocStatus::TooLarge => DocKind::TooLarge,
    }
}

/// The status of a kind.
pub open spec fn kind_status(k: DocKind) -> DocStatus {
    match k {
        DocKind::Skipped => DocStatus::Skipped,
        DocKind::Indexed => DocStatus::Indexed,
        DocKind::Binary => DocStatus::Binary,
        DocKind::TooLarge => DocStatus::TooLarge,
    }
}

impl From<DocStatus> for DocKind {
    fn from(s: DocStatus) -> (k: Self) {
        match s {
            DocStatus::Skipped => DocKind::Skipped,
            DocStatus::Indexed => DocKind::Indexed,
            DocStatus::Binary => DocKind::Binary,
            DocStatus::TooLarge => DocKind::TooLarge,
        }
    }
}

impl vstd::std_specs::convert::FromSpecImpl<DocStatus> for DocKind {
    open spec fn obeys_from_spec() -> bool {
        true
    }

    open spec fn from_spec(s: DocStatus) -> DocKind {
        status_kind(s)
    }
}

impl From<DocKind> for DocStatus {
    fn from(k: DocKind) -> (s: Self) {
        match k {
            DocKind::Skipped => DocStatus::Skipped,
            DocKind::Indexed => DocStatus::Indexed,
            DocKind::Binary => DocStatus::Binary,
            DocKind::TooLarge => DocStatus::TooLarge,
        }
    }
}

impl vstd::std_specs::convert::FromSpecImpl<DocKind> for DocStatus {
    open spec fn obeys_from_spec() -> bool {
        true
    }

    open spec fn from_spec(k: DocKind) -> DocStatus {
        kind_status(k)
    }
}

/// One document as handed to the encoder. `path` is root-relative with `/`.
#[derive(Debug, Clone, Copy, PartialEq, Eq)]
pub struct DocIn<'a> {
    pub path: &'a str,
    pub inode: u64,
    pub mtime_nanos: i64,
    pub size: u64,
    pub len: u32,
    pub kind: DocKind,
    /// Hash of the raw file bytes; zero for documents that were never read.
    pub content_hash: u64,
}

/// The paths of the documents.
pub open spec fn paths_of(docs: Seq<DocIn<'_>>) -> Seq<Seq<char>> {
    Seq::new(docs.len(), |i: int| docs[i].path@)
}

/// How many of the first `n` documents are indexed.
pub open spec fn indexed_count(docs: Seq<DocIn<'_>>, n: int) -> int
    decreases n,
{
    if n <= 0 {
        0
    } else {
        indexed_count(docs, n - 1) + if docs[n - 1].kind == DocKind::Indexed {
            1int
        } else {
            0int
        }
    }
}

/// The total length of the indexed ones among the first `n` documents.
pub open spec fn indexed_len(docs: Seq<DocIn<'_>>, n: int) -> int
    decreases n,
{
    if n <= 0 {
        0
    } else {
        indexed_len(docs, n - 1) + if docs[n - 1].kind == DocKind::Indexed {
            docs[n - 1].len as int
        } else {
            0int
        }
    }
}

/// Why the encoder refuses the documents from `i` on, if it does.
pub open spec fn doc_fault(docs: Seq<DocIn<'_>>, i: int) -> Option<Seq<char>>
    decreases docs.len() - i,
{
    if i >= docs.len() {
        None
    } else if heap_off(paths_of(docs), i + 1) > u32::MAX {
        Some("path heap exceeds 4 GiB"@)
    } else if docs[i].kind != DocKind::Indexed && docs[i].len != 0 {
        Some("non-indexed doc with non-zero length"@)
    } else {
        doc_fault(docs, i + 1)
    }
}

/// One record, its path at this offset of the heap.
pub open spec fn record_bytes(d: DocIn<'_>, off: nat) -> Seq<u8> {
    spec_u64_to_le_bytes(d.inode) + spec_u64_to_le_bytes(d.mtime_nanos as u64)
        + spec_u64_to_le_bytes(d.size) + spec_u32_to_le_bytes(d.len) + spec_u32_to_le_bytes(
        off as u32,
    ) + spec_u32_to_le_bytes(encode_utf8(d.path@).len() as u32) + seq![
        kind_byte(d.kind),
        0u8,
        0u8,
        0u8,
    ] + spec_u64_to_le_bytes(d.content_hash)
}

/// The first `n` records.
pub open spec fn records_bytes(docs: Seq<DocIn<'_>>, n: int) -> Seq<u8>
    decreases n,
{
    if n <= 0 {
        Seq::empty()
    } else {
        records_bytes(docs, n - 1) + record_bytes(docs[n - 1], heap_off(paths_of(docs), n - 1))
    }
}

/// The body of a document table.
pub open spec fn body_view(docs: Seq<DocIn<'_>>) -> Seq<u8> {
    let n = docs.len() as int;
    let h = heap(paths_of(docs));
    spec_u32_to_le_bytes(n as u32) + spec_u32_to_le_bytes(indexed_count(docs, n) as u32)
        + spec_u64_to_le_bytes(indexed_len(docs, n) as u64) + spec_u64_to_le_bytes(
        (HEADER_LEN + BODY_HEADER_LEN + RECORD_LEN * n) as u64,
    ) + spec_u64_to_le_bytes(h.len() as u64) + records_bytes(docs, n) + h
}

proof fn lemma_counts(docs: Seq<DocIn<'_>>, n: int)
    requires
        0 <= n <= docs.len(),
    ensures
        0 <= indexed_count(docs, n) <= n,
        0 <= indexed_len(docs, n) <= n * 0xffff_ffff,
    decreases n,
{
    if n > 0 {
        lemma_counts(docs, n - 1);
    }
}

/// The complete document table. Refuses a path heap beyond 4 GiB, and a length
/// on a document that is not indexed. Local ids are 32-bit.
pub fn encode(docs: &[DocIn<'_>]) -> (r: Result<Vec<u8>>)
    requires
        docs@.len() <= u32::MAX,
    ensures
        match r {
            Ok(out) => doc_fault(docs@, 0) is None && out@ == sealed(Kind::Doc, body_view(docs@)),
            Err(e) => doc_fault(docs@, 0) matches Some(msg) && e@ == FormatErrorView::Invariant(
                msg,
            ),
        },
{
    let ghost paths = paths_of(docs@);
    let mut records: Vec<u8> = Vec::new();
    let mut bytes: Vec<u8> = Vec::new();
    let mut num_indexed: u32 = 0;
    let mut total_len: u64 = 0;
    let mut i: usize = 0;
    while i < docs.len()
        invariant
            i <= docs@.len() <= u32::MAX,
            paths == paths_of(docs@),
            records@ =~= records_bytes(docs@, i as int),
            bytes@ =~= heap(paths.take(i as int)),
            bytes@.len() <= u32::MAX,
            num_indexed == indexed_count(docs@, i as int),
            total_len == indexed_len(docs@, i as int),
            doc_fault(docs@, 0) == doc_fault(docs@, i as int),
        decreases docs@.len() - i,
    {
        let d = docs[i];
        let path = d.path.as_bytes();
        proof {
            lemma_heap_push(paths, i as int);
            lemma_counts(docs@, i as int);
            lemma_counts(docs@, i as int + 1);
        }
        let used: u64 = bytes.len() as u64;
        if path.len() as u64 > u32::MAX as u64 || used + path.len() as u64 > u32::MAX as u64 {
            return Err(FormatError::Invariant("path heap exceeds 4 GiB"));
        }
        if d.kind != DocKind::Indexed && d.len != 0 {
            return Err(FormatError::Invariant("non-indexed doc with non-zero length"));
        }
        let ghost before = records@;
        push_u64(&mut records, d.inode);
        push_u64(&mut records, d.mtime_nanos as u64);
        push_u64(&mut records, d.size);
        push_u32(&mut records, d.len);
        push_u32(&mut records, bytes.len() as u32);
        push_u32(&mut records, path.len() as u32);
        records.push(d.kind.byte());
        records.push(0);
        records.push(0);
        records.push(0);
        push_u64(&mut records, d.content_hash);
        assert(records@ =~= before + record_bytes(docs@[i as int], heap_off(paths, i as int)));
        bytes.extend_from_slice(path);
        if d.kind == DocKind::Indexed {
            num_indexed = num_indexed + 1;
            total_len = total_len + d.len as u64;
        }
        i = i + 1;
    }
    proof {
        assert(paths.take(paths.len() as int) =~= paths);
    }
    let mut body: Vec<u8> = Vec::new();
    push_u32(&mut body, docs.len() as u32);
    push_u32(&mut body, num_indexed);
    push_u64(&mut body, total_len);
    push_u64(
        &mut body,
        HEADER_LEN as u64 + BODY_HEADER_LEN as u64 + RECORD_LEN as u64 * docs.len() as u64,
    );
    push_u64(&mut body, bytes.len() as u64);
    body.extend_from_slice(records.as_slice());
    body.extend_from_slice(bytes.as_slice());
    assert(body@ =~= body_view(docs@));
    Ok(envelope::seal(Kind::Doc, body.as_slice()))
}

/// One stored document; its path lies in the heap of the file.
#[derive(Debug, Clone, Copy, PartialEq, Eq, Structural)]
pub struct DocRecord {
    pub inode: u64,
    pub mtime_nanos: i64,
    pub size: u64,
    pub len: u32,
    pub status: u8,
    pub content_hash: u64,
    pub path_off: u32,
    pub path_len: u32,
}

impl DocRecord {
    /// Whether the document is indexed.
    pub fn indexed(&self) -> (r: bool)
        ensures
            r == (self.status == STATUS_INDEXED),
    {
        self.status == STATUS_INDEXED
    }

    /// The meaning of the status byte.
    pub fn kind(&self) -> (r: Option<DocKind>)
        ensures
            r == byte_kind(self.status),
    {
        DocKind::from_byte(self.status)
    }
}

/// Where record `i` of a file starts.
pub open spec fn record_off(i: int) -> int {
    HEADER_LEN + BODY_HEADER_LEN + RECORD_LEN * i
}

/// The record of a file at this place.
pub open spec fn record_in(s: Seq<u8>, i: int) -> DocRecord {
    let at = record_off(i);
    DocRecord {
        inode: u64_at(s, at),
        mtime_nanos: i64_at(s, at + 8),
        size: u64_at(s, at + 16),
        len: u32_at(s, at + 24),
        path_off: u32_at(s, at + 28),
        path_len: u32_at(s, at + 32),
        status: s[at + 36],
        content_hash: u64_at(s, at + 40),
    }
}

/// The head of a document table.
pub ghost struct TableView {
    pub num_docs: u32,
    pub num_indexed: u32,
    pub total_len: u64,
    pub crc: u32,
}

/// What the head of a document table says; the checksum is not verified.
pub open spec fn parsed(s: Seq<u8>) -> Decoded<TableView> {
    match parse_view(Kind::Doc, s) {
        Err(e) => Err(e),
        Ok(crc) => {
            let body = body_of(s);
            if body.len() < BODY_HEADER_LEN {
                Err(
                    FormatErrorView::Truncated {
                        at: body.len() as int,
                        needed: BODY_HEADER_LEN as int,
                    },
                )
            } else {
                match (usize_view(u64_at(body, 16) as int), usize_view(u64_at(body, 24) as int)) {
                    (Err(e), _) => Err(e),
                    (_, Err(e)) => Err(e),
                    (Ok(off), Ok(len)) => if off != record_off(u32_at(body, 0) as int) || off + len
                        != HEADER_LEN + body.len() {
                        corrupt_view("doc table regions do not tile the body"@)
                    } else if u32_at(body, 4) > u32_at(body, 0) {
                        corrupt_view("num_indexed exceeds num_docs"@)
                    } else {
                        Ok(
                            TableView {
                                num_docs: u32_at(body, 0),
                                num_indexed: u32_at(body, 4),
                                total_len: u64_at(body, 8),
                                crc,
                            },
                        )
                    },
                }
            }
        },
    }
}

/// The path heap of a table file with this many documents.
pub open spec fn heap_in(s: Seq<u8>, num_docs: u32) -> Seq<u8> {
    s.subrange(record_off(num_docs as int), s.len() - FOOTER_LEN)
}

/// The path of a document of a table file.
pub open spec fn doc_path(s: Seq<u8>, num_docs: u32, i: int) -> Option<Seq<char>> {
    let r = record_in(s, i);
    path_in(heap_in(s, num_docs), r.path_off as int, r.path_len as int)
}

/// The start of a message about one document.
pub open spec fn doc_msg(i: int, rest: Seq<char>) -> Seq<char> {
    "doc "@ + decimal(i as nat) + rest
}

/// What is wrong with record `i`, if anything.
pub open spec fn record_fault(s: Seq<u8>, num_docs: u32, i: int) -> Option<Seq<char>> {
    let r = record_in(s, i);
    let at = record_off(i);
    if r.status > MAX_STATUS {
        Some(doc_msg(i, ": bad status "@ + decimal(r.status as nat)))
    } else if r.status != STATUS_INDEXED && r.len != 0 {
        Some(doc_msg(i, ": non-indexed but len "@ + decimal(r.len as nat)))
    } else if s[at + 37] != 0 || s[at + 38] != 0 || s[at + 39] != 0 {
        Some(doc_msg(i, ": reserved bytes set"@))
    } else if doc_path(s, num_docs, i) is None {
        Some(doc_msg(i, ": bad path"@))
    } else {
        None
    }
}

/// The first fault among the records from `i` on.
pub open spec fn first_fault(s: Seq<u8>, num_docs: u32, i: int) -> Option<Seq<char>>
    decreases num_docs - i,
{
    if i >= num_docs {
        None
    } else {
        match record_fault(s, num_docs, i) {
            Some(msg) => Some(msg),
            None => first_fault(s, num_docs, i + 1),
        }
    }
}

/// How many of the first `n` records are indexed.
pub open spec fn stored_count(s: Seq<u8>, n: int) -> int
    decreases n,
{
    if n <= 0 {
        0
    } else {
        stored_count(s, n - 1) + if record_in(s, n - 1).status == STATUS_INDEXED {
            1int
        } else {
            0int
        }
    }
}

/// The total length of the indexed ones among the first `n` records.
pub open spec fn stored_len(s: Seq<u8>, n: int) -> int
    decreases n,
{
    if n <= 0 {
        0
    } else {
        stored_len(s, n - 1) + if record_in(s, n - 1).status == STATUS_INDEXED {
            record_in(s, n - 1).len as int
        } else {
            0int
        }
    }
}

/// The full check of a table: checksum, every record, the counters.
pub open spec fn verified(s: Seq<u8>, t: TableView) -> Decoded<()> {
    if crc32(body_of(s)) != t.crc {
        Err(FormatErrorView::Checksum { stored: t.crc, computed: crc32(body_of(s)) })
    } else {
        match first_fault(s, t.num_docs, 0) {
            Some(msg) => corrupt_view(msg),
            None => if stored_count(s, t.num_docs as int) != t.num_indexed || stored_len(
                s,
                t.num_docs as int,
            ) != t.total_len {
                corrupt_view("doc table counters disagree with records"@)
            } else {
                Ok(())
            },
        }
    }
}

/// A table that parses does not count more indexed documents than it has.
pub proof fn lemma_parsed_counts(s: Seq<u8>)
    ensures
        parsed(s) matches Ok(t) ==> t.num_indexed <= t.num_docs,
{
}

/// Zero-copy view over a complete document table.
#[derive(Debug)]
pub struct DocTableView<'a> {
    bytes: &'a [u8],
    env: Envelope,
    num_docs: u32,
    num_indexed: u32,
    total_len: u64,
    paths: &'a [u8],
}

impl<'a> DocTableView<'a> {
    /// The file under the view.
    pub closed spec fn file(&self) -> Seq<u8> {
        self.bytes@
    }

    /// The head of the table.
    pub closed spec fn head(&self) -> TableView {
        TableView {
            num_docs: self.num_docs,
            num_indexed: self.num_indexed,
            total_len: self.total_len,
            crc: self.env.crc,
        }
    }

    /// The view is what parsing its file gives.
    pub closed spec fn wf(&self) -> bool {
        &&& parsed(self.bytes@) == Ok::<TableView, FormatErrorView>(self.head())
        &&& envelope_of(self.env, self.bytes@, self.env.crc)
        &&& self.paths@ == heap_in(self.bytes@, self.num_docs)
        &&& record_off(self.num_docs as int) + self.paths@.len() + FOOTER_LEN == self.bytes@.len()
    }

    /// What well-formedness says of the file.
    pub proof fn lemma_wf(&self)
        requires
            self.wf(),
        ensures
            parsed(self.file()) == Ok::<TableView, FormatErrorView>(self.head()),
            record_off(self.head().num_docs as int) + FOOTER_LEN <= self.file().len(),
    {
    }

    /// Envelope and structural checks only.
    pub fn parse(bytes: &'a [u8]) -> (r: Result<Self>)
        ensures
            match r {
                Ok(v) => v.wf() && v.file() == bytes@ && parsed(bytes@) == Ok::<_, FormatErrorView>(
                    v.head(),
                ),
                Err(e) => parsed(bytes@) == Err::<TableView, _>(e@),
            },
    {
        let env = envelope::parse(Kind::Doc, bytes)?;
        let body = &bytes[env.body.start..env.body.end];
        assert(body@ == body_of(bytes@));
        if body.len() < BODY_HEADER_LEN {
            return Err(FormatError::Truncated { at: body.len(), needed: BODY_HEADER_LEN });
        }
        let num_docs: u32 = read_u32_le(body, 0)?;
        let num_indexed: u32 = read_u32_le(body, 4)?;
        let total_len: u64 = read_u64_le(body, 8)?;
        let paths_off: usize = to_usize(read_u64_le(body, 16)?)?;
        let paths_len: usize = to_usize(read_u64_le(body, 24)?)?;
        let records_end: u64 = HEADER_LEN as u64 + BODY_HEADER_LEN as u64 + RECORD_LEN as u64
            * num_docs as u64;
        if paths_off as u64 != records_end || paths_off > env.body.end || paths_len != env.body.end
            - paths_off {
            return Err(FormatError::corrupt("doc table regions do not tile the body"));
        }
        if num_indexed > num_docs {
            return Err(FormatError::corrupt("num_indexed exceeds num_docs"));
        }
        let paths = &bytes[paths_off..env.body.end];
        Ok(DocTableView { bytes, env, num_docs, num_indexed, total_len, paths })
    }

    /// Rebuilds a view from parts that an earlier [`DocTableView::parse`]
    /// validated.
    pub fn from_parts(
        bytes: &'a [u8],
        env: Envelope,
        num_docs: u32,
        num_indexed: u32,
        total_len: u64,
        paths: Range<usize>,
    ) -> (v: Self)
        requires
            parsed(bytes@) == Ok::<_, FormatErrorView>(
                (TableView { num_docs, num_indexed, total_len, crc: env.crc }),
            ),
            envelope_of(env, bytes@, env.crc),
            paths.start == record_off(num_docs as int),
            paths.end == env.body.end,
        ensures
            v.wf(),
            v.file() == bytes@,
            v.head() == (TableView { num_docs, num_indexed, total_len, crc: env.crc }),
    {
        let heap = &bytes[paths.start..paths.end];
        DocTableView { bytes, env, num_docs, num_indexed, total_len, paths: heap }
    }

    /// Where the body lies, and its stored checksum.
    pub fn envelope(&self) -> (e: &Envelope)
        requires
            self.wf(),
        ensures
            envelope_of(*e, self.file(), self.head().crc),
    {
        &self.env
    }

    /// Absolute byte range of the path heap.
    pub fn paths_range(&self) -> (r: Range<usize>)
        requires
            self.wf(),
        ensures
            r.start == record_off(self.head().num_docs as int),
            r.end == self.file().len() - FOOTER_LEN,
    {
        let start: usize = self.env.body.end - self.paths.len();
        start..self.env.body.end
    }

    pub fn crc(&self) -> (c: u32)
        ensures
            c == self.head().crc,
    {
        self.env.crc
    }

    pub fn num_docs(&self) -> (n: u32)
        ensures
            n == self.head().num_docs,
    {
        self.num_docs
    }

    pub fn num_indexed(&self) -> (n: u32)
        ensures
            n == self.head().num_indexed,
    {
        self.num_indexed
    }

    pub fn total_len(&self) -> (n: u64)
        ensures
            n == self.head().total_len,
    {
        self.total_len
    }

    fn record_at(&self, i: u32) -> (at: usize)
        requires
            self.wf(),
            i < self.num_docs,
        ensures
            at == record_off(i as int),
            at + RECORD_LEN <= self.bytes@.len(),
    {
        let b = self.bytes;
        assert(b@.len() == b.len());
        assert(record_off(i as int) + RECORD_LEN <= record_off(self.num_docs as int)) by (nonlinear_arith)
            requires
                i < self.num_docs,
                record_off(i as int) == 48 + 48 * i,
                record_off(self.num_docs as int) == 48 + 48 * self.num_docs,
                RECORD_LEN == 48,
        ;
        HEADER_LEN + BODY_HEADER_LEN + RECORD_LEN * i as usize
    }

    /// The record of a document.
    pub fn record(&self, i: u32) -> (r: Option<DocRecord>)
        requires
            self.wf(),
        ensures
            r == if i < self.head().num_docs {
                Some(record_in(self.file(), i as int))
            } else {
                None
            },
    {
        if i >= self.num_docs {
            return None;
        }
        let b = self.bytes;
        let at: usize = self.record_at(i);
        Some(
            DocRecord {
                inode: u64_of(b, at),
                mtime_nanos: u64_of(b, at + 8) as i64,
                size: u64_of(b, at + 16),
                len: u32_of(b, at + 24),
                path_off: u32_of(b, at + 28),
                path_len: u32_of(b, at + 32),
                status: b[at + 36],
                content_hash: u64_of(b, at + 40),
            },
        )
    }

    /// Root-relative path with `/` separators.
    pub fn path(&self, i: u32) -> (r: Option<&'a str>)
        requires
            self.wf(),
        ensures
            match r {
                Some(s) => i < self.head().num_docs && doc_path(
                    self.file(),
                    self.head().num_docs,
                    i as int,
                ) == Some(s@),
                None => i >= self.head().num_docs || doc_path(
                    self.file(),
                    self.head().num_docs,
                    i as int,
                ) is None,
            },
    {
        match self.record(i) {
            None => None,
            Some(r) => path_at(self.paths, r.path_off, r.path_len),
        }
    }

    /// The length of a document where it is indexed: the one read that scoring
    /// does.
    pub fn doc_len_if_indexed(&self, i: u32) -> (r: Option<u32>)
        requires
            self.wf(),
        ensures
            r == if i < self.head().num_docs && record_in(self.file(), i as int).status
                == STATUS_INDEXED {
                Some(record_in(self.file(), i as int).len)
            } else {
                None
            },
    {
        if i >= self.num_docs {
            return None;
        }
        let at: usize = self.record_at(i);
        if self.bytes[at + 36] != STATUS_INDEXED {
            return None;
        }
        Some(u32_of(self.bytes, at + 24))
    }

    /// Full check: checksum, every record, the counters.
    pub fn verify(&self) -> (r: Result<()>)
        requires
            self.wf(),
        ensures
            match r {
                Ok(_) => verified(self.file(), self.head()) is Ok,
                Err(e) => verified(self.file(), self.head()) == Err::<(), _>(e@),
            },
    {
        envelope::verify_crc(self.bytes, &self.env)?;
        let mut indexed: u32 = 0;
        let mut total: u64 = 0;
        let mut i: u32 = 0;
        while i < self.num_docs
            invariant
                self.wf(),
                crc32(body_of(self.file())) == self.head().crc,
                i <= self.num_docs,
                indexed == stored_count(self.file(), i as int),
                total == stored_len(self.file(), i as int),
                indexed <= i,
                total <= i * 0xffff_ffff,
                first_fault(self.file(), self.num_docs, 0) == first_fault(
                    self.file(),
                    self.num_docs,
                    i as int,
                ),
            decreases self.num_docs - i,
        {
            let at: usize = self.record_at(i);
            if let Some(r) = self.record(i) {
                if r.status > MAX_STATUS {
                    let mut msg = doc_text(i, ": bad status ");
                    push_decimal(&mut msg, r.status as u64);
                    assert(msg@ =~= doc_msg(i as int, ": bad status "@ + decimal(r.status as nat)));
                    return Err(FormatError::Corrupt(msg));
                }
                if !r.indexed() && r.len != 0 {
                    let mut msg = doc_text(i, ": non-indexed but len ");
                    push_decimal(&mut msg, r.len as u64);
                    assert(msg@ =~= doc_msg(i as int, ": non-indexed but len "@ + decimal(r.len as nat)));
                    return Err(FormatError::Corrupt(msg));
                }
                if self.bytes[at + 37] != 0 || self.bytes[at + 38] != 0 || self.bytes[at + 39] != 0 {
                    return Err(FormatError::Corrupt(doc_text(i, ": reserved bytes set")));
                }
                if self.path(i).is_none() {
                    return Err(FormatError::Corrupt(doc_text(i, ": bad path")));
                }
                if r.indexed() {
                    indexed = indexed + 1;
                    total = total + r.len as u64;
                }
            }
            i = i + 1;
        }
        if indexed != self.num_indexed || total != self.total_len {
            return Err(FormatError::corrupt("doc table counters disagree with records"));
        }
        Ok(())
    }
}

fn doc_text(i: u32, rest: &str) -> (msg: String)
    ensures
        msg@ == doc_msg(i as int, rest@),
{
    let mut msg = "doc ".to_string();
    push_decimal(&mut msg, i as u64);
    msg.push_str(rest);
    msg
}

proof fn lemma_records(docs: Seq<DocIn<'_>>, n: int, i: int)
    requires
        0 <= n <= docs.len(),
    ensures
        records_bytes(docs, n).len() == RECORD_LEN * n,
        0 <= i < n ==> records_bytes(docs, n).subrange(RECORD_LEN * i, RECORD_LEN * i + RECORD_LEN)
            == record_bytes(docs[i], heap_off(paths_of(docs), i)),
    decreases n,
{
    lemma_auto_spec_u32_to_from_le_bytes();
    lemma_auto_spec_u64_to_from_le_bytes();
    if n > 0 {
        lemma_records(docs, n - 1, i);
        let a = records_bytes(docs, n - 1);
        let b = record_bytes(docs[n - 1], heap_off(paths_of(docs), n - 1));
        if 0 <= i < n - 1 {
            assert((a + b).subrange(RECORD_LEN * i, RECORD_LEN * i + RECORD_LEN) =~= a.subrange(
                RECORD_LEN * i,
                RECORD_LEN * i + RECORD_LEN,
            ));
        } else if i == n - 1 {
            assert((a + b).subrange(RECORD_LEN * i, RECORD_LEN * i + RECORD_LEN) =~= b);
        }
    }
}

/// The stored form of document `i`.
spec fn stored(docs: Seq<DocIn<'_>>, i: int) -> DocRecord {
    DocRecord {
        inode: docs[i].inode,
        mtime_nanos: docs[i].mtime_nanos,
        size: docs[i].size,
        len: docs[i].len,
        status: kind_byte(docs[i].kind),
        content_hash: docs[i].content_hash,
        path_off: heap_off(paths_of(docs), i) as u32,
        path_len: encode_utf8(docs[i].path@).len() as u32,
    }
}

proof fn lemma_record_at(s: Seq<u8>, k: int, docs: Seq<DocIn<'_>>, i: int)
    requires
        0 <= k,
        0 <= i < docs.len(),
        record_off(k) + RECORD_LEN <= s.len(),
        s.subrange(record_off(k), record_off(k) + RECORD_LEN) == record_bytes(
            docs[i],
            heap_off(paths_of(docs), i),
        ),
    ensures
        record_in(s, k) == stored(docs, i),
        s[record_off(k) + 37] == 0,
        s[record_off(k) + 38] == 0,
        s[record_off(k) + 39] == 0,
{
    lemma_auto_spec_u32_to_from_le_bytes();
    lemma_auto_spec_u64_to_from_le_bytes();
    let d = docs[i];
    lemma_i64_bits(d.mtime_nanos);
    let at = record_off(k);
    let w = record_bytes(d, heap_off(paths_of(docs), i));
    assert(w.len() == RECORD_LEN);
    assert(s.subrange(at, at + 8) =~= w.subrange(0, 8));
    assert(w.subrange(0, 8) =~= spec_u64_to_le_bytes(d.inode));
    assert(s.subrange(at + 8, at + 16) =~= w.subrange(8, 16));
    assert(w.subrange(8, 16) =~= spec_u64_to_le_bytes(d.mtime_nanos as u64));
    assert(s.subrange(at + 16, at + 24) =~= w.subrange(16, 24));
    assert(w.subrange(16, 24) =~= spec_u64_to_le_bytes(d.size));
    assert(s.subrange(at + 24, at + 28) =~= w.subrange(24, 28));
    assert(w.subrange(24, 28) =~= spec_u32_to_le_bytes(d.len));
    assert(s.subrange(at + 28, at + 32) =~= w.subrange(28, 32));
    assert(w.subrange(28, 32) =~= spec_u32_to_le_bytes(heap_off(paths_of(docs), i) as u32));
    assert(s.subrange(at + 32, at + 36) =~= w.subrange(32, 36));
    assert(w.subrange(32, 36) =~= spec_u32_to_le_bytes(encode_utf8(d.path@).len() as u32));
    assert(s[at + 36] == s.subrange(at, at + RECORD_LEN)[36]);
    assert(s[at + 37] == s.subrange(at, at + RECORD_LEN)[37]);
    assert(s[at + 38] == s.subrange(at, at + RECORD_LEN)[38]);
    assert(s[at + 39] == s.subrange(at, at + RECORD_LEN)[39]);
    assert(s.subrange(at + 40, at + 48) =~= w.subrange(40, 48));
    assert(w.subrange(40, 48) =~= spec_u64_to_le_bytes(d.content_hash));
}

/// The fixed part of the body.
#[verifier::opaque]
spec fn head_view(docs: Seq<DocIn<'_>>) -> Seq<u8> {
    let n = docs.len() as int;
    spec_u32_to_le_bytes(n as u32) + spec_u32_to_le_bytes(indexed_count(docs, n) as u32)
        + spec_u64_to_le_bytes(indexed_len(docs, n) as u64) + spec_u64_to_le_bytes(
        (HEADER_LEN + BODY_HEADER_LEN + RECORD_LEN * n) as u64,
    ) + spec_u64_to_le_bytes(heap(paths_of(docs)).len() as u64)
}

proof fn lemma_head_in(docs: Seq<DocIn<'_>>, tail: Seq<u8>)
    ensures
        ({
            let n = docs.len() as int;
            let b = head_view(docs) + tail;
            &&& head_view(docs).len() == BODY_HEADER_LEN
            &&& u32_at(b, 0) == n as u32
            &&& u32_at(b, 4) == indexed_count(docs, n) as u32
            &&& u64_at(b, 8) == indexed_len(docs, n) as u64
            &&& u64_at(b, 16) == (HEADER_LEN + BODY_HEADER_LEN + RECORD_LEN * n) as u64
            &&& u64_at(b, 24) == heap(paths_of(docs)).len() as u64
        }),
{
    lemma_auto_spec_u32_to_from_le_bytes();
    lemma_auto_spec_u64_to_from_le_bytes();
    reveal(head_view);
    let n = docs.len() as int;
    let b = head_view(docs) + tail;
    assert(b.subrange(0, 4) =~= spec_u32_to_le_bytes(n as u32));
    assert(b.subrange(4, 8) =~= spec_u32_to_le_bytes(indexed_count(docs, n) as u32));
    assert(b.subrange(8, 16) =~= spec_u64_to_le_bytes(indexed_len(docs, n) as u64));
    assert(b.subrange(16, 24) =~= spec_u64_to_le_bytes(
        (HEADER_LEN + BODY_HEADER_LEN + RECORD_LEN * n) as u64,
    ));
    assert(b.subrange(24, 32) =~= spec_u64_to_le_bytes(heap(paths_of(docs)).len() as u64));
}

proof fn lemma_record_behind(file: Seq<u8>, front: Seq<u8>, back: Seq<u8>, docs: Seq<DocIn<'_>>, i: int)
    requires
        front.len() == HEADER_LEN + BODY_HEADER_LEN,
        back.len() == FOOTER_LEN,
        0 <= i < docs.len() <= u32::MAX,
        heap(paths_of(docs)).len() <= u32::MAX,
        file == front + (records_bytes(docs, docs.len() as int) + heap(paths_of(docs))) + back,
    ensures
        record_in(file, i) == stored(docs, i),
        doc_path(file, docs.len() as u32, i) == Some(docs[i].path@),
        docs[i].kind == DocKind::Indexed || docs[i].len == 0 ==> record_fault(
            file,
            docs.len() as u32,
            i,
        ) is None,
{
    let n = docs.len() as int;
    let paths = paths_of(docs);
    let h = heap(paths);
    let recs = records_bytes(docs, n);
    lemma_records(docs, n, i);
    let at = record_off(i);
    assert(file.subrange(at, at + RECORD_LEN) =~= recs.subrange(
        RECORD_LEN * i,
        RECORD_LEN * i + RECORD_LEN,
    ));
    lemma_record_at(file, i, docs, i);
    assert(heap_in(file, n as u32) =~= h);
    lemma_heap_path(paths, i);
    assert(paths[i] == docs[i].path@);
}

proof fn lemma_doc_fault_free(docs: Seq<DocIn<'_>>, i: int)
    requires
        0 <= i <= docs.len(),
        doc_fault(docs, i) is None,
    ensures
        forall|k: int|
            #![trigger docs[k]]
            i <= k < docs.len() ==> docs[k].kind == DocKind::Indexed || docs[k].len == 0,
        i < docs.len() ==> heap(paths_of(docs)).len() <= u32::MAX,
    decreases docs.len() - i,
{
    if i < docs.len() {
        lemma_doc_fault_free(docs, i + 1);
        if i + 1 == docs.len() {
            assert(paths_of(docs).take(i + 1) =~= paths_of(docs));
        }
    }
}

proof fn lemma_no_record_fault(s: Seq<u8>, num_docs: u32, i: int)
    requires
        0 <= i,
        forall|k: int| 0 <= k < num_docs ==> #[trigger] record_fault(s, num_docs, k) is None,
    ensures
        first_fault(s, num_docs, i) is None,
    decreases num_docs - i,
{
    if i < num_docs {
        lemma_no_record_fault(s, num_docs, i + 1);
    }
}

proof fn lemma_stored_counts(s: Seq<u8>, docs: Seq<DocIn<'_>>, n: int)
    requires
        0 <= n <= docs.len(),
        forall|i: int| 0 <= i < docs.len() ==> #[trigger] record_in(s, i) == stored(docs, i),
    ensures
        stored_count(s, n) == indexed_count(docs, n),
        stored_len(s, n) == indexed_len(docs, n),
    decreases n,
{
    if n > 0 {
        lemma_stored_counts(s, docs, n - 1);
    }
}

/// What the file around a body says.
spec fn says(docs: Seq<DocIn<'_>>, file: Seq<u8>, crc: u32) -> bool {
    let n = docs.len() as int;
    &&& parsed(file) matches Ok(t)
    &&& t.num_docs == n
    &&& t.num_indexed == indexed_count(docs, n)
    &&& t.total_len == indexed_len(docs, n)
    &&& t.crc == crc
    &&& verified(file, t) is Ok
    &&& forall|i: int|
        0 <= i < n ==> #[trigger] record_in(file, i) == stored(docs, i) && doc_path(
            file,
            t.num_docs,
            i,
        ) == Some(docs[i].path@)
}

proof fn lemma_body_split(docs: Seq<DocIn<'_>>)
    ensures
        body_view(docs) == head_view(docs) + (records_bytes(docs, docs.len() as int) + heap(
            paths_of(docs),
        )),
{
    reveal(head_view);
    assert(body_view(docs) =~= head_view(docs) + (records_bytes(docs, docs.len() as int) + heap(
        paths_of(docs),
    )));
}

proof fn lemma_file_split(head: Seq<u8>, rest: Seq<u8>)
    ensures
        ({
            let body = head + rest;
            sealed(Kind::Doc, body) == (envelope::header_view(Kind::Doc) + head) + rest
                + envelope::footer_view(body.len() as u64, crc32(body))
        }),
{
    let body = head + rest;
    assert(sealed(Kind::Doc, body) =~= (envelope::header_view(Kind::Doc) + head) + rest
        + envelope::footer_view(body.len() as u64, crc32(body)));
}

proof fn lemma_records_read_back(docs: Seq<DocIn<'_>>, body: Seq<u8>)
    requires
        docs.len() <= u32::MAX,
        doc_fault(docs, 0) is None,
        body == head_view(docs) + (records_bytes(docs, docs.len() as int) + heap(paths_of(docs))),
    ensures
        ({
            let n = docs.len() as int;
            let file = sealed(Kind::Doc, body);
            &&& forall|i: int|
                0 <= i < n ==> #[trigger] record_in(file, i) == stored(docs, i) && doc_path(
                    file,
                    n as u32,
                    i,
                ) == Some(docs[i].path@)
            &&& first_fault(file, n as u32, 0) is None
            &&& stored_count(file, n) == indexed_count(docs, n)
            &&& stored_len(file, n) == indexed_len(docs, n)
        }),
{
    let n = docs.len() as int;
    let h = heap(paths_of(docs));
    let recs = records_bytes(docs, n);
    let head = head_view(docs);
    lemma_head_in(docs, recs + h);
    lemma_doc_fault_free(docs, 0);
    lemma_file_split(head, recs + h);
    let file = sealed(Kind::Doc, body);
    let front = envelope::header_view(Kind::Doc) + head;
    let back = envelope::footer_view(body.len() as u64, crc32(body));
    envelope::lemma_envelope_lens(Kind::Doc, body.len() as u64, crc32(body));
    assert forall|i: int| 0 <= i < n implies #[trigger] record_in(file, i) == stored(docs, i)
        && doc_path(file, n as u32, i) == Some(docs[i].path@) && record_fault(
        file,
        n as u32,
        i,
    ) is None by {
        lemma_record_behind(file, front, back, docs, i);
    }
    lemma_stored_counts(file, docs, n);
    assert forall|k: int| 0 <= k < n implies #[trigger] record_fault(file, n as u32, k) is None by {
        let x = record_in(file, k);
    }
    lemma_no_record_fault(file, n as u32, 0);
}

#[verifier::rlimit(60)]
proof fn lemma_file_says(docs: Seq<DocIn<'_>>, body: Seq<u8>)
    requires
        docs.len() <= u32::MAX,
        doc_fault(docs, 0) is None,
        body == head_view(docs) + (records_bytes(docs, docs.len() as int) + heap(paths_of(docs))),
        HEADER_LEN + body.len() + FOOTER_LEN <= usize::MAX,
    ensures
        says(docs, sealed(Kind::Doc, body), crc32(body)),
{
    let n = docs.len() as int;
    let h = heap(paths_of(docs));
    let recs = records_bytes(docs, n);
    lemma_head_in(docs, recs + h);
    lemma_records(docs, n, -1);
    lemma_sealed_parses(Kind::Doc, body);
    lemma_counts(docs, n);
    assert(n * 0xffff_ffff <= u64::MAX) by (nonlinear_arith)
        requires
            n <= u32::MAX,
    ;
    lemma_records_read_back(docs, body);
}

/// A table read back from its own file passes the full check and holds the
/// documents that were written, in order, each with its path.
pub proof fn lemma_roundtrip(docs: Seq<DocIn<'_>>)
    requires
        docs.len() <= u32::MAX,
        doc_fault(docs, 0) is None,
        sealed(Kind::Doc, body_view(docs)).len() <= usize::MAX,
    ensures
        ({
            let file = sealed(Kind::Doc, body_view(docs));
            let n = docs.len() as int;
            &&& parsed(file) matches Ok(t)
            &&& t.num_docs == n
            &&& t.num_indexed == indexed_count(docs, n)
            &&& t.total_len == indexed_len(docs, n)
            &&& t.crc == crc32(body_view(docs))
            &&& verified(file, t) is Ok
            &&& forall|i: int|
                #![trigger docs[i]]
                0 <= i < n ==> {
                    let r = record_in(file, i);
                    &&& r.inode == docs[i].inode
                    &&& r.mtime_nanos == docs[i].mtime_nanos
                    &&& r.size == docs[i].size
                    &&& r.len == docs[i].len
                    &&& byte_kind(r.status) == Some(docs[i].kind)
                    &&& r.content_hash == docs[i].content_hash
                    &&& doc_path(file, t.num_docs, i) == Some(docs[i].path@)
                }
        }),
{
    let body = body_view(docs);
    lemma_body_split(docs);
    lemma_sealed_parses(Kind::Doc, body);
    lemma_file_says(docs, body);
    let file = sealed(Kind::Doc, body);
    assert forall|i: int| #![trigger docs[i]] 0 <= i < docs.len() implies record_in(file, i)
        == stored(docs, i) by {
        let x = record_in(file, i);
    }
}

} // verus!
