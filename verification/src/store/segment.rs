//! One committed segment: its index and document files, viewed where they lie,
//! and its deletions.

use vstd::layout::size_of;
use vstd::prelude::*;

use super::writer::{component_end, lemma_component_end};
use super::{
    del_file, del_name, doc_file, doc_name, files_of, idx_file, idx_name, join, joined,
    segment_files,
};
use crate::error::{Error, ErrorView, Result};
use crate::format::del::{self, bit_seq, count_set, Bitmap, DelView};
use crate::format::doc::{
    self, byte_kind, doc_path, kind_status, record_in, DocTableView, STATUS_INDEXED,
};
use crate::format::idx::{self, lookup_at, IdxView};
use crate::format::manifest::SegmentEntry;
use crate::format::postings::{decoded_list, DiskPostingList};
use crate::format::{format_message, FormatError, FormatErrorView};
use crate::index::doc_table::DocView;
use crate::index::reserve::capped;
use crate::index::postings::Entry;
use crate::index::{DocId, DocMeta, DocStatus, SegmentReader};
use crate::text::{chars_of, decimal, push_decimal, text_of, views};
use vstd::utf8::encode_utf8;

verus! {

/// What came of reading a file.
#[derive(Debug)]
pub enum FileBytes<'a> {
    Bytes(&'a [u8]),
    /// There is no such file.
    Missing,
    /// Any other failure, with what is told of it.
    Failed(String),
}

/// A [`FileBytes`] by value.
pub ghost enum FileView {
    Bytes(Seq<u8>),
    Missing,
    Failed(Seq<char>),
}

impl<'a> View for FileBytes<'a> {
    type V = FileView;

    open spec fn view(&self) -> FileView {
        match self {
            FileBytes::Bytes(b) => FileView::Bytes(b@),
            FileBytes::Missing => FileView::Missing,
            FileBytes::Failed(why) => FileView::Failed(why@),
        }
    }
}

/// The file at `path` does not hold what it should.
pub open spec fn broken<T>(path: Seq<char>, reason: Seq<char>) -> core::result::Result<
    T,
    ErrorView,
> {
    Err(ErrorView::Corrupt { path, reason })
}

/// The bytes of a file that a manifest refers to. One that is not there may
/// just have been retired by a commit in between.
pub open spec fn found(path: Seq<char>, file: FileView) -> core::result::Result<
    Seq<u8>,
    ErrorView,
> {
    match file {
        FileView::Bytes(b) => Ok(b),
        FileView::Missing => Err(ErrorView::Vanished(path)),
        FileView::Failed(why) => broken(path, why),
    }
}

/// What is told of a file of the wrong length.
pub open spec fn length_text(len: nat, want: nat) -> Seq<char> {
    "length "@ + decimal(len) + " but manifest says "@ + decimal(want)
}

/// The file is not what its manifest entry says.
pub fn corrupt(path: &str, reason: &str) -> (e: Error)
    ensures
        e@ == (ErrorView::Corrupt { path: path@, reason: reason@ }),
{
    Error::Corrupt { path: path.to_string(), reason: reason.to_string() }
}

/// The file does not decode.
pub fn undecoded(path: &str, e: &FormatError) -> (r: Error)
    ensures
        r@ == (ErrorView::Corrupt { path: path@, reason: format_message(e@) }),
{
    Error::Corrupt { path: path.to_string(), reason: e.message() }
}

/// The bytes of a file of the length that its manifest entry says.
pub fn sized<'a>(path: &str, file: FileBytes<'a>, want: u64) -> (r: Result<&'a [u8]>)
    ensures
        match (r, found(path@, file@)) {
            (Ok(b), Ok(bytes)) => b@ == bytes && bytes.len() == want,
            (Err(e), Ok(bytes)) => bytes.len() != want && e@ == (ErrorView::Corrupt {
                path: path@,
                reason: length_text(bytes.len(), want as nat),
            }),
            (Err(e), Err(f)) => e@ == f,
            (Ok(_), Err(_)) => false,
        },
{
    match file {
        FileBytes::Bytes(b) => {
            assert(b@.len() == b.len());
            if b.len() as u64 != want {
                let mut reason: String = "length ".to_string();
                push_decimal(&mut reason, b.len() as u64);
                reason.push_str(" but manifest says ");
                push_decimal(&mut reason, want);
                return Err(Error::Corrupt { path: path.to_string(), reason });
            }
            Ok(b)
        },
        FileBytes::Missing => Err(Error::Vanished(path.to_string())),
        FileBytes::Failed(why) => Err(Error::Corrupt { path: path.to_string(), reason: why }),
    }
}

/// The check of an index file against its manifest entry.
pub open spec fn idx_checked(
    path: Seq<char>,
    file: FileView,
    e: SegmentEntry,
    verify: bool,
) -> core::result::Result<Seq<u8>, ErrorView> {
    match found(path, file) {
        Err(f) => Err(f),
        Ok(b) => if b.len() != e.idx_len {
            broken(path, length_text(b.len(), e.idx_len as nat))
        } else {
            match idx::parsed(b) {
                Err(f) => broken(path, format_message(f)),
                Ok((crc, toc)) => if crc != e.idx_crc {
                    broken(path, "footer checksum differs from manifest"@)
                } else if toc.num_terms != e.num_terms {
                    broken(path, "term count differs from manifest"@)
                } else if verify {
                    match idx::verified(b, toc, crc) {
                        Err(f) => broken(path, format_message(f)),
                        Ok(_) => Ok(b),
                    }
                } else {
                    Ok(b)
                },
            }
        },
    }
}

/// The check of a document file against its manifest entry.
pub open spec fn doc_checked(
    path: Seq<char>,
    file: FileView,
    e: SegmentEntry,
    verify: bool,
) -> core::result::Result<Seq<u8>, ErrorView> {
    match found(path, file) {
        Err(f) => Err(f),
        Ok(b) => if b.len() != e.doc_len {
            broken(path, length_text(b.len(), e.doc_len as nat))
        } else {
            match doc::parsed(b) {
                Err(f) => broken(path, format_message(f)),
                Ok(head) => if head.crc != e.doc_crc {
                    broken(path, "footer checksum differs from manifest"@)
                } else if head.num_docs != e.num_docs {
                    broken(path, "doc count differs from manifest"@)
                } else if verify {
                    match doc::verified(b, head) {
                        Err(f) => broken(path, format_message(f)),
                        Ok(_) => Ok(b),
                    }
                } else {
                    Ok(b)
                },
            }
        },
    }
}

/// The check of a deletions file against its manifest entry.
pub open spec fn del_checked(
    path: Seq<char>,
    file: FileView,
    e: SegmentEntry,
) -> core::result::Result<Seq<bool>, ErrorView> {
    match found(path, file) {
        Err(f) => Err(f),
        Ok(b) => if b.len() != e.del_len {
            broken(path, length_text(b.len(), e.del_len as nat))
        } else {
            match del::parsed(b) {
                Err(f) => broken(path, format_message(f)),
                Ok((num_docs, num_deleted, bits, crc)) => if crc != e.del_crc {
                    broken(path, "footer checksum differs from manifest"@)
                } else if num_docs != e.num_docs {
                    broken(path, "bitmap size differs from segment"@)
                } else if num_deleted != e.num_deleted {
                    broken(path, "deleted count differs from manifest"@)
                } else {
                    Ok(bit_seq(bits, num_docs as nat))
                },
            }
        },
    }
}

/// What a segment holds.
#[verifier::ext_equal]
pub ghost struct SegmentView {
    pub entry: SegmentEntry,
    /// The index file.
    pub idx: Seq<u8>,
    /// The document file.
    pub doc: Seq<u8>,
    /// Which documents are deleted, where there is a deletions file.
    pub del: Option<Seq<bool>>,
}

/// The segment of these files, or what is wrong with the first one that is not
/// as its manifest entry says.
#[verifier::opaque]
pub open spec fn opened(
    dir: Seq<char>,
    e: SegmentEntry,
    idx: FileView,
    doc: FileView,
    del: FileView,
    verify: bool,
) -> core::result::Result<SegmentView, ErrorView> {
    match idx_checked(joined(dir, idx_file(e.segment_id)), idx, e, verify) {
        Err(f) => Err(f),
        Ok(idx) => match doc_checked(joined(dir, doc_file(e.segment_id)), doc, e, verify) {
            Err(f) => Err(f),
            Ok(doc) => if e.del_gen > 0 {
                match del_checked(joined(dir, del_file(e.segment_id, e.del_gen)), del, e) {
                    Err(f) => Err(f),
                    Ok(bits) => Ok(SegmentView { entry: e, idx, doc, del: Some(bits) }),
                }
            } else {
                Ok(SegmentView { entry: e, idx, doc, del: None })
            },
        },
    }
}

/// An opened segment has the entry that it was opened with.
pub proof fn lemma_opened_entry(
    dir: Seq<char>,
    e: SegmentEntry,
    idx: FileView,
    doc: FileView,
    del: FileView,
    verify: bool,
)
    ensures
        opened(dir, e, idx, doc, del, verify) matches Ok(s) ==> s.entry == e,
{
    reveal(opened);
}

/// A document of a segment is deleted.
pub open spec fn gone(s: SegmentView, local: int) -> bool {
    s.del matches Some(bits) && 0 <= local < bits.len() && bits[local]
}

/// The length of a document that is indexed and not deleted.
pub open spec fn live_len(s: SegmentView, local: u32) -> Option<u32> {
    if local < s.entry.num_docs && !gone(s, local as int) && record_in(s.doc, local as int).status
        == STATUS_INDEXED {
        Some(record_in(s.doc, local as int).len)
    } else {
        None
    }
}

/// Whether a segment file lists a term, and its postings.
pub open spec fn postings_in(idx: Seq<u8>, term: Seq<char>) -> Option<(Seq<Entry>, u32)> {
    match idx::parsed(idx) {
        Ok((_, toc)) => match lookup_at(idx, toc, encode_utf8(term)) {
            Ok(Some((data, df))) => Some((decoded_list(data), df)),
            _ => None,
        },
        Err(_) => None,
    }
}

/// `path` with the components of `rel` from character `i` on below it.
pub open spec fn under_from(path: Seq<char>, rel: Seq<char>, i: int) -> Seq<char>
    decreases rel.len() + 1 - i,
{
    if i < 0 || i >= rel.len() {
        path
    } else {
        proof {
            lemma_component_end(rel, i);
        }
        let e = component_end(rel, i);
        under_from(
            if e > i {
                joined(path, rel.subrange(i, e))
            } else {
                path
            },
            rel,
            e + 1,
        )
    }
}

/// The file `rel`, whose components `/` parts, below `root`.
pub open spec fn under(root: Seq<char>, rel: Seq<char>) -> Seq<char> {
    under_from(root, rel, 0)
}

/// The file `rel`, whose components `/` parts, below `root`.
pub fn resolve(root: &str, rel: &str) -> (r: String)
    ensures
        r@ == under(root@, rel@),
{
    let cs = chars_of(rel);
    let mut path: String = root.to_string();
    let mut i: usize = 0;
    let mut start: usize = 0;
    while i < cs.len()
        invariant
            cs@ == rel@,
            start <= i <= cs@.len(),
            component_end(rel@, start as int) == component_end(rel@, i as int),
            under(root@, rel@) == under_from(path@, rel@, start as int),
        decreases cs@.len() - i,
    {
        if cs[i] == '/' {
            if start < i {
                path = join(path.as_str(), text_of(&cs, start, i).as_str());
            }
            start = i + 1;
        }
        i = i + 1;
    }
    if start < i {
        path = join(path.as_str(), text_of(&cs, start, i).as_str());
    }
    assert(under_from(path@, rel@, (rel@.len() + 1) as int) == path@);
    path
}

/// The status that a record's byte stands for; one that is not known counts as
/// skipped.
pub open spec fn status_of(b: u8) -> DocStatus {
    match byte_kind(b) {
        Some(k) => kind_status(k),
        None => DocStatus::Skipped,
    }
}

/// What is known of a document that is not deleted, with its path below `root`.
pub open spec fn doc_in(s: SegmentView, local: u32, root: Seq<char>) -> Option<DocView> {
    if gone(s, local as int) || local >= s.entry.num_docs {
        None
    } else {
        match doc_path(s.doc, s.entry.num_docs, local as int) {
            None => None,
            Some(rel) => {
                let r = record_in(s.doc, local as int);
                Some(
                    DocView {
                        path: under(root, rel),
                        inode: r.inode,
                        mtime: r.mtime_nanos,
                        size: r.size,
                        len: r.len,
                        status: status_of(r.status),
                        content_hash: r.content_hash,
                    },
                )
            },
        }
    }
}

/// How many of the first `n` documents are deleted and were indexed.
pub open spec fn gone_indexed(s: SegmentView, n: int) -> nat
    decreases n,
{
    if n <= 0 {
        0
    } else {
        gone_indexed(s, n - 1) + if gone(s, n - 1) && record_in(s.doc, n - 1).status
            == STATUS_INDEXED {
            1nat
        } else {
            0
        }
    }
}

/// How many of the first `n` documents are indexed and not deleted.
pub open spec fn live_indexed(s: SegmentView, n: int) -> nat
    decreases n,
{
    if n <= 0 {
        0
    } else {
        live_indexed(s, n - 1) + if live_len(s, (n - 1) as u32) is Some {
            1nat
        } else {
            0
        }
    }
}

/// One committed segment.
#[derive(Debug)]
pub struct Segment<'a> {
    entry: SegmentEntry,
    idx: IdxView<'a>,
    docs: DocTableView<'a>,
    del: Option<Bitmap>,
}

impl<'a> View for Segment<'a> {
    type V = SegmentView;

    closed spec fn view(&self) -> SegmentView {
        SegmentView {
            entry: self.entry,
            idx: self.idx.file(),
            doc: self.docs.file(),
            del: match self.del {
                Some(b) => Some(b@),
                None => None,
            },
        }
    }
}

impl<'a> Segment<'a> {
    /// The files are parsed and fit the manifest entry.
    pub closed spec fn wf(&self) -> bool {
        &&& self.idx.wf()
        &&& self.docs.wf()
        &&& self.docs.head().num_docs == self.entry.num_docs
        &&& self.entry.end() <= u32::MAX + 1
        &&& match self.del {
            Some(b) => b.wf() && b@.len() == self.entry.num_docs && count_set(b@)
                == self.entry.num_deleted,
            None => true,
        }
    }

    /// The head of the document file.
    pub closed spec fn head(&self) -> doc::TableView {
        self.docs.head()
    }

    /// What well-formedness says of the files.
    pub proof fn lemma_wf(&self)
        requires
            self.wf(),
        ensures
            idx::parsed(self@.idx) is Ok,
            doc::parsed(self@.doc) == Ok::<doc::TableView, FormatErrorView>(self.head()),
            self.head().num_docs == self@.entry.num_docs,
            self@.entry.end() <= u32::MAX + 1,
            self@.del matches Some(bits) ==> bits.len() == self@.entry.num_docs && count_set(bits)
                == self@.entry.num_deleted,
    {
        self.idx.lemma_wf();
        self.docs.lemma_wf();
    }

    /// Checks a committed segment against its manifest entry. Any failure is
    /// [`Error::Corrupt`], for the manifest committed the segment, but for a
    /// file that is not there, which is [`Error::Vanished`]. With `verify`, the
    /// index and document files are checked in full. `del` is looked at only
    /// where the entry has deletions.
    pub fn open(
        dir: &str,
        entry: &SegmentEntry,
        idx: FileBytes<'a>,
        doc: FileBytes<'a>,
        del: FileBytes<'a>,
        verify: bool,
    ) -> (r: Result<Segment<'a>>)
        requires
            entry.end() <= u32::MAX + 1,
        ensures
            match r {
                Ok(s) => s.wf() && opened(dir@, *entry, idx@, doc@, del@, verify) == Ok::<
                    _,
                    ErrorView,
                >(s@),
                Err(e) => opened(dir@, *entry, idx@, doc@, del@, verify) == Err::<SegmentView, _>(
                    e@,
                ),
            },
    {
        proof {
            reveal(opened);
        }
        let idx_path = join(dir, idx_name(entry.segment_id).as_str());
        let bytes = sized(idx_path.as_str(), idx, entry.idx_len)?;
        let idx_view = match IdxView::parse(bytes) {
            Ok(v) => v,
            Err(e) => {
                return Err(undecoded(idx_path.as_str(), &e));
            },
        };
        if idx_view.crc() != entry.idx_crc {
            return Err(corrupt(idx_path.as_str(), "footer checksum differs from manifest"));
        }
        if idx_view.num_terms() != entry.num_terms {
            return Err(corrupt(idx_path.as_str(), "term count differs from manifest"));
        }
        if verify {
            if let Err(e) = idx_view.verify() {
                return Err(undecoded(idx_path.as_str(), &e));
            }
        }
        assert(idx_checked(idx_path@, idx@, *entry, verify) == Ok::<_, ErrorView>(bytes@));
        let ghost idx_bytes = bytes@;

        let doc_path = join(dir, doc_name(entry.segment_id).as_str());
        let bytes = sized(doc_path.as_str(), doc, entry.doc_len)?;
        let docs = match DocTableView::parse(bytes) {
            Ok(v) => v,
            Err(e) => {
                return Err(undecoded(doc_path.as_str(), &e));
            },
        };
        if docs.crc() != entry.doc_crc {
            return Err(corrupt(doc_path.as_str(), "footer checksum differs from manifest"));
        }
        if docs.num_docs() != entry.num_docs {
            return Err(corrupt(doc_path.as_str(), "doc count differs from manifest"));
        }
        if verify {
            if let Err(e) = docs.verify() {
                return Err(undecoded(doc_path.as_str(), &e));
            }
        }
        assert(doc_checked(doc_path@, doc@, *entry, verify) == Ok::<_, ErrorView>(bytes@));

        if entry.del_gen == 0 {
            return Ok(Segment { entry: *entry, idx: idx_view, docs, del: None });
        }
        let del_path = join(dir, del_name(entry.segment_id, entry.del_gen).as_str());
        let bytes = sized(del_path.as_str(), del, entry.del_len)?;
        let view = match DelView::parse_verified(bytes) {
            Ok(v) => v,
            Err(e) => {
                return Err(undecoded(del_path.as_str(), &e));
            },
        };
        if view.crc() != entry.del_crc {
            return Err(corrupt(del_path.as_str(), "footer checksum differs from manifest"));
        }
        if view.num_docs() != entry.num_docs {
            return Err(corrupt(del_path.as_str(), "bitmap size differs from segment"));
        }
        if view.num_deleted() != entry.num_deleted {
            return Err(corrupt(del_path.as_str(), "deleted count differs from manifest"));
        }
        Ok(Segment { entry: *entry, idx: idx_view, docs, del: Some(view.to_bitmap()) })
    }

    /// The manifest entry.
    pub fn entry(&self) -> (e: &SegmentEntry)
        ensures
            *e == self@.entry,
    {
        &self.entry
    }

    /// The index file.
    pub fn idx(&self) -> (v: &IdxView<'a>)
        requires
            self.wf(),
        ensures
            v.wf(),
            v.file() == self@.idx,
    {
        &self.idx
    }

    /// The document file.
    pub fn docs(&self) -> (v: &DocTableView<'a>)
        requires
            self.wf(),
        ensures
            v.wf(),
            v.file() == self@.doc,
            v.head() == self.head(),
    {
        &self.docs
    }

    /// The deletions, where there are any.
    pub fn deletions(&self) -> (r: Option<&Bitmap>)
        requires
            self.wf(),
        ensures
            match r {
                Some(b) => b.wf() && self@.del == Some(b@),
                None => self@.del is None,
            },
    {
        self.del.as_ref()
    }

    /// Whether a document is deleted; `false` out of range.
    pub fn is_deleted(&self, local: DocId) -> (r: bool)
        requires
            self.wf(),
        ensures
            r == gone(self@, local as int),
    {
        match &self.del {
            Some(b) => b.get(local),
            None => false,
        }
    }

    /// Indexed documents, deleted ones among them.
    pub fn num_indexed(&self) -> (n: u32)
        requires
            self.wf(),
        ensures
            n == self.head().num_indexed,
    {
        self.docs.num_indexed()
    }

    /// Total length of the indexed documents, deleted ones among them.
    pub fn total_len(&self) -> (n: u64)
        requires
            self.wf(),
        ensures
            n == self.head().total_len,
    {
        self.docs.total_len()
    }

    /// How many indexed documents are not deleted.
    pub fn live_count(&self) -> (n: u32)
        requires
            self.wf(),
        ensures
            n == if self.head().num_indexed >= gone_indexed(self@, self@.entry.num_docs as int) {
                self.head().num_indexed - gone_indexed(self@, self@.entry.num_docs as int)
            } else {
                0
            },
    {
        let mut out: u32 = 0;
        let mut i: u32 = 0;
        while i < self.entry.num_docs
            invariant
                self.wf(),
                i <= self.entry.num_docs,
                self.entry == self@.entry,
                out == gone_indexed(self@, i as int),
                out <= i,
            decreases self.entry.num_docs - i,
        {
            if self.is_deleted(i) {
                match self.docs.doc_len_if_indexed(i) {
                    Some(_) => {
                        out = out + 1;
                    },
                    None => {},
                }
            }
            i = i + 1;
        }
        if self.docs.num_indexed() >= out {
            self.docs.num_indexed() - out
        } else {
            0
        }
    }

    /// Full check of the index and document files.
    pub fn verify(&self, dir: &str) -> (r: Result<()>)
        requires
            self.wf(),
        ensures
            match r {
                Ok(_) => segment_fault(self@, dir@) is None,
                Err(e) => segment_fault(self@, dir@) == Some(e@),
            },
    {
        proof {
            self.idx.lemma_wf();
            self.docs.lemma_wf();
        }
        if let Err(e) = self.idx.verify() {
            let path = join(dir, idx_name(self.entry.segment_id).as_str());
            return Err(undecoded(path.as_str(), &e));
        }
        if let Err(e) = self.docs.verify() {
            let path = join(dir, doc_name(self.entry.segment_id).as_str());
            return Err(undecoded(path.as_str(), &e));
        }
        Ok(())
    }

    /// What is known of a document, with its path below `root`. `None` out of
    /// range and for deleted ones.
    pub fn doc_meta(&self, local: DocId, root: &str) -> (r: Option<DocMeta>)
        requires
            self.wf(),
        ensures
            match r {
                Some(m) => doc_in(self@, local, root@) == Some(m@),
                None => doc_in(self@, local, root@) is None,
            },
    {
        if self.is_deleted(local) {
            return None;
        }
        let rec = match self.docs.record(local) {
            Some(rec) => rec,
            None => {
                return None;
            },
        };
        match self.docs.path(local) {
            None => None,
            Some(rel) => {
                let status = match rec.kind() {
                    Some(k) => DocStatus::from(k),
                    None => DocStatus::Skipped,
                };
                Some(
                    DocMeta {
                        path: resolve(root, rel),
                        inode: rec.inode,
                        mtime: rec.mtime_nanos,
                        size: rec.size,
                        len: rec.len,
                        status,
                        content_hash: rec.content_hash,
                    },
                )
            },
        }
    }

    /// Heap held by the value; the files lie elsewhere.
    pub fn heap_bytes(&self) -> (n: usize)
        requires
            self.wf(),
        ensures
            n == capped(
                size_of::<Segment<'a>>() as int + match self@.del {
                    Some(bits) => (bits.len() + 7) / 8,
                    None => 0,
                },
            ),
    {
        let own: usize = core::mem::size_of::<Segment<'a>>();
        let bits: usize = match &self.del {
            Some(b) => ((b.num_docs() as u64 + 7) / 8) as usize,
            None => 0,
        };
        own.saturating_add(bits)
    }

    /// The files of the segment.
    pub fn files(&self, dir: &str) -> (v: Vec<String>)
        ensures
            views(v@) == files_of(self@.entry).map_values(|n: Seq<char>| joined(dir@, n)),
    {
        let names = segment_files(&self.entry);
        let mut v: Vec<String> = Vec::new();
        let mut i: usize = 0;
        while i < names.len()
            invariant
                i <= names@.len(),
                v@.len() == i,
                forall|k: int| 0 <= k < i ==> (#[trigger] v@[k])@ == joined(dir@, views(names@)[k]),
            decreases names@.len() - i,
        {
            v.push(join(dir, names[i].as_str()));
            i = i + 1;
        }
        assert(views(v@) =~= files_of(self@.entry).map_values(|n: Seq<char>| joined(dir@, n)));
        v
    }
}

/// What a full check finds wrong with a segment.
pub open spec fn segment_fault(s: SegmentView, dir: Seq<char>) -> Option<ErrorView> {
    match (idx::parsed(s.idx), doc::parsed(s.doc)) {
        (Ok((crc, toc)), Ok(head)) => match idx::verified(s.idx, toc, crc) {
            Err(f) => Some(
                ErrorView::Corrupt {
                    path: joined(dir, idx_file(s.entry.segment_id)),
                    reason: format_message(f),
                },
            ),
            Ok(_) => match doc::verified(s.doc, head) {
                Err(f) => Some(
                    ErrorView::Corrupt {
                        path: joined(dir, doc_file(s.entry.segment_id)),
                        reason: format_message(f),
                    },
                ),
                Ok(_) => None,
            },
        },
        _ => None,
    }
}

impl<'s, 'a> SegmentReader for &'s Segment<'a> {
    type List = DiskPostingList<'a>;

    open spec fn wf(&self) -> bool {
        (**self).wf()
    }

    open spec fn first(&self) -> u32 {
        (**self)@.entry.base_doc
    }

    open spec fn bound(&self) -> u32 {
        (**self)@.entry.num_docs
    }

    open spec fn lookup(&self, term: Seq<char>) -> Option<(Seq<Entry>, u32)> {
        postings_in((**self)@.idx, term)
    }

    open spec fn length(&self, local: u32) -> Option<u32> {
        live_len((**self)@, local)
    }

    proof fn lemma_bounds(&self) {
    }

    fn base(&self) -> (r: DocId) {
        self.entry.base_doc
    }

    fn num_docs(&self) -> (r: u32) {
        self.entry.num_docs
    }

    fn postings(&self, term: &str) -> (r: Option<DiskPostingList<'a>>) {
        proof {
            (**self).idx.lemma_wf();
        }
        self.idx.lookup(term)
    }

    fn doc_len(&self, local: DocId) -> (r: Option<u32>) {
        if self.is_deleted(local) {
            return None;
        }
        self.docs.doc_len_if_indexed(local)
    }
}

/// Where a segment's document file passes its full check, the count of indexed
/// documents that are not deleted is exact.
pub proof fn lemma_live_count(s: SegmentView, head: doc::TableView)
    requires
        doc::parsed(s.doc) == Ok::<doc::TableView, FormatErrorView>(head),
        head.num_docs == s.entry.num_docs,
        doc::verified(s.doc, head) is Ok,
    ensures
        live_indexed(s, s.entry.num_docs as int) == head.num_indexed - gone_indexed(
            s,
            s.entry.num_docs as int,
        ),
{
    lemma_live_split(s, s.entry.num_docs as int);
}

proof fn lemma_live_split(s: SegmentView, n: int)
    requires
        0 <= n <= s.entry.num_docs,
    ensures
        live_indexed(s, n) + gone_indexed(s, n) == doc::stored_count(s.doc, n),
    decreases n,
{
    if n > 0 {
        lemma_live_split(s, n - 1);
    }
}

/// A deleted document is not found, whatever its record says.
pub proof fn lemma_deleted_is_hidden(s: SegmentView, local: u32, root: Seq<char>)
    requires
        gone(s, local as int),
    ensures
        live_len(s, local) is None,
        doc_in(s, local, root) is None,
{
}

/// A moment, as its distance from the start of 1970 (UTC) and whether it lies
/// before that.
#[derive(Debug, Clone, Copy, PartialEq, Eq, Structural)]
pub struct Moment {
    pub before_epoch: bool,
    pub secs: u64,
    /// Nanoseconds beyond the whole seconds; less than a second.
    pub nanos: u32,
}

impl Moment {
    /// The distance in nanoseconds.
    pub open spec fn distance(&self) -> int {
        self.secs * 1_000_000_000 + self.nanos
    }
}

/// Nanoseconds since the start of 1970, as far as they fit.
pub fn time_to_nanos(t: Moment) -> (n: i64)
    ensures
        n == if !t.before_epoch {
            if t.distance() <= i64::MAX {
                t.distance()
            } else {
                i64::MAX as int
            }
        } else if t.distance() <= i64::MAX {
            -t.distance()
        } else {
            i64::MIN as int
        },
{
    let d: u128 = t.secs as u128 * 1_000_000_000 + t.nanos as u128;
    let fits: bool = d <= i64::MAX as u128;
    if !t.before_epoch {
        if fits {
            d as i64
        } else {
            i64::MAX
        }
    } else if fits {
        -(d as i64)
    } else {
        i64::MIN
    }
}

/// The moment that many nanoseconds from the start of 1970.
pub fn nanos_to_time(n: i64) -> (t: Moment)
    ensures
        t.before_epoch == (n < 0),
        t.nanos < 1_000_000_000,
        t.distance() == if n < 0 {
            -n
        } else {
            n as int
        },
{
    let d: u64 = if n >= 0 {
        n as u64
    } else if n == i64::MIN {
        9_223_372_036_854_775_808
    } else {
        (-n) as u64
    };
    Moment {
        before_epoch: n < 0,
        secs: d / 1_000_000_000,
        nanos: (d % 1_000_000_000) as u32,
    }
}

} // verus!
