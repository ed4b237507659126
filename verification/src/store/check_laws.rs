//! What is opened is what the manifest says, and a full check passes over nothing.

use vstd::prelude::*;

use super::reader::{index_fault, IndexView};
use super::segment::{opened, segment_fault, FileView, SegmentView};
use crate::format::del::{self, bit_seq};
use crate::format::doc;
use crate::format::idx;
use crate::format::manifest::SegmentEntry;

verus! {

/// The index file is the one that the entry was written for.
pub open spec fn idx_fits(b: Seq<u8>, e: SegmentEntry, verify: bool) -> bool {
    &&& b.len() == e.idx_len
    &&& idx::parsed(b) is Ok
    &&& idx::parsed(b)->Ok_0.0 == e.idx_crc
    &&& idx::parsed(b)->Ok_0.1.num_terms == e.num_terms
    &&& verify ==> idx::verified(b, idx::parsed(b)->Ok_0.1, e.idx_crc) is Ok
}

/// The document file is the one that the entry was written for.
pub open spec fn doc_fits(b: Seq<u8>, e: SegmentEntry, verify: bool) -> bool {
    &&& b.len() == e.doc_len
    &&& doc::parsed(b) is Ok
    &&& doc::parsed(b)->Ok_0.crc == e.doc_crc
    &&& doc::parsed(b)->Ok_0.num_docs == e.num_docs
    &&& verify ==> doc::verified(b, doc::parsed(b)->Ok_0) is Ok
}

/// The file of deletions is the one that the entry was written for.
pub open spec fn del_fits(b: Seq<u8>, e: SegmentEntry) -> bool {
    &&& b.len() == e.del_len
    &&& del::parsed(b) matches Ok((num_docs, num_deleted, _, crc)) && num_docs == e.num_docs
        && num_deleted == e.num_deleted && crc == e.del_crc
}

/// The file is there and fits.
pub open spec fn there(f: FileView, fits: spec_fn(Seq<u8>) -> bool) -> bool {
    f matches FileView::Bytes(b) && fits(b)
}

/// A segment is opened exactly where each of its files is there with the length, the checksum
/// and the counts that its entry says, and passes the full check where one is asked for. It
/// then holds these files.
pub proof fn lemma_opened(
    dir: Seq<char>,
    e: SegmentEntry,
    idx: FileView,
    doc: FileView,
    del: FileView,
    verify: bool,
)
    ensures
        opened(dir, e, idx, doc, del, verify) is Ok <==> {
            &&& there(idx, |b: Seq<u8>| idx_fits(b, e, verify))
            &&& there(doc, |b: Seq<u8>| doc_fits(b, e, verify))
            &&& e.del_gen > 0 ==> there(del, |b: Seq<u8>| del_fits(b, e))
        },
        opened(dir, e, idx, doc, del, verify) matches Ok(s) ==> {
            &&& s.entry == e
            &&& idx == FileView::Bytes(s.idx)
            &&& doc == FileView::Bytes(s.doc)
            &&& e.del_gen == 0 ==> s.del is None
            &&& e.del_gen > 0 ==> (del matches FileView::Bytes(b) && s.del == Some(
                bit_seq(del::parsed(b)->Ok_0.2, e.num_docs as nat),
            ))
        },
        opened(dir, e, idx, doc, del, verify) matches Err(f) ==> f is Corrupt || f is Vanished,
{
    reveal(opened);
}

/// The files of a segment pass the full check.
pub open spec fn segment_sound(s: SegmentView) -> bool {
    match (idx::parsed(s.idx), doc::parsed(s.doc)) {
        (Ok((crc, toc)), Ok(head)) => idx::verified(s.idx, toc, crc) is Ok && doc::verified(
            s.doc,
            head,
        ) is Ok,
        _ => true,
    }
}

/// The full check of an index passes exactly where the files of every segment do.
pub proof fn lemma_index_checked(v: IndexView, i: int)
    requires
        0 <= i <= v.segments.len(),
    ensures
        index_fault(v, i) is None <==> forall|k: int|
            i <= k < v.segments.len() ==> segment_sound(#[trigger] v.segments[k]),
        index_fault(v, i) matches Some(f) ==> f is Corrupt,
    decreases v.segments.len() - i,
{
    if i < v.segments.len() {
        lemma_index_checked(v, i + 1);
        assert(segment_fault(v.segments[i], v.dir()) is None <==> segment_sound(
            v.segments[i],
        ));
    }
}

} // verus!
