//! What the encoders accept and refuse, and what the counts in the files count.

use vstd::prelude::*;
use vstd::utf8::valid_utf8;

use super::del::count_set;
use super::doc::{doc_fault, indexed_count, indexed_len, paths_of, DocIn, DocKind};
use super::heap::{heap_off, lemma_heap_prefix};
use super::manifest::{entry_fault, prev_entry, valid, ManifestView, SegmentEntry};
use super::overlay::{patch_fault, Patch};
use super::postings::{list_fault, posting_fault};

verus! {

/// The deleted documents.
pub open spec fn marked(s: Seq<bool>) -> Set<int> {
    Set::new(|i: int| 0 <= i < s.len() && s[i])
}

/// As many documents are counted as deleted as are.
pub proof fn lemma_counts_marked(s: Seq<bool>)
    ensures
        marked(s).finite(),
        count_set(s) == marked(s).len(),
    decreases s.len(),
{
    if s.len() == 0 {
        assert(marked(s) =~= Set::empty());
    } else {
        let f = s.drop_last();
        lemma_counts_marked(f);
        if s.last() {
            assert(marked(s) =~= marked(f).insert(f.len() as int));
        } else {
            assert(marked(s) =~= marked(f));
        }
    }
}

/// The indexed ones among the first `n` documents.
pub open spec fn indexed_among(docs: Seq<DocIn<'_>>, n: int) -> Set<int> {
    Set::new(|i: int| 0 <= i < n && docs[i].kind == DocKind::Indexed)
}

/// The lengths of documents, zero where they are not indexed.
pub open spec fn lengths(docs: Seq<DocIn<'_>>) -> Seq<int> {
    Seq::new(
        docs.len(),
        |i: int|
            if docs[i].kind == DocKind::Indexed {
                docs[i].len as int
            } else {
                0
            },
    )
}

/// A table counts its indexed documents and sums their lengths up.
pub proof fn lemma_counts_indexed(docs: Seq<DocIn<'_>>, n: int)
    requires
        0 <= n <= docs.len(),
    ensures
        indexed_among(docs, n).finite(),
        indexed_count(docs, n) == indexed_among(docs, n).len(),
        indexed_len(docs, n) == lengths(docs).take(n).fold_left(0int, |a: int, b: int| a + b),
    decreases n,
{
    let plus = |a: int, b: int| a + b;
    let ls = lengths(docs).take(n);
    if n > 0 {
        lemma_counts_indexed(docs, n - 1);
        assert(ls.drop_last() =~= lengths(docs).take(n - 1));
        assert(ls.last() == lengths(docs)[n - 1]);
        if docs[n - 1].kind == DocKind::Indexed {
            assert(indexed_among(docs, n) =~= indexed_among(docs, n - 1).insert(n - 1));
        } else {
            assert(indexed_among(docs, n) =~= indexed_among(docs, n - 1));
        }
    } else {
        assert(ls =~= Seq::empty());
        assert(indexed_among(docs, n) =~= Set::empty());
    }
}

/// A table of documents is refused only where the paths take more bytes than can be counted,
/// or a document that is not indexed has a length.
pub proof fn lemma_docs_accepted(docs: Seq<DocIn<'_>>)
    ensures
        doc_fault(docs, 0) is None <==> {
            &&& docs.len() > 0 ==> heap_off(paths_of(docs), docs.len() as int) <= u32::MAX
            &&& forall|i: int|
                0 <= i < docs.len() && (#[trigger] docs[i]).kind != DocKind::Indexed ==> docs[i].len
                    == 0
        },
{
    lemma_docs_from(docs, 0);
}

proof fn lemma_docs_from(docs: Seq<DocIn<'_>>, i: int)
    requires
        0 <= i <= docs.len(),
    ensures
        doc_fault(docs, i) is None <==> {
            &&& i < docs.len() ==> heap_off(paths_of(docs), docs.len() as int) <= u32::MAX
            &&& forall|k: int|
                i <= k < docs.len() && (#[trigger] docs[k]).kind != DocKind::Indexed ==> docs[k].len
                    == 0
        },
    decreases docs.len() - i,
{
    if i < docs.len() {
        lemma_docs_from(docs, i + 1);
        lemma_heap_prefix(paths_of(docs), i + 1, docs.len() as int);
        assert(paths_of(docs).len() == docs.len());
        assert(heap_off(paths_of(docs), i + 1) <= heap_off(paths_of(docs), docs.len() as int));
    }
}

/// The documents ascend, and each has positions that do.
pub open spec fn list_ascends(list: Seq<(u32, Seq<u32>)>, from: int) -> bool {
    &&& forall|i: int|
        from <= i < list.len() && i > 0 ==> list[i - 1].0 < (#[trigger] list[i]).0
    &&& forall|i: int|
        from <= i < list.len() ==> (#[trigger] list[i]).1.len() > 0 && forall|j: int, k: int|
            0 <= j < k < list[i].1.len() ==> (#[trigger] list[i].1[j]) < (#[trigger] list[i].1[k])
}

/// A list of postings is refused only where its documents do not ascend, or positions of one
/// are missing or do not ascend.
pub proof fn lemma_list_accepted(list: Seq<(u32, Seq<u32>)>, i: int)
    requires
        0 <= i <= list.len(),
    ensures
        list_fault(list, i) is None <==> list_ascends(list, i),
    decreases list.len() - i,
{
    if i < list.len() {
        lemma_list_accepted(list, i + 1);
        let one = posting_fault(list, i);
        if one is None && list_ascends(list, i + 1) {
            assert(list_ascends(list, i));
        }
        if list_ascends(list, i) {
            assert(list[i].1.len() > 0);
            assert(list_ascends(list, i + 1));
        }
    }
}

/// Patches are refused only where their documents do not ascend, or a path is no text of the
/// heap.
pub proof fn lemma_patches_accepted(patches: Seq<Patch>, heap: Seq<u8>, i: int)
    requires
        0 <= i <= patches.len(),
    ensures
        patch_fault(patches, heap, i) is None <==> forall|k: int|
            i <= k < patches.len() ==> {
                let p = #[trigger] patches[k];
                &&& k > 0 ==> patches[k - 1].doc_id < p.doc_id
                &&& p.path_off + p.path_len <= heap.len()
                &&& valid_utf8(
                    heap.subrange(p.path_off as int, p.path_off as int + p.path_len as int),
                )
            },
    decreases patches.len() - i,
{
    if i < patches.len() {
        lemma_patches_accepted(patches, heap, i + 1);
        let p = patches[i];
        assert(p.path_off as int + p.path_len as int == p.path_off + p.path_len);
    }
}

/// A manifest is valid, and so is read, exactly where its state file is there or not in both
/// ways of saying so, and its segments own ascending ranges of documents that can be numbered,
/// have ids that were given out, one and its neighbour not the same, no more deletions than
/// documents, and deletions in both ways of saying so or in none.
pub proof fn lemma_valid_manifest(m: ManifestView)
    ensures
        valid(m) <==> {
            &&& m.state_gen == 0 <==> m.state_len == 0
            &&& m.segments.len() <= u32::MAX
            &&& forall|i: int|
                0 <= i < m.segments.len() ==> {
                    let e = #[trigger] m.segments[i];
                    &&& e.segment_id < m.next_segment_id
                    &&& e.base_doc + e.num_docs <= 0x1_0000_0000
                    &&& e.del_gen == 0 <==> e.del_len == 0
                    &&& e.num_deleted <= e.num_docs
                    &&& i > 0 ==> m.segments[i - 1].base_doc + m.segments[i - 1].num_docs
                        <= e.base_doc && m.segments[i - 1].segment_id != e.segment_id
                }
        },
{
    assert forall|i: int| 0 <= i < m.segments.len() implies (entry_fault(
        m.segments[i],
        prev_entry(m.segments, i),
        m.next_segment_id,
    ) is None <==> ({
        let e = #[trigger] m.segments[i];
        &&& e.segment_id < m.next_segment_id
        &&& e.base_doc + e.num_docs <= 0x1_0000_0000
        &&& e.del_gen == 0 <==> e.del_len == 0
        &&& e.num_deleted <= e.num_docs
        &&& i > 0 ==> m.segments[i - 1].base_doc + m.segments[i - 1].num_docs <= e.base_doc
            && m.segments[i - 1].segment_id != e.segment_id
    })) by {}
    if valid(m) {
        assert forall|i: int| 0 <= i < m.segments.len() implies ({
            let e = #[trigger] m.segments[i];
            &&& e.segment_id < m.next_segment_id
            &&& e.base_doc + e.num_docs <= 0x1_0000_0000
            &&& e.del_gen == 0 <==> e.del_len == 0
            &&& e.num_deleted <= e.num_docs
            &&& i > 0 ==> m.segments[i - 1].base_doc + m.segments[i - 1].num_docs <= e.base_doc
                && m.segments[i - 1].segment_id != e.segment_id
        }) by {
            assert(entry_fault(m.segments[i], prev_entry(m.segments, i), m.next_segment_id) is None);
        }
    }
}

/// The reason that is given for refusing a segment of a manifest holds of it.
pub proof fn lemma_entry_fault(e: SegmentEntry, prev: Option<SegmentEntry>, next: u32)
    ensures
        match entry_fault(e, prev, next) {
            None => true,
            Some(why) => {
                ||| why == "segment id not below next_segment_id"@ && e.segment_id >= next
                ||| why == "segment doc ranges overlap or are unordered"@ && prev is Some
                    && e.base_doc < prev->0.base_doc + prev->0.num_docs
                ||| why == "duplicate segment id"@ && prev is Some && e.segment_id
                    == prev->0.segment_id
                ||| why == "segment exceeds the u32 doc id space"@ && e.base_doc + e.num_docs
                    > 0x1_0000_0000
                ||| why == "del_gen and del_len disagree"@ && (e.del_gen > 0 && e.del_len == 0
                    || e.del_gen == 0 && e.del_len > 0)
                ||| why == "num_deleted exceeds num_docs"@ && e.num_deleted > e.num_docs
            },
        },
{
}

} // verus!
