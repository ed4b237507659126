//! What deleting documents does to what is read.

use vstd::prelude::*;

use super::commit::{
    affected, bits_after, bits_of, hit, keeps_ranges, next_deletions, same_range, NewFile,
};
use super::reader::{doc_of, first_behind, lemma_place, place_of, IndexView};
use super::segment::{doc_in, gone, opened, FileView, SegmentView};
use crate::error::ErrorView;
use crate::format::manifest::{valid, ManifestView, SegmentEntry};

verus! {

/// A segment once ids are deleted.
pub open spec fn segment_after(v: IndexView, ids: Seq<u32>, i: int, e: SegmentEntry) -> SegmentView {
    SegmentView {
        entry: e,
        idx: v.segments[i].idx,
        doc: v.segments[i].doc,
        del: if affected(v, ids, i) {
            Some(bits_after(v, ids, ids.len() as int, i))
        } else {
            v.segments[i].del
        },
    }
}

/// An index once ids are deleted, under the manifest `m`.
pub open spec fn index_after(v: IndexView, ids: Seq<u32>, m: ManifestView) -> IndexView {
    IndexView {
        manifest: m,
        segments: Seq::new(
            v.segments.len(),
            |i: int| segment_after(v, ids, i, m.segments[i]),
        ),
        ..v
    }
}

/// The files of a segment and its next deletions open as the segment with those
/// documents deleted.
pub proof fn lemma_deletions_open(
    v: IndexView,
    ids: Seq<u32>,
    i: int,
    next: SegmentEntry,
    file: NewFile,
    dir: Seq<char>,
    del: FileView,
    verify: bool,
)
    requires
        0 <= i < v.segments.len(),
        next_deletions(
            v.segments[i].entry,
            next,
            bits_after(v, ids, ids.len() as int, i),
            file,
        ),
        affected(v, ids, i),
        file.bytes@.len() <= u64::MAX,
        opened(
            dir,
            v.segments[i].entry,
            FileView::Bytes(v.segments[i].idx),
            FileView::Bytes(v.segments[i].doc),
            del,
            verify,
        ) is Ok,
    ensures
        opened(
            dir,
            next,
            FileView::Bytes(v.segments[i].idx),
            FileView::Bytes(v.segments[i].doc),
            FileView::Bytes(file.bytes@),
            verify,
        ) == Ok::<_, ErrorView>(segment_after(v, ids, i, next)),
{
    reveal(opened);
}

proof fn lemma_same_places(a: Seq<SegmentEntry>, b: Seq<SegmentEntry>, id: u32, i: int)
    requires
        keeps_ranges(a, b),
        0 <= i <= a.len(),
    ensures
        first_behind(a, id, i) == first_behind(b, id, i),
        i <= first_behind(a, id, i) <= a.len(),
    decreases a.len() - i,
{
    if i < a.len() {
        assert(same_range(a[i], b[i]));
        if a[i].end() <= id {
            lemma_same_places(a, b, id, i + 1);
        }
    }
}

/// Deleting hides exactly the deleted documents; all others are seen as before.
pub proof fn lemma_deleted_are_gone(v: IndexView, ids: Seq<u32>, m: ManifestView, id: u32)
    requires
        valid(v.manifest),
        v.segments.len() == v.manifest.segments.len(),
        forall|i: int|
            #![trigger v.segments[i]]
            0 <= i < v.segments.len() ==> v.segments[i].entry == v.manifest.segments[i] && (
            v.segments[i].del matches Some(bits) ==> bits.len() == v.segments[i].entry.num_docs),
        keeps_ranges(v.manifest.segments, m.segments),
    ensures
        doc_of(index_after(v, ids, m), id) == if ids.contains(id) {
            None
        } else {
            doc_of(v, id)
        },
{
    let es = v.manifest.segments;
    lemma_same_places(es, m.segments, id, 0);
    let i = first_behind(es, id, 0);
    if i < es.len() {
        assert(same_range(es[i], m.segments[i]));
    }
    assert(place_of(m.segments, id) == place_of(es, id));
    match place_of(es, id) {
        None => {},
        Some((i, local)) => {
            lemma_place(v.manifest, id, i, local);
            let s = v.segments[i];
            let t = segment_after(v, ids, i, m.segments[i]);
            assert(same_range(es[i], m.segments[i]));
            let n = ids.len() as int;
            assert(hit(es, ids, n, i, local as int) == ids.contains(id)) by {
                if hit(es, ids, n, i, local as int) {
                    let k = choose|k: int|
                        0 <= k < n && place_of(es, #[trigger] ids[k]) == Some((i, local));
                    lemma_place(v.manifest, ids[k], i, local);
                    assert(ids[k] == id);
                }
                if ids.contains(id) {
                    let k = choose|k: int| 0 <= k < n && ids[k] == id;
                    assert(place_of(es, ids[k]) == Some((i, local)));
                }
            }
            let after = bits_after(v, ids, n, i);
            assert(after[local as int] == (gone(s, local as int) || ids.contains(id)));
            if !affected(v, ids, i) {
                assert(bits_of(s)[local as int] == after[local as int]);
            }
            assert(gone(t, local as int) == (gone(s, local as int) || ids.contains(id)));
            assert(doc_in(t, local, v.root) == if ids.contains(id) {
                None
            } else {
                doc_in(s, local, v.root)
            });
        },
    }
}

} // verus!
