//! What an index opens to behind a commit, and behind a crash in one.

use vstd::prelude::*;

use super::commit::{affected, bits_after, next_deletions, tombstoned, Commit};
use super::commit_laws::{index_after, lemma_deletions_open, segment_after};
use super::disk::{
    after_ops, committed, deletions_in, file_in, index_in, is_new, lemma_recovers, lemma_with_files,
    manifest_in_dir, same_bytes, segments_in, settled, with_files,
};
use super::merge_plan::ids_unique;
use super::names::{lemma_name_is_plain, lemma_names_differ, name_of, IndexFile};
use super::protocol::begun;
use super::reader::{index_opened, segments_opened, IndexView, SegmentFiles};
use super::segment::{opened, FileView, SegmentView};
use super::sound::{lemma_deletion_is_sound, plan_of};
use super::{del_file, doc_file, idx_file, joined, overlay_file, DIR_NAME};
use crate::error::ErrorView;
use crate::format::manifest::{lemma_roundtrip, valid, ManifestView};
use crate::text::views;

verus! {

/// The files of the segments were read from a directory.
pub open spec fn read_from(
    files: Map<Seq<char>, Seq<u8>>,
    m: ManifestView,
    read: Seq<SegmentFiles<'_>>,
) -> bool {
    &&& read.len() == m.segments.len()
    &&& forall|i: int|
        #![trigger read[i]]
        0 <= i < read.len() ==> {
            let e = m.segments[i];
            &&& read[i].idx@ == file_in(files, idx_file(e.segment_id))
            &&& read[i].doc@ == file_in(files, doc_file(e.segment_id))
            &&& e.del_gen > 0 ==> read[i].del@ == file_in(files, del_file(e.segment_id, e.del_gen))
        }
}

proof fn lemma_read_segments(
    dir: Seq<char>,
    m: ManifestView,
    files: Map<Seq<char>, Seq<u8>>,
    read: Seq<SegmentFiles<'_>>,
    verify: bool,
    n: int,
)
    requires
        read_from(files, m, read),
        0 <= n <= m.segments.len(),
    ensures
        segments_opened(dir, m, read, verify, n) == segments_in(dir, m, files, verify, n),
    decreases n,
{
    if n > 0 {
        lemma_read_segments(dir, m, files, read, verify, n - 1);
        assert(read[n - 1].idx@ == file_in(files, idx_file(m.segments[n - 1].segment_id)));
        reveal(opened);
    }
}

/// Opening an index from files that were read from a directory gives what the
/// directory holds.
pub proof fn lemma_open_reads_directory(
    root: Seq<char>,
    m: ManifestView,
    files: Map<Seq<char>, Seq<u8>>,
    read: Seq<SegmentFiles<'_>>,
    overlay: FileView,
    verify: bool,
)
    requires
        manifest_in_dir(root, files) == Some(m),
        read_from(files, m, read),
        m.state_gen > 0 ==> overlay == file_in(files, overlay_file(m.state_gen)),
    ensures
        index_in(root, files, verify) == match index_opened(root, m, read, overlay, verify) {
            Ok(v) => Ok(Some(v)),
            Err(e) => Err::<Option<IndexView>, ErrorView>(e),
        },
{
    lemma_read_segments(
        joined(root, DIR_NAME@),
        m,
        files,
        read,
        verify,
        m.segments.len() as int,
    );
}

/// Every segment of a directory that opens, as it opens.
pub(crate) proof fn lemma_opened_parts(
    dir: Seq<char>,
    m: ManifestView,
    files: Map<Seq<char>, Seq<u8>>,
    verify: bool,
    n: int,
    ss: Seq<SegmentView>,
)
    requires
        0 <= n <= m.segments.len(),
        segments_in(dir, m, files, verify, n) == Ok::<Seq<SegmentView>, ErrorView>(ss),
    ensures
        ss.len() == n,
        forall|i: int|
            #![trigger ss[i]]
            0 <= i < n ==> {
                let e = m.segments[i];
                &&& opened(
                    dir,
                    e,
                    file_in(files, idx_file(e.segment_id)),
                    file_in(files, doc_file(e.segment_id)),
                    deletions_in(files, e),
                    verify,
                ) == Ok::<SegmentView, ErrorView>(ss[i])
                &&& file_in(files, idx_file(e.segment_id)) == FileView::Bytes(ss[i].idx)
                &&& file_in(files, doc_file(e.segment_id)) == FileView::Bytes(ss[i].doc)
                &&& ss[i].entry == e
                &&& ss[i].del matches Some(bits) ==> bits.len() == e.num_docs
            },
    decreases n,
{
    if n > 0 {
        let before = segments_in(dir, m, files, verify, n - 1)->Ok_0;
        lemma_opened_parts(dir, m, files, verify, n - 1, before);
        let e = m.segments[n - 1];
        assert(ss.drop_last() =~= before);
        assert(opened(
            dir,
            e,
            file_in(files, idx_file(e.segment_id)),
            file_in(files, doc_file(e.segment_id)),
            deletions_in(files, e),
            verify,
        ) == Ok::<SegmentView, ErrorView>(ss[n - 1]));
        assert forall|i: int| #![trigger ss[i]] 0 <= i < n implies {
            let e = m.segments[i];
            &&& opened(
                dir,
                e,
                file_in(files, idx_file(e.segment_id)),
                file_in(files, doc_file(e.segment_id)),
                deletions_in(files, e),
                verify,
            ) == Ok::<SegmentView, ErrorView>(ss[i])
            &&& file_in(files, idx_file(e.segment_id)) == FileView::Bytes(ss[i].idx)
            &&& file_in(files, doc_file(e.segment_id)) == FileView::Bytes(ss[i].doc)
            &&& ss[i].entry == e
            &&& ss[i].del matches Some(bits) ==> bits.len() == e.num_docs
        } by {
            if i < n - 1 {
                assert(ss[i] == before[i]);
            } else {
                reveal(opened);
            }
        }
    }
}

/// The index is what its directory holds, and no id comes twice in it.
pub open spec fn stands(
    root: Seq<char>,
    files: Map<Seq<char>, Seq<u8>>,
    verify: bool,
    v: IndexView,
) -> bool {
    &&& index_in(root, files, verify) == Ok::<Option<IndexView>, ErrorView>(Some(v))
    &&& valid(v.manifest)
    &&& ids_unique(v.manifest.segments)
}

/// The segments of an index are those of its manifest, each with as many deletion
/// marks as documents.
pub open spec fn consistent(v: IndexView) -> bool {
    &&& v.segments.len() == v.manifest.segments.len()
    &&& forall|i: int|
        #![trigger v.segments[i]]
        0 <= i < v.segments.len() ==> v.segments[i].entry == v.manifest.segments[i] && (
        v.segments[i].del matches Some(bits) ==> bits.len() == v.segments[i].entry.num_docs)
}

/// What a directory holds is consistent.
pub proof fn lemma_stands(
    root: Seq<char>,
    files: Map<Seq<char>, Seq<u8>>,
    verify: bool,
    v: IndexView,
)
    requires
        stands(root, files, verify, v),
    ensures
        consistent(v),
        v.root == root,
{
    lemma_opened_parts(
        joined(root, DIR_NAME@),
        v.manifest,
        files,
        verify,
        v.manifest.segments.len() as int,
        v.segments,
    );
}

/// The commit is that of a deletion.
pub open spec fn is_deletion(v: IndexView, ids: Seq<u32>, c: Commit) -> bool {
    &&& tombstoned(
        v,
        ids,
        c.manifest@.segments,
        c.files@,
        views(c.retired@),
        v.manifest.segments.len() as int,
    )
    &&& c.manifest@ == (ManifestView {
        generation: c.manifest@.generation,
        committed_unix_nanos: c.manifest@.committed_unix_nanos,
        segments: c.manifest@.segments,
        ..v.manifest
    })
    &&& valid(c.manifest@)
}

/// The files of a deletion in the directory behind it.
proof fn lemma_deletion_dir(
    files: Map<Seq<char>, Seq<u8>>,
    v: IndexView,
    ids: Seq<u32>,
    c: Commit,
    f: IndexFile,
)
    requires
        valid(v.manifest),
        ids_unique(v.manifest.segments),
        is_deletion(v, ids, c),
    ensures
        is_new(plan_of(c), name_of(f)) || same_bytes(
            committed(files, plan_of(c)),
            files,
            name_of(f),
        ),
        is_new(plan_of(c), name_of(f)) ==> f is Del,
        forall|k: int|
            #![trigger c.files@[k]]
            0 <= k < c.files@.len() ==> file_in(
                committed(files, plan_of(c)),
                c.files@[k].name@,
            ) == FileView::Bytes(c.files@[k].bytes@),
{
    let plan = plan_of(c);
    let n = plan.files.len() as int;
    let w = with_files(files, plan, n);
    lemma_deletion_is_sound(v, ids, c);
    lemma_with_files(files, plan, n);
    lemma_name_is_plain(f);
    if !is_new(plan, name_of(f)) {
        assert forall|j: int| 0 <= j < n implies (#[trigger] plan.files[j]).0 != name_of(f) by {}
        assert(same_bytes(w, files, name_of(f)));
    } else {
        let j = choose|j: int| 0 <= j < plan.files.len() && (#[trigger] plan.files[j]).0 == name_of(
            f,
        );
        super::sound::lemma_deletion_writes(v, ids, c, j);
        let (id, gen) = choose|id: u32, gen: u32|
            c.files@[j].name@ == #[trigger] del_file(id, gen);
        lemma_names_differ(f, IndexFile::Del(id, gen));
    }
    assert forall|k: int| #![trigger c.files@[k]] 0 <= k < c.files@.len() implies file_in(
        committed(files, plan),
        c.files@[k].name@,
    ) == FileView::Bytes(c.files@[k].bytes@) by {
        assert(plan.files[k] == (c.files@[k].name@, c.files@[k].bytes@));
    }
}

proof fn lemma_segments_after(
    root: Seq<char>,
    files: Map<Seq<char>, Seq<u8>>,
    v: IndexView,
    ids: Seq<u32>,
    c: Commit,
    verify: bool,
    n: int,
)
    requires
        stands(root, files, verify, v),
        is_deletion(v, ids, c),
        0 <= n <= v.manifest.segments.len(),
        forall|k: int|
            #![trigger c.files@[k]]
            0 <= k < c.files@.len() ==> c.files@[k].bytes@.len() <= u64::MAX,
    ensures
        segments_in(
            joined(root, DIR_NAME@),
            c.manifest@,
            committed(files, plan_of(c)),
            verify,
            n,
        ) == Ok::<Seq<SegmentView>, ErrorView>(
            index_after(v, ids, c.manifest@).segments.take(n),
        ),
        v.segments.len() == v.manifest.segments.len(),
    decreases n,
{
    let dir = joined(root, DIR_NAME@);
    let m = v.manifest;
    let next = c.manifest@;
    let after = index_after(v, ids, next).segments;
    let now = committed(files, plan_of(c));
    lemma_opened_parts(dir, m, files, verify, m.segments.len() as int, v.segments);
    if n <= 0 {
        assert(after.take(n) =~= Seq::empty());
    } else {
        lemma_segments_after(root, files, v, ids, c, verify, n - 1);
        let i = n - 1;
        let e = m.segments[i];
        super::commit::lemma_tombstoned(
            v,
            ids,
            next.segments,
            c.files@,
            views(c.retired@),
            m.segments.len() as int,
        );
        assert(v.segments[i].entry == e);
        let x = next.segments[i];
        if affected(v, ids, i) {
            let k = choose|k: int|
                0 <= k < c.files@.len() && next_deletions(
                    e,
                    x,
                    bits_after(v, ids, ids.len() as int, i),
                    #[trigger] c.files@[k],
                );
            lemma_deletions_open(
                v,
                ids,
                i,
                x,
                c.files@[k],
                dir,
                deletions_in(files, e),
                verify,
            );
            assert(c.files@[k].name@ == del_file(x.segment_id, x.del_gen));
            lemma_deletion_dir(files, v, ids, c, IndexFile::Del(x.segment_id, x.del_gen));
        } else {
            assert(x == e);
            if e.del_gen > 0 {
                lemma_deletion_dir(files, v, ids, c, IndexFile::Del(e.segment_id, e.del_gen));
                lemma_deletion_is_sound(v, ids, c);
                super::sound::lemma_is_referenced(m, i);
                assert(!is_new(plan_of(c), del_file(e.segment_id, e.del_gen)));
            }
            assert(segment_after(v, ids, i, x) == v.segments[i]);
        }
        lemma_deletion_dir(files, v, ids, c, IndexFile::Idx(e.segment_id));
        lemma_deletion_dir(files, v, ids, c, IndexFile::Doc(e.segment_id));
        assert(x.segment_id == e.segment_id);
        assert(after.take(n) =~= after.take(n - 1).push(segment_after(v, ids, i, x)));
    }
}

/// Behind a deletion the directory opens to the index with those documents
/// deleted.
pub proof fn lemma_deletion_opens(
    root: Seq<char>,
    files: Map<Seq<char>, Seq<u8>>,
    v: IndexView,
    ids: Seq<u32>,
    c: Commit,
    verify: bool,
)
    requires
        stands(root, files, verify, v),
        is_deletion(v, ids, c),
        forall|k: int|
            #![trigger c.files@[k]]
            0 <= k < c.files@.len() ==> c.files@[k].bytes@.len() <= u64::MAX,
    ensures
        index_in(root, committed(files, plan_of(c)), verify) == Ok::<Option<IndexView>, ErrorView>(
            Some(index_after(v, ids, c.manifest@)),
        ),
{
    let next = c.manifest@;
    let n = v.manifest.segments.len() as int;
    let now = committed(files, plan_of(c));
    lemma_roundtrip(next);
    lemma_segments_after(root, files, v, ids, c, verify, n);
    super::commit::lemma_tombstoned(v, ids, next.segments, c.files@, views(c.retired@), n);
    assert(index_after(v, ids, next).segments.take(n) =~= index_after(v, ids, next).segments);
    assert(manifest_in_dir(root, now) == Some(next));
    if next.state_gen > 0 {
        lemma_deletion_dir(files, v, ids, c, IndexFile::Overlay(next.state_gen));
    }
}

/// A deletion under any crash: behind it either every document is there as it was,
/// or exactly the deleted ones are gone.
pub proof fn lemma_deletion_is_all_or_nothing(
    root: Seq<char>,
    files: Map<Seq<char>, Seq<u8>>,
    v: IndexView,
    ids: Seq<u32>,
    c: Commit,
    outcomes: Seq<Option<Seq<char>>>,
    left: Map<Seq<char>, Seq<u8>>,
    verify: bool,
)
    requires
        stands(root, files, verify, v),
        is_deletion(v, ids, c),
        forall|k: int|
            #![trigger c.files@[k]]
            0 <= k < c.files@.len() ==> c.files@[k].bytes@.len() <= u64::MAX,
        c.files@.len() <= usize::MAX,
        after_ops(begun(plan_of(c)), settled(files), outcomes).1.can_leave(left),
    ensures
        index_in(root, left, verify) == Ok::<Option<IndexView>, ErrorView>(Some(v)) || index_in(
            root,
            left,
            verify,
        ) == Ok::<Option<IndexView>, ErrorView>(Some(index_after(v, ids, c.manifest@))),
{
    lemma_deletion_is_sound(v, ids, c);
    lemma_recovers(root, files, c.manifest@, plan_of(c), outcomes, left, verify);
    lemma_deletion_opens(root, files, v, ids, c, verify);
}

} // verus!
