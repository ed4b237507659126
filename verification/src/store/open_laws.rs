//! What the directory of an index opens to behind a commit: a full build, an
//! update and a commit of merges.

use vstd::prelude::*;

use super::commit::{
    affected, bits_after, lemma_tombstoned, next_deletions, tombstoned, Commit, NewFile,
};
use super::commit_laws::{lemma_deletions_open, segment_after};
use super::disk::{
    after_ops, committed, deletions_in, file_in, index_in, lemma_recovers, lemma_with_files,
    manifest_in_dir, refers, same_bytes, segments_in, settled, sound, with_files,
};
use super::flush::{cover, indexed_docs, placed, Flushed};
use super::flush_laws::{lemma_flushed_opens, read_back, storable};
use super::live_laws::{
    entry_of, lemma_merge_at, lemma_merged_opens, merged_view, prepared_from, Origin,
};
use super::merge::{merged_docs, PreparedMerge};
use super::merge_commit::{finished, first_absent, merge_base, merges_hold, replaced, retained};
use super::names::{name_of, IndexFile};
use super::protocol::begun;
use super::reader::{bound_of, overlay_checked, IndexView, PatchView};
use super::recovery_laws::{lemma_opened_parts, lemma_stands, stands};
use super::search_laws::{
    all_storable, atoms_fit, lemma_made_of, lemma_sorted, own_contents, own_files,
};
use super::segment::{opened, FileView, SegmentView};
use super::sound::{
    fresh_ids, lemma_build_is_sound, lemma_file_named, lemma_merges_are_sound,
    lemma_update_is_sound, plan_of,
};
use super::update::{
    all_files, entries_of, file_views, overlay_after, overlay_next, segment_file_list, starts_at,
    update_holds,
};
use super::{del_file, doc_file, idx_file, joined, overlay_file, DIR_NAME};
use crate::crawler::FileEntry;
use crate::error::ErrorView;
use crate::format::manifest::{lemma_roundtrip, valid, ManifestView, SegmentEntry};
use crate::index::builder::{lemma_shard_bounds, outcomes_of, shard_terms, ContentView};
use crate::index::memory::all_sorted;
use crate::text::views;

verus! {

/// The segment of a directory opens to `s`.
pub open spec fn opens_as(
    dir: Seq<char>,
    e: SegmentEntry,
    files: Map<Seq<char>, Seq<u8>>,
    verify: bool,
    s: SegmentView,
) -> bool {
    opened(
        dir,
        e,
        file_in(files, idx_file(e.segment_id)),
        file_in(files, doc_file(e.segment_id)),
        deletions_in(files, e),
        verify,
    ) == Ok::<SegmentView, ErrorView>(s)
}

/// The files of a directory behind a safe commit.
proof fn lemma_committed_files(
    root: Seq<char>,
    files: Map<Seq<char>, Seq<u8>>,
    old: Option<ManifestView>,
    c: Commit,
)
    requires
        sound(old, c.manifest@, plan_of(c)),
        valid(c.manifest@),
    ensures
        manifest_in_dir(root, committed(files, plan_of(c))) == Some(c.manifest@),
        forall|j: int|
            #![trigger file_views(c.files@)[j]]
            0 <= j < c.files@.len() ==> file_in(
                committed(files, plan_of(c)),
                file_views(c.files@)[j].0,
            ) == FileView::Bytes(file_views(c.files@)[j].1),
        forall|n: Seq<char>|
            refers(old, n) ==> #[trigger] file_in(committed(files, plan_of(c)), n) == file_in(
                files,
                n,
            ),
{
    let plan = plan_of(c);
    let n = plan.files.len() as int;
    let w = with_files(files, plan, n);
    lemma_with_files(files, plan, n);
    lemma_roundtrip(c.manifest@);
    assert forall|j: int| #![trigger file_views(c.files@)[j]] 0 <= j < c.files@.len() implies file_in(
        committed(files, plan),
        file_views(c.files@)[j].0,
    ) == FileView::Bytes(file_views(c.files@)[j].1) by {
        assert(plan.files[j] == file_views(c.files@)[j]);
    }
    assert forall|m: Seq<char>| refers(old, m) implies #[trigger] file_in(committed(files, plan), m)
        == file_in(files, m) by {
        assert forall|j: int| 0 <= j < n implies (#[trigger] plan.files[j]).0 != m by {}
        assert(same_bytes(w, files, m));
    }
}

/// A directory in which every segment opens.
proof fn lemma_segments_are(
    dir: Seq<char>,
    m: ManifestView,
    files: Map<Seq<char>, Seq<u8>>,
    verify: bool,
    ss: Seq<SegmentView>,
    n: int,
)
    requires
        0 <= n <= m.segments.len(),
        ss.len() == m.segments.len(),
        forall|i: int|
            0 <= i < ss.len() ==> opens_as(dir, m.segments[i], files, verify, #[trigger] ss[i]),
    ensures
        segments_in(dir, m, files, verify, n) == Ok::<Seq<SegmentView>, ErrorView>(ss.take(n)),
    decreases n,
{
    if n > 0 {
        lemma_segments_are(dir, m, files, verify, ss, n - 1);
        assert(opens_as(dir, m.segments[n - 1], files, verify, ss[n - 1]));
        assert(ss.take(n) =~= ss.take(n - 1).push(ss[n - 1]));
    } else {
        assert(ss.take(n) =~= Seq::empty());
    }
}

/// Where the files of serialised segments stand among all of them.
proof fn lemma_listed_files(fs: Seq<Flushed>, n: int)
    requires
        0 <= n <= fs.len(),
    ensures
        segment_file_list(fs, n).len() == 2 * n,
        forall|k: int|
            #![trigger fs[k]]
            0 <= k < n ==> segment_file_list(fs, n)[2 * k] == (
                idx_file(fs[k].entry.segment_id),
                fs[k].idx@,
            ) && segment_file_list(fs, n)[2 * k + 1] == (
                doc_file(fs[k].entry.segment_id),
                fs[k].doc@,
            ),
    decreases n,
{
    if n > 0 {
        lemma_listed_files(fs, n - 1);
    }
}

/// The ids of segments that were built one behind the other.
proof fn lemma_ids_of_cover(
    fs: Seq<Flushed>,
    root: Seq<char>,
    es: Seq<FileEntry>,
    cs: Seq<ContentView>,
    base: u32,
    next_id: u32,
)
    requires
        cover(fs, root, es, cs, base, next_id, es.len() as int),
        next_id + fs.len() <= u32::MAX,
    ensures
        fresh_ids(fs, next_id),
{
    assert forall|k: int| #![trigger fs[k]] 0 <= k < fs.len() implies fs[k].entry.segment_id
        == next_id + k && fs[k].entry.del_gen == 0 by {
        assert(placed(fs, root, es, cs, base, next_id, k));
    }
}

/// A segment that was built opens in a directory with its files.
proof fn lemma_built_opens(
    fs: Seq<Flushed>,
    root: Seq<char>,
    es: Seq<FileEntry>,
    cs: Seq<ContentView>,
    base: u32,
    next_id: u32,
    k: int,
    dir: Seq<char>,
    files: Map<Seq<char>, Seq<u8>>,
    verify: bool,
)
    requires
        cover(fs, root, es, cs, base, next_id, es.len() as int),
        es.len() == cs.len(),
        base + es.len() <= u32::MAX,
        atoms_fit(cs),
        all_storable(fs, cs, base),
        0 <= k < fs.len(),
        file_in(files, idx_file(fs[k].entry.segment_id)) == FileView::Bytes(fs[k].idx@),
        file_in(files, doc_file(fs[k].entry.segment_id)) == FileView::Bytes(fs[k].doc@),
    ensures
        opens_as(dir, fs[k].entry, files, verify, read_back(fs[k])),
{
    let f = fs[k];
    let first = f.entry.base_doc;
    let part = own_contents(fs, cs, base, k);
    let own = own_files(fs, es, base, k);
    lemma_made_of(fs, root, es, cs, base, next_id, k);
    lemma_sorted(first as int, part, part.len() as int);
    lemma_shard_bounds(first as int, part, part.len() as int);
    assert(f.idx@.len() == f.idx.len());
    assert(f.doc@.len() == f.doc.len());
    lemma_flushed_opens(
        f,
        (next_id + k) as u32,
        first,
        shard_terms(first as int, part, part.len() as int),
        indexed_docs(own, outcomes_of(part)),
        root,
        dir,
        deletions_in(files, f.entry),
        verify,
    );
}

/// The commit is that of a full build over the manifest that was there, if any.
pub open spec fn is_build(prev: Option<ManifestView>, fs: Seq<Flushed>, c: Commit) -> bool {
    &&& c.manifest@.segments == entries_of(fs)
    &&& c.manifest@.state_gen == 0
    &&& file_views(c.files@) == segment_file_list(fs, fs.len() as int)
    &&& views(c.retired@) == match prev {
        Some(m) => all_files(m),
        None => Seq::empty(),
    }
    &&& valid(c.manifest@)
}

/// The index that a full build leaves.
pub open spec fn built_index(root: Seq<char>, fs: Seq<Flushed>, m: ManifestView) -> IndexView {
    IndexView {
        root,
        manifest: m,
        segments: Seq::new(fs.len(), |k: int| read_back(fs[k])),
        overlay: Seq::empty(),
    }
}

/// The segments of a full build open behind it.
proof fn lemma_built_segments(
    root: Seq<char>,
    files: Map<Seq<char>, Seq<u8>>,
    prev: Option<ManifestView>,
    fs: Seq<Flushed>,
    es: Seq<FileEntry>,
    cs: Seq<ContentView>,
    c: Commit,
    verify: bool,
    i: int,
)
    requires
        prev matches Some(m) ==> valid(m),
        cover(fs, root, es, cs, 0, starts_at(prev).1, es.len() as int),
        es.len() == cs.len() <= u32::MAX,
        atoms_fit(cs),
        all_storable(fs, cs, 0),
        starts_at(prev).1 + fs.len() <= u32::MAX,
        is_build(prev, fs, c),
        0 <= i < fs.len(),
    ensures
        opens_as(
            joined(root, DIR_NAME@),
            fs[i].entry,
            committed(files, plan_of(c)),
            verify,
            read_back(fs[i]),
        ),
{
    let now = committed(files, plan_of(c));
    let l = file_views(c.files@);
    lemma_ids_of_cover(fs, root, es, cs, 0, starts_at(prev).1);
    lemma_build_is_sound(prev, fs, c);
    lemma_committed_files(root, files, prev, c);
    lemma_listed_files(fs, fs.len() as int);
    assert(l[2 * i].0 == idx_file(fs[i].entry.segment_id));
    assert(l[2 * i + 1].0 == doc_file(fs[i].entry.segment_id));
    lemma_built_opens(
        fs,
        root,
        es,
        cs,
        0,
        starts_at(prev).1,
        i,
        joined(root, DIR_NAME@),
        now,
        verify,
    );
}

/// Behind a full build the directory opens to the segments that were built,
/// whatever it held before.
pub proof fn lemma_build_opens(
    root: Seq<char>,
    files: Map<Seq<char>, Seq<u8>>,
    prev: Option<ManifestView>,
    fs: Seq<Flushed>,
    es: Seq<FileEntry>,
    cs: Seq<ContentView>,
    c: Commit,
    verify: bool,
)
    requires
        prev matches Some(m) ==> valid(m),
        cover(fs, root, es, cs, 0, starts_at(prev).1, es.len() as int),
        es.len() == cs.len() <= u32::MAX,
        atoms_fit(cs),
        all_storable(fs, cs, 0),
        starts_at(prev).1 + fs.len() <= u32::MAX,
        is_build(prev, fs, c),
    ensures
        index_in(root, committed(files, plan_of(c)), verify) == Ok::<Option<IndexView>, ErrorView>(
            Some(built_index(root, fs, c.manifest@)),
        ),
        stands(root, committed(files, plan_of(c)), verify, built_index(root, fs, c.manifest@)),
{
    let now = committed(files, plan_of(c));
    let dir = joined(root, DIR_NAME@);
    let ss = built_index(root, fs, c.manifest@).segments;
    let n = fs.len() as int;
    assert forall|i: int| 0 <= i < ss.len() implies opens_as(
        dir,
        c.manifest@.segments[i],
        now,
        verify,
        #[trigger] ss[i],
    ) by {
        lemma_built_segments(root, files, prev, fs, es, cs, c, verify, i);
    }
    lemma_segments_are(dir, c.manifest@, now, verify, ss, n);
    assert(ss.take(n) =~= ss);
    lemma_ids_of_cover(fs, root, es, cs, 0, starts_at(prev).1);
    lemma_build_is_sound(prev, fs, c);
    assert(manifest_in_dir(root, now) == Some(c.manifest@)) by {
        lemma_committed_files(root, files, prev, c);
    }
}

/// What the directory of an index held under a name that its manifest refers to,
/// it holds behind a safe commit.
proof fn lemma_file_stays(
    files: Map<Seq<char>, Seq<u8>>,
    m: ManifestView,
    now: Map<Seq<char>, Seq<u8>>,
    i: int,
)
    requires
        0 <= i < m.segments.len(),
        forall|n: Seq<char>|
            refers(Some(m), n) ==> #[trigger] file_in(now, n) == file_in(files, n),
    ensures
        ({
            let e = m.segments[i];
            &&& file_in(now, idx_file(e.segment_id)) == file_in(files, idx_file(e.segment_id))
            &&& file_in(now, doc_file(e.segment_id)) == file_in(files, doc_file(e.segment_id))
            &&& deletions_in(now, e) == deletions_in(files, e)
        }),
{
    let e = m.segments[i];
    let idx = IndexFile::Idx(e.segment_id);
    let doc = IndexFile::Doc(e.segment_id);
    let del = IndexFile::Del(e.segment_id, e.del_gen);
    lemma_file_named(m, idx);
    lemma_file_named(m, doc);
    lemma_file_named(m, del);
    assert(refers(Some(m), name_of(idx)) && refers(Some(m), name_of(doc)));
    assert(e.del_gen > 0 ==> refers(Some(m), name_of(del)));
}

/// A segment that an update finds there opens behind it with the deletions of the
/// update.
proof fn lemma_updated_opens(
    dir: Seq<char>,
    files: Map<Seq<char>, Seq<u8>>,
    now: Map<Seq<char>, Seq<u8>>,
    v: IndexView,
    deletes: Seq<u32>,
    entries: Seq<SegmentEntry>,
    dels: Seq<NewFile>,
    dropped: Seq<Seq<char>>,
    verify: bool,
    i: int,
)
    requires
        segments_in(dir, v.manifest, files, verify, v.manifest.segments.len() as int) == Ok::<
            Seq<SegmentView>,
            ErrorView,
        >(v.segments),
        tombstoned(v, deletes, entries, dels, dropped, v.manifest.segments.len() as int),
        0 <= i < v.segments.len(),
        forall|n: Seq<char>|
            refers(Some(v.manifest), n) ==> #[trigger] file_in(now, n) == file_in(files, n),
        forall|k: int|
            #![trigger dels[k]]
            0 <= k < dels.len() ==> file_in(now, dels[k].name@) == FileView::Bytes(dels[k].bytes@),
    ensures
        v.segments.len() == v.manifest.segments.len(),
        opens_as(dir, entries[i], now, verify, segment_after(v, deletes, i, entries[i])),
{
    let m = v.manifest;
    let e = m.segments[i];
    let x = entries[i];
    lemma_opened_parts(dir, m, files, verify, m.segments.len() as int, v.segments);
    lemma_tombstoned(v, deletes, entries, dels, dropped, m.segments.len() as int);
    lemma_file_stays(files, m, now, i);
    assert(v.segments[i].entry == e);
    if affected(v, deletes, i) {
        let bits = bits_after(v, deletes, deletes.len() as int, i);
        let k = choose|k: int|
            0 <= k < dels.len() && next_deletions(e, x, bits, #[trigger] dels[k]);
        assert(dels[k].bytes@.len() == dels[k].bytes.len());
        lemma_deletions_open(v, deletes, i, x, dels[k], dir, deletions_in(files, e), verify);
        assert(dels[k].name@ == del_file(x.segment_id, x.del_gen));
    } else {
        assert(segment_after(v, deletes, i, x) == v.segments[i]);
    }
}

/// The entries are of the same documents.
pub open spec fn same_documents(a: SegmentEntry, b: SegmentEntry) -> bool {
    a.segment_id == b.segment_id && a.base_doc == b.base_doc && a.num_docs == b.num_docs
}

/// An index and what it is with an update in it.
pub open spec fn is_updated(
    v: IndexView,
    deletes: Seq<u32>,
    new: Seq<PatchView>,
    fs: Seq<Flushed>,
    m: ManifestView,
    w: IndexView,
) -> bool {
    &&& w.root == v.root
    &&& w.manifest == m
    &&& m.segments.len() == v.manifest.segments.len() + fs.len()
    &&& forall|i: int|
        0 <= i < v.manifest.segments.len() ==> same_documents(
            v.manifest.segments[i],
            #[trigger] m.segments[i],
        )
    &&& forall|k: int|
        #![trigger fs[k]]
        0 <= k < fs.len() ==> m.segments[v.manifest.segments.len() + k] == fs[k].entry
    &&& overlay_after(v.overlay, new, deletes, w.overlay)
    &&& w.segments.len() == v.segments.len() + fs.len()
    &&& forall|i: int|
        0 <= i < v.segments.len() ==> #[trigger] w.segments[i] == segment_after(
            v,
            deletes,
            i,
            m.segments[i],
        )
    &&& forall|k: int|
        #![trigger fs[k]]
        0 <= k < fs.len() ==> w.segments[v.segments.len() + k] == read_back(fs[k])
}

/// What an update is made of: the entries with its deletions, the files of these,
/// the patches that are left, and the file of the overlay.
ghost struct UpdateParts {
    entries: Seq<SegmentEntry>,
    dels: Seq<NewFile>,
    dropped: Seq<Seq<char>>,
    ps: Seq<PatchView>,
    ovl: Option<(Seq<char>, Seq<u8>)>,
}

#[verifier::opaque]
spec fn made_up_of(
    v: IndexView,
    deletes: Seq<u32>,
    new: Seq<PatchView>,
    fs: Seq<Flushed>,
    c: Commit,
    u: UpdateParts,
) -> bool {
    &&& tombstoned(v, deletes, u.entries, u.dels, u.dropped, v.manifest.segments.len() as int)
    &&& overlay_after(v.overlay, new, deletes, u.ps)
    &&& overlay_next(v.manifest, c.manifest@, u.ps, u.ovl)
    &&& c.manifest@.segments == u.entries + entries_of(fs)
    &&& file_views(c.files@) == segment_file_list(fs, fs.len() as int) + file_views(u.dels)
        + match u.ovl {
        Some(f) => seq![f],
        None => Seq::empty(),
    }
}

proof fn lemma_update_parts(
    v: IndexView,
    deletes: Seq<u32>,
    new: Seq<PatchView>,
    fs: Seq<Flushed>,
    now: i64,
    c: Commit,
) -> (u: UpdateParts)
    requires
        update_holds(v, deletes, new, fs, now, c),
    ensures
        made_up_of(v, deletes, new, fs, c, u),
        c.manifest@.segments == u.entries + entries_of(fs),
        u.entries.len() == v.manifest.segments.len(),
        overlay_after(v.overlay, new, deletes, u.ps),
        forall|i: int|
            0 <= i < u.entries.len() ==> same_documents(
                v.manifest.segments[i],
                #[trigger] u.entries[i],
            ),
{
    reveal(update_holds);
    reveal(made_up_of);
    let n = v.manifest.segments.len() as int;
    let (entries, dels, dropped, ps, ovl) = choose|
        entries: Seq<SegmentEntry>,
        dels: Seq<NewFile>,
        dropped: Seq<Seq<char>>,
        ps: Seq<PatchView>,
        ovl: Option<(Seq<char>, Seq<u8>)>,
    |
        {
            &&& #[trigger] tombstoned(v, deletes, entries, dels, dropped, n)
            &&& #[trigger] overlay_after(v.overlay, new, deletes, ps)
            &&& #[trigger] overlay_next(v.manifest, c.manifest@, ps, ovl)
            &&& c.manifest@.segments == entries + entries_of(fs)
            &&& file_views(c.files@) == segment_file_list(fs, fs.len() as int) + file_views(dels)
                + match ovl {
                Some(f) => seq![f],
                None => Seq::empty(),
            }
        };
    lemma_tombstoned(v, deletes, entries, dels, dropped, n);
    assert forall|i: int| 0 <= i < entries.len() implies same_documents(
        v.manifest.segments[i],
        #[trigger] entries[i],
    ) by {
        if affected(v, deletes, i) {
            let bits = bits_after(v, deletes, deletes.len() as int, i);
            let k = choose|k: int|
                0 <= k < dels.len() && next_deletions(
                    v.manifest.segments[i],
                    entries[i],
                    bits,
                    #[trigger] dels[k],
                );
        }
    }
    UpdateParts { entries, dels, dropped, ps, ovl }
}

/// The new files of an update in the directory behind it.
proof fn lemma_update_files(
    root: Seq<char>,
    files: Map<Seq<char>, Seq<u8>>,
    v: IndexView,
    deletes: Seq<u32>,
    new: Seq<PatchView>,
    fs: Seq<Flushed>,
    c: Commit,
    u: UpdateParts,
)
    requires
        sound(Some(v.manifest), c.manifest@, plan_of(c)),
        valid(c.manifest@),
        made_up_of(v, deletes, new, fs, c, u),
    ensures
        forall|k: int|
            #![trigger u.dels[k]]
            0 <= k < u.dels.len() ==> file_in(committed(files, plan_of(c)), u.dels[k].name@)
                == FileView::Bytes(u.dels[k].bytes@),
        forall|k: int|
            #![trigger fs[k]]
            0 <= k < fs.len() ==> file_in(
                committed(files, plan_of(c)),
                idx_file(fs[k].entry.segment_id),
            ) == FileView::Bytes(fs[k].idx@) && file_in(
                committed(files, plan_of(c)),
                doc_file(fs[k].entry.segment_id),
            ) == FileView::Bytes(fs[k].doc@),
        u.ovl matches Some((name, bytes)) ==> file_in(committed(files, plan_of(c)), name)
            == FileView::Bytes(bytes) && bytes.len() <= u64::MAX,
{
    reveal(made_up_of);
    let behind = committed(files, plan_of(c));
    let l = file_views(c.files@);
    let at = 2 * fs.len() as int;
    lemma_committed_files(root, files, Some(v.manifest), c);
    lemma_listed_files(fs, fs.len() as int);
    assert forall|k: int| #![trigger u.dels[k]] 0 <= k < u.dels.len() implies file_in(
        behind,
        u.dels[k].name@,
    ) == FileView::Bytes(u.dels[k].bytes@) by {
        assert(l[at + k] == (u.dels[k].name@, u.dels[k].bytes@));
    }
    assert forall|k: int| #![trigger fs[k]] 0 <= k < fs.len() implies file_in(
        behind,
        idx_file(fs[k].entry.segment_id),
    ) == FileView::Bytes(fs[k].idx@) && file_in(behind, doc_file(fs[k].entry.segment_id))
        == FileView::Bytes(fs[k].doc@) by {
        assert(l[2 * k].0 == idx_file(fs[k].entry.segment_id));
        assert(l[2 * k + 1].0 == doc_file(fs[k].entry.segment_id));
    }
    if u.ovl is Some {
        let (name, bytes) = u.ovl->Some_0;
        let j = (at + u.dels.len()) as int;
        assert(l[j] == (name, bytes));
        assert(bytes == c.files@[j].bytes@);
        assert(c.files@[j].bytes@.len() == c.files@[j].bytes.len());
    }
}

/// The overlay behind an update is read as it was left.
proof fn lemma_overlay_opens(
    dir: Seq<char>,
    files: Map<Seq<char>, Seq<u8>>,
    v: IndexView,
    deletes: Seq<u32>,
    new: Seq<PatchView>,
    fs: Seq<Flushed>,
    c: Commit,
    u: UpdateParts,
)
    requires
        made_up_of(v, deletes, new, fs, c, u),
        u.ovl matches Some((name, bytes)) ==> file_in(files, name) == FileView::Bytes(bytes)
            && bytes.len() <= u64::MAX,
    ensures
        overlay_checked(
            dir,
            c.manifest@,
            if c.manifest@.state_gen > 0 {
                file_in(files, overlay_file(c.manifest@.state_gen))
            } else {
                FileView::Missing
            },
        ) == Ok::<Seq<PatchView>, ErrorView>(u.ps),
{
    reveal(made_up_of);
    if u.ps.len() == 0 {
        assert(u.ps =~= Seq::empty());
    }
}

/// The segments behind an update.
spec fn updated_segments(
    v: IndexView,
    deletes: Seq<u32>,
    fs: Seq<Flushed>,
    m: ManifestView,
) -> Seq<SegmentView> {
    let n = v.segments.len();
    Seq::new(
        n + fs.len(),
        |i: int|
            if i < n {
                segment_after(v, deletes, i, m.segments[i])
            } else {
                read_back(fs[i - n])
            },
    )
}

/// Behind an update the directory opens to the index with the update in it: the
/// segments that were there with the deleted documents gone, the new segments
/// behind them as they were built, and the patches laid over the overlay.
pub proof fn lemma_update_opens(
    root: Seq<char>,
    files: Map<Seq<char>, Seq<u8>>,
    v: IndexView,
    deletes: Seq<u32>,
    new: Seq<PatchView>,
    fs: Seq<Flushed>,
    es: Seq<FileEntry>,
    cs: Seq<ContentView>,
    now: i64,
    c: Commit,
    verify: bool,
)
    requires
        stands(root, files, verify, v),
        cover(
            fs,
            root,
            es,
            cs,
            bound_of(v.manifest.segments),
            v.manifest.next_segment_id,
            es.len() as int,
        ),
        es.len() == cs.len(),
        bound_of(v.manifest.segments) + es.len() <= u32::MAX,
        v.manifest.next_segment_id + fs.len() <= u32::MAX,
        atoms_fit(cs),
        all_storable(fs, cs, bound_of(v.manifest.segments)),
        update_holds(v, deletes, new, fs, now, c),
        valid(c.manifest@),
    ensures
        index_in(root, committed(files, plan_of(c)), verify) matches Ok(Some(w)) && is_updated(
            v,
            deletes,
            new,
            fs,
            c.manifest@,
            w,
        ) && stands(root, committed(files, plan_of(c)), verify, w),
{
    let m = v.manifest;
    let next = c.manifest@;
    let behind = committed(files, plan_of(c));
    let dir = joined(root, DIR_NAME@);
    let base = bound_of(m.segments);
    let n = m.segments.len() as int;
    let u = lemma_update_parts(v, deletes, new, fs, now, c);
    lemma_ids_of_cover(fs, root, es, cs, base, m.next_segment_id);
    lemma_update_is_sound(v, deletes, new, fs, now, c);
    lemma_update_files(root, files, v, deletes, new, fs, c, u);
    lemma_overlay_opens(dir, behind, v, deletes, new, fs, c, u);
    lemma_stands(root, files, verify, v);
    let ss = updated_segments(v, deletes, fs, next);
    assert forall|i: int| 0 <= i < ss.len() implies opens_as(
        dir,
        next.segments[i],
        behind,
        verify,
        #[trigger] ss[i],
    ) by {
        if i < n {
            assert(next.segments[i] == u.entries[i]);
            lemma_committed_files(root, files, Some(m), c);
            reveal(made_up_of);
            lemma_updated_opens(
                dir,
                files,
                behind,
                v,
                deletes,
                u.entries,
                u.dels,
                u.dropped,
                verify,
                i,
            );
        } else {
            let k = i - n;
            assert(next.segments[i] == fs[k].entry);
            lemma_built_opens(fs, root, es, cs, base, m.next_segment_id, k, dir, behind, verify);
        }
    }
    lemma_segments_are(dir, next, behind, verify, ss, ss.len() as int);
    assert(ss.take(ss.len() as int) =~= ss);
    assert(manifest_in_dir(root, behind) == Some(next)) by {
        lemma_committed_files(root, files, Some(m), c);
    }
    let w = IndexView { root, manifest: next, segments: ss, overlay: u.ps };
    assert(index_in(root, behind, verify) == Ok::<Option<IndexView>, ErrorView>(Some(w)));
    assert forall|i: int| 0 <= i < m.segments.len() implies same_documents(
        m.segments[i],
        #[trigger] next.segments[i],
    ) by {
        assert(next.segments[i] == u.entries[i]);
    }
    assert forall|k: int| #![trigger fs[k]] 0 <= k < fs.len() implies next.segments[n + k]
        == fs[k].entry by {
        assert(entries_of(fs)[k] == fs[k].entry);
    }
}

/// The segments among the first `n` that are no source of a merge.
pub open spec fn kept_segments(ss: Seq<SegmentView>, ids: Seq<u32>, n: int) -> Seq<SegmentView>
    decreases n,
{
    if n <= 0 {
        Seq::empty()
    } else if ids.contains(ss[n - 1].entry.segment_id) {
        kept_segments(ss, ids, n - 1)
    } else {
        kept_segments(ss, ids, n - 1).push(ss[n - 1])
    }
}

/// The segments of an index once merges are in it: those that are no source, in
/// order, and behind them the merged ones.
pub open spec fn merged_segments(v: IndexView, ps: Seq<PreparedMerge>, c: Commit) -> Seq<
    SegmentView,
> {
    kept_segments(v.segments, replaced(ps, ps.len() as int), v.segments.len() as int) + Seq::new(
        ps.len(),
        |k: int| merged_view(v, ps[k], entry_of(c, ps, k)),
    )
}

/// An index with merges in it.
pub open spec fn merged_index(v: IndexView, ps: Seq<PreparedMerge>, c: Commit) -> IndexView {
    IndexView {
        root: v.root,
        manifest: c.manifest@,
        segments: merged_segments(v, ps, c),
        overlay: v.overlay,
    }
}

/// Every segment that stays is one of those there were, with its entry.
pub proof fn lemma_kept_segments(
    es: Seq<SegmentEntry>,
    ss: Seq<SegmentView>,
    ids: Seq<u32>,
    n: int,
)
    requires
        0 <= n <= es.len() == ss.len(),
        forall|i: int| 0 <= i < ss.len() ==> (#[trigger] ss[i]).entry == es[i],
    ensures
        kept_segments(ss, ids, n).len() == retained(es, ids, n).len() <= n,
        forall|x: int|
            #![trigger kept_segments(ss, ids, n)[x]]
            0 <= x < kept_segments(ss, ids, n).len() ==> kept_segments(ss, ids, n)[x].entry
                == retained(es, ids, n)[x] && !ids.contains(
                kept_segments(ss, ids, n)[x].entry.segment_id,
            ) && exists|i: int| 0 <= i < n && #[trigger] ss[i] == kept_segments(ss, ids, n)[x],
        forall|i: int|
            0 <= i < n && !ids.contains((#[trigger] ss[i]).entry.segment_id)
                ==> kept_segments(ss, ids, n).contains(ss[i]),
    decreases n,
{
    if n > 0 {
        lemma_kept_segments(es, ss, ids, n - 1);
        let before = kept_segments(ss, ids, n - 1);
        let after = kept_segments(ss, ids, n);
        assert(ss[n - 1].entry == es[n - 1]);
        assert forall|x: int| #![trigger after[x]] 0 <= x < after.len() implies after[x].entry
            == retained(es, ids, n)[x] && !ids.contains(after[x].entry.segment_id) && exists|i: int|
            0 <= i < n && #[trigger] ss[i] == after[x] by {
            if x < before.len() {
                assert(after[x] == before[x]);
            } else {
                assert(ss[n - 1] == after[x]);
            }
        }
        assert forall|i: int|
            0 <= i < n && !ids.contains(
                (#[trigger] ss[i]).entry.segment_id,
            ) implies after.contains(ss[i]) by {
            if i < n - 1 {
                let x = choose|x: int| 0 <= x < before.len() && before[x] == ss[i];
                assert(after[x] == ss[i]);
            } else {
                assert(after[after.len() - 1] == ss[i]);
            }
        }
    }
}

/// Every merge was prepared from an earlier state of the index.
pub open spec fn all_prepared(v: IndexView, ps: Seq<PreparedMerge>, from: Seq<Origin>) -> bool {
    &&& from.len() == ps.len()
    &&& forall|k: int|
        #![trigger from[k]]
        0 <= k < ps.len() ==> prepared_from(from[k].was, from[k].ids, v, ps[k], from[k].lists)
            && all_sorted(from[k].lists) && storable(from[k].lists, 0)
}

/// The segment of merge `k` opens behind the commit.
proof fn lemma_merge_opens(
    root: Seq<char>,
    files: Map<Seq<char>, Seq<u8>>,
    v: IndexView,
    ps: Seq<PreparedMerge>,
    from: Seq<Origin>,
    now: i64,
    c: Commit,
    verify: bool,
    k: int,
)
    requires
        sound(Some(v.manifest), c.manifest@, plan_of(c)),
        valid(c.manifest@),
        all_prepared(v, ps, from),
        merges_hold(v, ps, now, c),
        0 <= k < ps.len(),
    ensures
        opens_as(
            joined(root, DIR_NAME@),
            entry_of(c, ps, k),
            committed(files, plan_of(c)),
            verify,
            merged_view(v, ps[k], entry_of(c, ps, k)),
        ),
{
    let behind = committed(files, plan_of(c));
    let p = ps[k];
    let e = entry_of(c, ps, k);
    let id = (v.manifest.next_segment_id + k) as u32;
    let base = merge_base(v, ps, k) as u32;
    let own = lemma_merge_at(v, ps, now, c, k);
    lemma_committed_files(root, files, Some(v.manifest), c);
    lemma_merged_opens(
        v,
        p,
        id,
        base,
        e,
        own,
        from[k].lists,
        merged_docs(from[k].was, from[k].ids, from[k].ids.len() as int),
        from[k].was.root,
        joined(root, DIR_NAME@),
        verify,
    );
    reveal(finished);
    assert forall|x: int| #![trigger own[x]] 0 <= x < own.len() implies file_in(behind, own[x].name@)
        == FileView::Bytes(own[x].bytes@) by {
        assert(own.contains(own[x]));
        let j = choose|j: int| 0 <= j < c.files@.len() && c.files@[j] == own[x];
        assert(file_views(c.files@)[j] == (own[x].name@, own[x].bytes@));
    }
    assert(own[0].name@ == idx_file(e.segment_id));
    assert(own[1].name@ == doc_file(e.segment_id));
    if own.len() > 2 {
        assert(own[2].name@ == del_file(e.segment_id, e.del_gen));
    }
}

/// Behind a commit of merges the whole directory opens: the segments that are no
/// source as they were, the merged ones behind them without what was deleted
/// since they were prepared, and the overlay as it was.
pub proof fn lemma_merges_open(
    root: Seq<char>,
    files: Map<Seq<char>, Seq<u8>>,
    v: IndexView,
    ps: Seq<PreparedMerge>,
    from: Seq<Origin>,
    now: i64,
    c: Commit,
    verify: bool,
)
    requires
        stands(root, files, verify, v),
        v.manifest.next_segment_id + ps.len() <= u32::MAX,
        first_absent(v.manifest.segments, replaced(ps, ps.len() as int), 0) is None,
        all_prepared(v, ps, from),
        merges_hold(v, ps, now, c),
        valid(c.manifest@),
    ensures
        index_in(root, committed(files, plan_of(c)), verify) == Ok::<Option<IndexView>, ErrorView>(
            Some(merged_index(v, ps, c)),
        ),
        stands(root, committed(files, plan_of(c)), verify, merged_index(v, ps, c)),
{
    let m = v.manifest;
    let next = c.manifest@;
    let n = m.segments.len() as int;
    let ids = replaced(ps, ps.len() as int);
    let behind = committed(files, plan_of(c));
    let dir = joined(root, DIR_NAME@);
    let ss = merged_segments(v, ps, c);
    lemma_merges_are_sound(v, ps, now, c);
    lemma_committed_files(root, files, Some(m), c);
    lemma_opened_parts(dir, m, files, verify, n, v.segments);
    lemma_kept_segments(m.segments, v.segments, ids, n);
    let stay = kept_segments(v.segments, ids, n);
    assert(next.state_gen == m.state_gen && next.state_crc == m.state_crc && next.state_len
        == m.state_len && next.segments.len() == stay.len() + ps.len() && forall|x: int|
        0 <= x < stay.len() ==> #[trigger] next.segments[x] == retained(m.segments, ids, n)[x]) by {
        reveal(merges_hold);
    }
    assert forall|i: int| 0 <= i < ss.len() implies opens_as(
        dir,
        next.segments[i],
        behind,
        verify,
        #[trigger] ss[i],
    ) by {
        if i < stay.len() {
            let y = choose|y: int| 0 <= y < n && #[trigger] v.segments[y] == stay[i];
            lemma_file_stays(files, m, behind, y);
            assert(ss[i] == v.segments[y]);
            assert(next.segments[i] == stay[i].entry);
        } else {
            lemma_merge_opens(root, files, v, ps, from, now, c, verify, i - stay.len());
        }
    }
    lemma_segments_are(dir, next, behind, verify, ss, ss.len() as int);
    assert(ss.take(ss.len() as int) =~= ss);
    if next.state_gen > 0 {
        let f = IndexFile::Overlay(next.state_gen);
        lemma_file_named(m, f);
        assert(refers(Some(m), name_of(f)));
    }
}

/// An update under any crash: the directory opens as it did before, or to the
/// index with the whole update in it.
pub proof fn lemma_update_is_all_or_nothing(
    root: Seq<char>,
    files: Map<Seq<char>, Seq<u8>>,
    v: IndexView,
    deletes: Seq<u32>,
    new: Seq<PatchView>,
    fs: Seq<Flushed>,
    es: Seq<FileEntry>,
    cs: Seq<ContentView>,
    now: i64,
    c: Commit,
    outcomes: Seq<Option<Seq<char>>>,
    left: Map<Seq<char>, Seq<u8>>,
    verify: bool,
)
    requires
        stands(root, files, verify, v),
        cover(
            fs,
            root,
            es,
            cs,
            bound_of(v.manifest.segments),
            v.manifest.next_segment_id,
            es.len() as int,
        ),
        es.len() == cs.len(),
        bound_of(v.manifest.segments) + es.len() <= u32::MAX,
        v.manifest.next_segment_id + fs.len() <= u32::MAX,
        atoms_fit(cs),
        all_storable(fs, cs, bound_of(v.manifest.segments)),
        update_holds(v, deletes, new, fs, now, c),
        valid(c.manifest@),
        after_ops(begun(plan_of(c)), settled(files), outcomes).1.can_leave(left),
    ensures
        index_in(root, left, verify) matches Ok(Some(w)) && (w == v || is_updated(
            v,
            deletes,
            new,
            fs,
            c.manifest@,
            w,
        )),
{
    let base = bound_of(v.manifest.segments);
    lemma_ids_of_cover(fs, root, es, cs, base, v.manifest.next_segment_id);
    lemma_update_is_sound(v, deletes, new, fs, now, c);
    assert(c.files@.len() == c.files.len());
    lemma_recovers(root, files, c.manifest@, plan_of(c), outcomes, left, verify);
    lemma_update_opens(root, files, v, deletes, new, fs, es, cs, now, c, verify);
}

/// A full build under any crash: the directory opens as it did before, or to the
/// segments that were built.
pub proof fn lemma_build_is_all_or_nothing(
    root: Seq<char>,
    files: Map<Seq<char>, Seq<u8>>,
    fs: Seq<Flushed>,
    es: Seq<FileEntry>,
    cs: Seq<ContentView>,
    c: Commit,
    outcomes: Seq<Option<Seq<char>>>,
    left: Map<Seq<char>, Seq<u8>>,
    verify: bool,
)
    requires
        manifest_in_dir(root, files) matches Some(m) ==> valid(m),
        cover(
            fs,
            root,
            es,
            cs,
            0,
            starts_at(manifest_in_dir(root, files)).1,
            es.len() as int,
        ),
        es.len() == cs.len() <= u32::MAX,
        atoms_fit(cs),
        all_storable(fs, cs, 0),
        starts_at(manifest_in_dir(root, files)).1 + fs.len() <= u32::MAX,
        is_build(manifest_in_dir(root, files), fs, c),
        after_ops(begun(plan_of(c)), settled(files), outcomes).1.can_leave(left),
    ensures
        index_in(root, left, verify) == index_in(root, files, verify) || index_in(
            root,
            left,
            verify,
        ) == Ok::<Option<IndexView>, ErrorView>(Some(built_index(root, fs, c.manifest@))),
{
    let prev = manifest_in_dir(root, files);
    lemma_ids_of_cover(fs, root, es, cs, 0, starts_at(prev).1);
    lemma_build_is_sound(prev, fs, c);
    assert(c.files@.len() == c.files.len());
    lemma_recovers(root, files, c.manifest@, plan_of(c), outcomes, left, verify);
    lemma_build_opens(root, files, prev, fs, es, cs, c, verify);
}

/// A commit of merges under any crash: the directory opens as it did before, or
/// to the index with the merges in it.
pub proof fn lemma_merges_are_all_or_nothing(
    root: Seq<char>,
    files: Map<Seq<char>, Seq<u8>>,
    v: IndexView,
    ps: Seq<PreparedMerge>,
    from: Seq<Origin>,
    now: i64,
    c: Commit,
    outcomes: Seq<Option<Seq<char>>>,
    left: Map<Seq<char>, Seq<u8>>,
    verify: bool,
)
    requires
        stands(root, files, verify, v),
        v.manifest.next_segment_id + ps.len() <= u32::MAX,
        first_absent(v.manifest.segments, replaced(ps, ps.len() as int), 0) is None,
        all_prepared(v, ps, from),
        merges_hold(v, ps, now, c),
        valid(c.manifest@),
        after_ops(begun(plan_of(c)), settled(files), outcomes).1.can_leave(left),
    ensures
        index_in(root, left, verify) == Ok::<Option<IndexView>, ErrorView>(Some(v)) || index_in(
            root,
            left,
            verify,
        ) == Ok::<Option<IndexView>, ErrorView>(Some(merged_index(v, ps, c))),
{
    lemma_merges_are_sound(v, ps, now, c);
    assert(c.files@.len() == c.files.len());
    lemma_recovers(root, files, c.manifest@, plan_of(c), outcomes, left, verify);
    lemma_merges_open(root, files, v, ps, from, now, c, verify);
}

} // verus!
