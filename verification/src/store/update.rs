//! Incremental updates: only what changed is written. Documents that are gone
//! are tombstoned, new content goes to new segments, and what merely moved is
//! patched in the overlay.

use vstd::prelude::*;

use super::commit::{
    keeps_ranges, lemma_still_valid, same_range, tombstoned, tombstones, Commit, NewFile,
};
use super::flush::{
    build_segments, cover, indexed_docs, path_bytes, paths_too_long, placed, well_cut, Flushed,
};
use super::reader::{
    bound_of, lemma_patch_absent, lemma_patch_found, patch_for, patch_views, patches_ascend,
    stored_patches, Index, IndexView, OwnedPatch, PatchView,
};
use super::segment::{resolve, under};
use super::state::{change_views, Change, ChangeView, Plan};
use super::{
    doc_file, doc_name, files_of, idx_file, idx_name, overlay_file, overlay_name, segment_files,
};
use crate::crawler::{CrawledFile, FileEntry, FileKind};
use crate::error::{Error, ErrorView, Result};
use crate::format::envelope::{self, lemma_sealed_parses, Kind};
use crate::format::heap::heap;
use crate::format::manifest::{
    self, entry_fault, prev_entry, valid, Manifest, ManifestView, SegmentEntry,
};
use crate::format::overlay::{self, PatchIn};
use crate::format::{FormatError, FormatErrorView};
use crate::index::builder::{
    content_views, contents_fit, outcomes_of, BuildConfig, Content, ContentView,
};
use crate::index::DocId;
use crate::text::views;

verus! {

/// A crawled file by value.
#[verifier::ext_equal]
pub ghost struct CrawledView {
    pub path: Seq<char>,
    pub inode: u64,
    pub mtime: i64,
    pub size: u64,
    pub kind: FileKind,
}

/// Crawled files by value.
pub open spec fn crawled_views(fs: Seq<CrawledFile>) -> Seq<CrawledView> {
    Seq::new(
        fs.len(),
        |i: int|
            CrawledView {
                path: fs[i].entry.path@,
                inode: fs[i].entry.inode,
                mtime: fs[i].entry.mtime,
                size: fs[i].entry.size,
                kind: fs[i].kind,
            },
    )
}

/// The documents that the first `n` changes delete.
pub open spec fn deletes_of(cs: Seq<ChangeView>, n: int) -> Seq<u32>
    decreases n,
{
    if n <= 0 {
        Seq::empty()
    } else {
        match cs[n - 1] {
            ChangeView::Delete(id) => deletes_of(cs, n - 1).push(id),
            _ => deletes_of(cs, n - 1),
        }
    }
}

/// The patches among the first `n` changes.
pub open spec fn patches_of(cs: Seq<ChangeView>, n: int) -> Seq<PatchView>
    decreases n,
{
    if n <= 0 {
        Seq::empty()
    } else {
        match cs[n - 1] {
            ChangeView::Patch { doc_id, inode, mtime_nanos, size, path } => patches_of(
                cs,
                n - 1,
            ).push(PatchView { doc_id, inode, mtime_nanos, size, path }),
            _ => patches_of(cs, n - 1),
        }
    }
}

/// The files that the first `n` changes index anew, with their paths below
/// `root`.
pub open spec fn files_to_index(cs: Seq<ChangeView>, root: Seq<char>, n: int) -> Seq<CrawledView>
    decreases n,
{
    if n <= 0 {
        Seq::empty()
    } else {
        match cs[n - 1] {
            ChangeView::Reindex { path, kind, inode, mtime_nanos, size, bytes } => files_to_index(
                cs,
                root,
                n - 1,
            ).push(
                CrawledView { path: under(root, path), inode, mtime: mtime_nanos, size, kind },
            ),
            _ => files_to_index(cs, root, n - 1),
        }
    }
}

/// The work of an update, by what is done.
#[derive(Debug)]
pub struct Work {
    pub deletes: Vec<DocId>,
    pub patches: Vec<OwnedPatch>,
    pub files: Vec<CrawledFile>,
}

impl Work {
    /// This is the work of these changes.
    pub open spec fn is_of(&self, cs: Seq<ChangeView>, root: Seq<char>) -> bool {
        &&& self.deletes@ == deletes_of(cs, cs.len() as int)
        &&& patch_views(self.patches@) == patches_of(cs, cs.len() as int)
        &&& crawled_views(self.files@) == files_to_index(cs, root, cs.len() as int)
    }
}

/// Sorts the changes of a plan by what is done.
pub fn split(plan: &Plan, root: &str) -> (w: Work)
    ensures
        w.is_of(change_views(plan.changes@), root@),
{
    let ghost cs = change_views(plan.changes@);
    let mut deletes: Vec<DocId> = Vec::new();
    let mut patches: Vec<OwnedPatch> = Vec::new();
    let mut files: Vec<CrawledFile> = Vec::new();
    let mut i: usize = 0;
    assert(patch_views(patches@) =~= Seq::empty());
    assert(crawled_views(files@) =~= Seq::empty());
    while i < plan.changes.len()
        invariant
            i <= plan.changes@.len(),
            cs == change_views(plan.changes@),
            deletes@ == deletes_of(cs, i as int),
            patch_views(patches@) == patches_of(cs, i as int),
            crawled_views(files@) == files_to_index(cs, root@, i as int),
        decreases plan.changes@.len() - i,
    {
        let ghost ps = patch_views(patches@);
        let ghost fs = crawled_views(files@);
        let c = &plan.changes[i];
        assert(cs[i as int] == c@);
        match c {
            Change::Delete(id) => {
                deletes.push(*id);
            },
            Change::Patch { doc_id, inode, mtime_nanos, size, path } => {
                let p = OwnedPatch {
                    doc_id: *doc_id,
                    inode: *inode,
                    mtime_nanos: *mtime_nanos,
                    size: *size,
                    path: path.clone(),
                };
                patches.push(p);
                assert(patch_views(patches@) =~= ps.push(p@));
            },
            Change::Reindex { path, kind, inode, mtime_nanos, size, .. } => {
                let entry = FileEntry {
                    path: resolve(root, path.as_str()),
                    inode: *inode,
                    mtime: *mtime_nanos,
                    size: *size,
                };
                let ghost f = CrawledView {
                    path: entry.path@,
                    inode: *inode,
                    mtime: *mtime_nanos,
                    size: *size,
                    kind: *kind,
                };
                files.push(CrawledFile { entry, kind: *kind });
                assert(crawled_views(files@) =~= fs.push(f));
            },
        }
        i = i + 1;
    }
    Work { deletes, patches, files }
}

/// The last of the first `n` patches that is of the document.
pub open spec fn last_patch(ps: Seq<PatchView>, id: u32, n: int) -> Option<PatchView>
    decreases n,
{
    if n <= 0 {
        None
    } else if ps[n - 1].doc_id == id {
        Some(ps[n - 1])
    } else {
        last_patch(ps, id, n - 1)
    }
}

/// The patch of a document once the first `n` new ones are laid over the old.
pub open spec fn patch_over(was: Seq<PatchView>, new: Seq<PatchView>, n: int, id: u32) -> Option<
    PatchView,
> {
    match last_patch(new, id, n) {
        Some(p) => Some(p),
        None => patch_for(was, id, 0),
    }
}

/// The patches are the old ones with the new ones over them, without those of
/// deleted documents.
pub open spec fn overlay_after(
    was: Seq<PatchView>,
    new: Seq<PatchView>,
    deleted: Seq<u32>,
    now: Seq<PatchView>,
) -> bool {
    &&& patches_ascend(now)
    &&& forall|id: u32| #[trigger]
        patch_for(now, id, 0) == if deleted.contains(id) {
            None
        } else {
            patch_over(was, new, new.len() as int, id)
        }
}

proof fn lemma_patch_known(ps: Seq<PatchView>, id: u32) -> (k: int)
    requires
        patch_for(ps, id, 0) is Some,
    ensures
        0 <= k < ps.len(),
        ps[k].doc_id == id,
        patch_for(ps, id, 0) == Some(ps[k]),
{
    lemma_patch_known_from(ps, id, 0)
}

proof fn lemma_patch_known_from(ps: Seq<PatchView>, id: u32, i: int) -> (k: int)
    requires
        0 <= i,
        patch_for(ps, id, i) is Some,
    ensures
        i <= k < ps.len(),
        ps[k].doc_id == id,
        patch_for(ps, id, i) == Some(ps[k]),
    decreases ps.len() - i,
{
    if ps[i].doc_id == id {
        i
    } else {
        lemma_patch_known_from(ps, id, i + 1)
    }
}

/// Putting a patch in its place changes what is known of its document alone.
proof fn lemma_put(ps: Seq<PatchView>, at: int, p: PatchView, qs: Seq<PatchView>, id: u32)
    requires
        patches_ascend(ps),
        patches_ascend(qs),
        0 <= at <= ps.len(),
        at < ps.len() && ps[at].doc_id == p.doc_id && qs == ps.update(at, p) || qs == ps.insert(
            at,
            p,
        ) && (forall|k: int| 0 <= k < ps.len() ==> (#[trigger] ps[k]).doc_id != p.doc_id),
    ensures
        patch_for(qs, id, 0) == if id == p.doc_id {
            Some(p)
        } else {
            patch_for(ps, id, 0)
        },
{
    if id == p.doc_id {
        assert(qs[at] == p);
        lemma_patch_found(qs, id, 0, at);
    } else if patch_for(ps, id, 0) is Some {
        let k = lemma_patch_known(ps, id);
        if qs.len() == ps.len() || k < at {
            assert(qs[k] == ps[k]);
            lemma_patch_found(qs, id, 0, k);
        } else {
            assert(qs[k + 1] == ps[k]);
            lemma_patch_found(qs, id, 0, k + 1);
        }
    } else {
        assert forall|k: int| 0 <= k < qs.len() implies (#[trigger] qs[k]).doc_id != id by {
            if qs[k].doc_id == id {
                if qs.len() == ps.len() || k < at {
                    assert(qs[k] == ps[k]);
                    lemma_patch_found(ps, id, 0, k);
                } else {
                    assert(qs[k] == ps[k - 1]);
                    lemma_patch_found(ps, id, 0, k - 1);
                }
            }
        }
        lemma_patch_absent(qs, id, 0);
    }
}

/// Puts a patch in its place among ascending ones.
fn put_patch(ps: &mut Vec<OwnedPatch>, p: OwnedPatch)
    requires
        patches_ascend(patch_views(old(ps)@)),
    ensures
        patches_ascend(patch_views(final(ps)@)),
        forall|id: u32| #[trigger]
            patch_for(patch_views(final(ps)@), id, 0) == if id == p.doc_id {
                Some(p@)
            } else {
                patch_for(patch_views(old(ps)@), id, 0)
            },
{
    let ghost vs = patch_views(ps@);
    let mut lo: usize = 0;
    let mut hi: usize = ps.len();
    while lo < hi
        invariant
            vs == patch_views(ps@),
            patches_ascend(vs),
            lo <= hi <= ps@.len(),
            forall|k: int| 0 <= k < lo ==> (#[trigger] vs[k]).doc_id < p.doc_id,
            forall|k: int| hi <= k < vs.len() ==> (#[trigger] vs[k]).doc_id >= p.doc_id,
        decreases hi - lo,
    {
        let mid: usize = lo + (hi - lo) / 2;
        assert(vs[mid as int] == ps@[mid as int]@);
        if ps[mid].doc_id < p.doc_id {
            lo = mid + 1;
        } else {
            hi = mid;
        }
    }
    let ghost pv = p@;
    let same: bool = lo < ps.len() && ps[lo].doc_id == p.doc_id;
    assert(lo < vs.len() ==> vs[lo as int] == ps@[lo as int]@);
    if same {
        ps.set(lo, p);
        assert(patch_views(ps@) =~= vs.update(lo as int, pv));
    } else {
        ps.insert(lo, p);
        assert(patch_views(ps@) =~= vs.insert(lo as int, pv));
    }
    proof {
        let qs = patch_views(ps@);
        assert(patches_ascend(qs)) by {
            assert forall|i: int, j: int| 0 <= i < j < qs.len() implies (#[trigger] qs[i]).doc_id
                < (#[trigger] qs[j]).doc_id by {
                if !same {
                    let a = if i < lo { i } else { i - 1 };
                    let b = if j < lo { j } else { j - 1 };
                    if i != lo {
                        assert(qs[i] == vs[a]);
                    }
                    if j != lo {
                        assert(qs[j] == vs[b]);
                    }
                } else {
                    assert(vs[i].doc_id < vs[j].doc_id);
                }
            }
        }
        assert forall|id: u32| #[trigger] patch_for(qs, id, 0) == if id == p.doc_id {
            Some(pv)
        } else {
            patch_for(vs, id, 0)
        } by {
            lemma_put(vs, lo as int, pv, qs, id);
        }
    }
}

fn is_in(ids: &[DocId], id: DocId) -> (r: bool)
    ensures
        r == ids@.contains(id),
{
    let mut i: usize = 0;
    while i < ids.len()
        invariant
            i <= ids@.len(),
            forall|k: int| 0 <= k < i ==> ids@[k] != id,
        decreases ids@.len() - i,
    {
        if ids[i] == id {
            return true;
        }
        i = i + 1;
    }
    false
}

/// Lays new patches over the current ones and drops those of deleted documents.
pub fn merge_patches(
    current: &Vec<OwnedPatch>,
    new: Vec<OwnedPatch>,
    deleted: &[DocId],
) -> (r: Vec<OwnedPatch>)
    requires
        patches_ascend(patch_views(current@)),
    ensures
        overlay_after(
            patch_views(current@),
            patch_views(new@),
            deleted@,
            patch_views(r@),
        ),
{
    let ghost was = patch_views(current@);
    let ghost nv = patch_views(new@);
    let mut all: Vec<OwnedPatch> = Vec::new();
    let mut i: usize = 0;
    while i < current.len()
        invariant
            i <= current@.len(),
            was == patch_views(current@),
            patch_views(all@) == was.take(i as int),
        decreases current@.len() - i,
    {
        let ghost had = patch_views(all@);
        let p = current[i].clone();
        all.push(p);
        i = i + 1;
        assert(patch_views(all@) =~= had.push(p@));
        assert(was.take(i as int) =~= had.push(was[i - 1]));
    }
    assert(was.take(i as int) =~= was);
    let mut i: usize = 0;
    while i < new.len()
        invariant
            i <= new@.len(),
            nv == patch_views(new@),
            patches_ascend(patch_views(all@)),
            forall|id: u32| #[trigger]
                patch_for(patch_views(all@), id, 0) == patch_over(was, nv, i as int, id),
        decreases new@.len() - i,
    {
        let ghost had = patch_views(all@);
        let p = new[i].clone();
        assert(p@ == nv[i as int]);
        put_patch(&mut all, p);
        proof {
            let now = patch_views(all@);
            assert forall|id: u32| #[trigger] patch_for(now, id, 0) == patch_over(
                was,
                nv,
                i + 1,
                id,
            ) by {
                assert(patch_for(had, id, 0) == patch_over(was, nv, i as int, id));
            }
        }
        i = i + 1;
    }
    let ghost av = patch_views(all@);
    let mut r: Vec<OwnedPatch> = Vec::new();
    let mut i: usize = 0;
    let ghost mut from: Seq<int> = Seq::empty();
    while i < all.len()
        invariant
            i <= all@.len(),
            av == patch_views(all@),
            patches_ascend(av),
            from.len() == r@.len(),
            forall|k: int|
                #![trigger from[k]]
                0 <= k < from.len() ==> 0 <= from[k] < i && patch_views(r@)[k] == av[from[k]]
                    && !deleted@.contains(av[from[k]].doc_id),
            forall|a: int, b: int| 0 <= a < b < from.len() ==> (#[trigger] from[a]) < (#[trigger] from[b]),
            forall|k: int|
                0 <= k < i && !deleted@.contains((#[trigger] av[k]).doc_id) ==> from.contains(k),
        decreases all@.len() - i,
    {
        let ghost had = patch_views(r@);
        let ghost was_from = from;
        assert(av[i as int] == all@[i as int]@);
        if !is_in(deleted, all[i].doc_id) {
            r.push(all[i].clone());
            proof {
                from = from.push(i as int);
                assert(patch_views(r@) =~= had.push(av[i as int]));
                assert forall|k: int|
                    0 <= k < i + 1 && !deleted@.contains((#[trigger] av[k]).doc_id) implies from.contains(k) by {
                    if k < i {
                        let x = choose|x: int| 0 <= x < was_from.len() && was_from[x] == k;
                        assert(from[x] == k);
                    } else {
                        assert(from[from.len() - 1] == k);
                    }
                }
            }
        }
        i = i + 1;
    }
    proof {
        let now = patch_views(r@);
        assert(patches_ascend(now)) by {
            assert forall|a: int, b: int| 0 <= a < b < now.len() implies (#[trigger] now[a]).doc_id
                < (#[trigger] now[b]).doc_id by {
                assert(from[a] < from[b]);
                assert(now[a] == av[from[a]]);
                assert(now[b] == av[from[b]]);
            }
        }
        assert forall|id: u32| #[trigger] patch_for(now, id, 0) == if deleted@.contains(id) {
            None
        } else {
            patch_over(was, nv, nv.len() as int, id)
        } by {
            assert(patch_for(av, id, 0) == patch_over(was, nv, nv.len() as int, id));
            if !deleted@.contains(id) && patch_for(av, id, 0) is Some {
                let k = lemma_patch_known(av, id);
                assert(!deleted@.contains(av[k].doc_id));
                let x = choose|x: int| 0 <= x < from.len() && from[x] == k;
                assert(now[x] == av[from[x]]);
                lemma_patch_found(now, id, 0, x);
            } else {
                assert forall|k: int| 0 <= k < now.len() implies (#[trigger] now[k]).doc_id
                    != id by {
                    assert(now[k] == av[from[k]]);
                    if av[from[k]].doc_id == id {
                        lemma_patch_found(av, id, 0, from[k]);
                    }
                }
                lemma_patch_absent(now, id, 0);
            }
        }
    }
    r
}

/// The paths of patches.
pub open spec fn patch_paths(ps: Seq<PatchView>) -> Seq<Seq<char>> {
    Seq::new(ps.len(), |i: int| ps[i].path)
}

/// The overlay file of these patches and its checksum.
fn encode_overlay(ps: &Vec<OwnedPatch>) -> (r: Result<(Vec<u8>, u32)>)
    requires
        patches_ascend(patch_views(ps@)),
    ensures
        match r {
            Ok((bytes, crc)) => bytes@.len() > 0 && overlay_fits(patch_views(ps@)) && (overlay::parsed(bytes@) matches Ok((qs, h, c)) && c == crc
                && stored_patches(qs, h) == patch_views(ps@)),
            Err(e) => !overlay_fits(patch_views(ps@)) && e@ == overlay_too_long(),
        },
{
    if ps.len() as u64 > u32::MAX as u64 {
        return Err(Error::Format(FormatError::Invariant("overlay path heap exceeds 4 GiB")));
    }
    let ghost vs = patch_views(ps@);
    let mut ins: Vec<PatchIn<'_>> = Vec::new();
    let mut i: usize = 0;
    while i < ps.len()
        invariant
            i <= ps@.len(),
            ins@.len() == i,
            forall|k: int|
                #![trigger ins@[k]]
                0 <= k < i ==> {
                    &&& ins@[k].doc_id == ps@[k].doc_id
                    &&& ins@[k].inode == ps@[k].inode
                    &&& ins@[k].mtime_nanos == ps@[k].mtime_nanos
                    &&& ins@[k].size == ps@[k].size
                    &&& ins@[k].path@ == ps@[k].path@
                },
        decreases ps@.len() - i,
    {
        let p = &ps[i];
        ins.push(
            PatchIn {
                doc_id: p.doc_id,
                inode: p.inode,
                mtime_nanos: p.mtime_nanos,
                size: p.size,
                path: p.path.as_str(),
            },
        );
        i = i + 1;
    }
    proof {
        assert(overlay::paths_of(ins@) =~= patch_paths(vs));
        assert(overlay::ascending(ins@)) by {
            assert forall|a: int, b: int| 0 <= a < b < ins@.len() implies (#[trigger] ins@[a]).doc_id
                < (#[trigger] ins@[b]).doc_id by {
                assert(vs[a].doc_id < vs[b].doc_id);
            }
        }
    }
    let bytes = match overlay::encode(ins.as_slice()) {
        Ok(bytes) => bytes,
        Err(e) => {
            return Err(Error::Format(e));
        },
    };
    assert(bytes@.len() == bytes.len());
    proof {
        overlay::lemma_roundtrip(ins@);
        lemma_sealed_parses(Kind::Overlay, overlay::body_view(ins@));
        let (qs, h, _) = overlay::parsed(bytes@)->Ok_0;
        assert(stored_patches(qs, h) =~= vs) by {
            assert forall|k: int| 0 <= k < vs.len() implies stored_patches(qs, h)[k]
                == #[trigger] vs[k] by {
                let x = ins@[k];
            }
        }
    }
    let crc: u32 = match envelope::parse(Kind::Overlay, bytes.as_slice()) {
        Ok(env) => env.crc,
        Err(_) => 0,
    };
    Ok((bytes, crc))
}

/// The overlay file can count the patches and address their paths.
pub open spec fn overlay_fits(ps: Seq<PatchView>) -> bool {
    ps.len() <= u32::MAX && heap(patch_paths(ps)).len() <= u32::MAX
}

/// The patches do not fit an overlay file.
pub open spec fn overlay_too_long() -> ErrorView {
    ErrorView::Format(FormatErrorView::Invariant("overlay path heap exceeds 4 GiB"@))
}

/// The entries of serialised segments.
pub open spec fn entries_of(fs: Seq<Flushed>) -> Seq<SegmentEntry> {
    Seq::new(fs.len(), |i: int| fs[i].entry)
}

/// A manifest with serialised segments behind its own.
pub open spec fn appended(m: ManifestView, fs: Seq<Flushed>) -> ManifestView {
    ManifestView {
        segments: m.segments + entries_of(fs),
        next_segment_id: (m.next_segment_id + fs.len()) as u32,
        ..m
    }
}

/// Segments that cover files from the document bound on fit behind those of the
/// manifest.
pub proof fn lemma_appended_valid(
    m: ManifestView,
    fs: Seq<Flushed>,
    root: Seq<char>,
    files: Seq<FileEntry>,
    cs: Seq<ContentView>,
    n: int,
)
    requires
        valid(m),
        cover(fs, root, files, cs, bound_of(m.segments), m.next_segment_id, n),
        n <= files.len(),
        m.segments.len() > 0 ==> m.segments.last().end() <= u32::MAX,
        bound_of(m.segments) + files.len() <= u32::MAX,
        m.next_segment_id + fs.len() <= u32::MAX,
        m.segments.len() + fs.len() <= u32::MAX,
    ensures
        valid(appended(m, fs)),
{
    let a = appended(m, fs);
    let base = bound_of(m.segments);
    let c = m.segments.len() as int;
    assert forall|i: int| #![trigger a.segments[i]] 0 <= i < a.segments.len() implies entry_fault(
        a.segments[i],
        prev_entry(a.segments, i),
        a.next_segment_id,
    ) is None by {
        if i < c {
            assert(a.segments[i] == m.segments[i]);
            if i > 0 {
                assert(a.segments[i - 1] == m.segments[i - 1]);
            }
            assert(entry_fault(m.segments[i], prev_entry(m.segments, i), m.next_segment_id) is None);
        } else {
            let k = i - c;
            assert(placed(fs, root, files, cs, base, m.next_segment_id, k));
            assert(a.segments[i] == fs[k].entry);
            if k > 0 {
                assert(a.segments[i - 1] == fs[k - 1].entry);
                assert(placed(fs, root, files, cs, base, m.next_segment_id, k - 1));
            } else if c > 0 {
                assert(a.segments[i - 1] == m.segments[c - 1]);
                manifest::lemma_entry(m, c - 1);
            }
        }
    }
}

/// The files of serialised segments.
pub open spec fn segment_file_list(fs: Seq<Flushed>, n: int) -> Seq<(Seq<char>, Seq<u8>)>
    decreases n,
{
    if n <= 0 {
        Seq::empty()
    } else {
        segment_file_list(fs, n - 1) + seq![
            (idx_file(fs[n - 1].entry.segment_id), fs[n - 1].idx@),
            (doc_file(fs[n - 1].entry.segment_id), fs[n - 1].doc@),
        ]
    }
}

/// Files by value.
pub open spec fn file_views(fs: Seq<NewFile>) -> Seq<(Seq<char>, Seq<u8>)> {
    Seq::new(fs.len(), |i: int| (fs[i].name@, fs[i].bytes@))
}

/// The files of serialised segments, to be written, and their entries.
pub fn take_files(fs: Vec<Flushed>) -> (r: (Vec<NewFile>, Vec<SegmentEntry>))
    ensures
        file_views(r.0@) == segment_file_list(fs@, fs@.len() as int),
        r.1@ == entries_of(fs@),
{
    let ghost all = fs@;
    let n: usize = fs.len();
    let mut left = fs;
    let mut files: Vec<NewFile> = Vec::new();
    let mut entries: Vec<SegmentEntry> = Vec::new();
    let mut i: usize = 0;
    assert(file_views(files@) =~= Seq::empty());
    assert(all.skip(0) =~= all);
    while i < n
        invariant
            n == all.len(),
            i <= n,
            left@ == all.skip(i as int),
            file_views(files@) == segment_file_list(all, i as int),
            entries@ == entries_of(all).take(i as int),
        decreases n - i,
    {
        let ghost had = file_views(files@);
        let f = left.remove(0);
        assert(f == all[i as int]);
        assert(left@ =~= all.skip(i + 1));
        let id: u32 = f.entry.segment_id;
        entries.push(f.entry);
        let ghost (x, y) = (f.idx@, f.doc@);
        files.push(NewFile { name: idx_name(id), bytes: f.idx });
        files.push(NewFile { name: doc_name(id), bytes: f.doc });
        i = i + 1;
        proof {
            assert(file_views(files@) =~= had + seq![(idx_file(id), x), (doc_file(id), y)]);
            assert(entries@ =~= entries_of(all).take(i as int));
        }
    }
    assert(entries_of(all).take(i as int) =~= entries_of(all));
    (files, entries)
}

/// The overlay of the next manifest: none where no patch is left, else the next
/// generation, in the file behind the others.
pub open spec fn overlay_next(
    m: ManifestView,
    next: ManifestView,
    ps: Seq<PatchView>,
    file: Option<(Seq<char>, Seq<u8>)>,
) -> bool {
    if ps.len() == 0 {
        file is None && next.state_gen == 0 && next.state_crc == 0 && next.state_len == 0
    } else {
        &&& m.state_gen < u32::MAX
        &&& next.state_gen == m.state_gen + 1
        &&& file matches Some((name, bytes)) && name == overlay_file(next.state_gen)
            && next.state_len == bytes.len() as u64 && (overlay::parsed(bytes) matches Ok((qs, h, crc))
            && crc == next.state_crc && stored_patches(qs, h) == ps)
    }
}

/// The commit of an update: the ids deleted, the patches laid over the overlay,
/// the segments appended.
#[verifier::opaque]
pub open spec fn update_holds(
    v: IndexView,
    deletes: Seq<u32>,
    new: Seq<PatchView>,
    fs: Seq<Flushed>,
    now: i64,
    c: Commit,
) -> bool {
    exists|
        entries: Seq<SegmentEntry>,
        dels: Seq<NewFile>,
        dropped: Seq<Seq<char>>,
        ps: Seq<PatchView>,
        ovl: Option<(Seq<char>, Seq<u8>)>,
    |
        {
            &&& #[trigger] tombstoned(
                v,
                deletes,
                entries,
                dels,
                dropped,
                v.manifest.segments.len() as int,
            )
            &&& #[trigger] overlay_after(v.overlay, new, deletes, ps)
            &&& #[trigger] overlay_next(v.manifest, c.manifest@, ps, ovl)
            &&& c.manifest@.segments == entries + entries_of(fs)
            &&& c.manifest@.next_segment_id == v.manifest.next_segment_id + fs.len()
            &&& c.manifest@.generation == v.manifest.generation + 1
            &&& c.manifest@.committed_unix_nanos == now
            &&& file_views(c.files@) == segment_file_list(fs, fs.len() as int) + file_views(dels)
                + match ovl {
                Some(f) => seq![f],
                None => Seq::empty(),
            }
            &&& views(c.retired@) == dropped + if v.manifest.state_gen > 0
                && v.manifest.state_gen != c.manifest@.state_gen {
                seq![overlay_file(v.manifest.state_gen)]
            } else {
                Seq::empty()
            }
        }
}

/// What an update commits: `deletes` are tombstoned, `patches` laid over the
/// overlay, and `fs`, which were built from the index's document bound and next
/// segment id on, appended. Fails only where the overlay's paths take more than
/// 4 GiB.
pub fn update_commit(
    index: &Index<'_>,
    deletes: &[DocId],
    patches: Vec<OwnedPatch>,
    fs: Vec<Flushed>,
    now: i64,
) -> (r: Result<Commit>)
    requires
        index.wf(),
        index@.manifest.generation < u64::MAX,
        index@.manifest.state_gen < u32::MAX,
        index@.manifest.next_segment_id + fs@.len() <= u32::MAX,
        forall|i: int|
            0 <= i < index@.manifest.segments.len() ==> (#[trigger] index@.manifest.segments[i]).del_gen
                < u32::MAX,
        valid(appended(index@.manifest, fs@)),
    ensures
        match r {
            Ok(c) => update_holds(index@, deletes@, patch_views(patches@), fs@, now, c) && valid(
                c.manifest@,
            ),
            Err(e) => e@ == overlay_too_long() && exists|ps: Seq<PatchView>| #[trigger]
                overlay_after(index@.overlay, patch_views(patches@), deletes@, ps)
                    && !overlay_fits(ps),
        },
{
    let ghost v = index@;
    let ghost fv = fs@;
    let ghost nv = patch_views(patches@);
    proof {
        index.lemma_wf();
    }
    let (mut entries, mut dels, mut dropped) = tombstones(index, deletes);
    let ghost (ev, dv, rv) = (entries@, dels@, views(dropped@));
    let ps = merge_patches(index.overlay_patches(), patches, deletes);
    let ghost pv = patch_views(ps@);
    let count: usize = fs.len();
    let (mut files, mut fresh) = take_files(fs);
    entries.append(&mut fresh);
    let ghost sv = file_views(files@);
    files.append(&mut dels);
    assert(file_views(files@) =~= sv + file_views(dv));
    let mut manifest: Manifest = index.manifest().clone();
    let had_gen: u32 = manifest.state_gen;
    manifest.generation = manifest.generation + 1;
    manifest.committed_unix_nanos = now;
    manifest.next_segment_id = manifest.next_segment_id + count as u32;
    manifest.segments = entries;
    let ghost mut ovl: Option<(Seq<char>, Seq<u8>)> = None;
    if ps.len() == 0 {
        manifest.state_gen = 0;
        manifest.state_crc = 0;
        manifest.state_len = 0;
        assert(sv + file_views(dv) + Seq::<(Seq<char>, Seq<u8>)>::empty() =~= sv + file_views(dv));
    } else {
        let (bytes, crc) = encode_overlay(&ps)?;
        assert(bytes@.len() == bytes.len());
        manifest.state_gen = had_gen + 1;
        manifest.state_crc = crc;
        manifest.state_len = bytes.len() as u64;
        let name = overlay_name(manifest.state_gen);
        proof {
            ovl = Some((name@, bytes@));
        }
        let ghost f = (name@, bytes@);
        files.push(NewFile { name, bytes });
        assert(file_views(files@) =~= sv + file_views(dv) + seq![f]);
    }
    let ghost old_names = views(dropped@);
    if had_gen > 0 && had_gen != manifest.state_gen {
        dropped.push(overlay_name(had_gen));
        assert(views(dropped@) =~= rv + seq![overlay_file(had_gen)]);
    } else {
        assert(rv + Seq::<Seq<char>>::empty() =~= rv);
    }
    let c = Commit { files, manifest, retired: dropped };
    proof {
        reveal(update_holds);
        assert(c.manifest@.segments =~= ev + entries_of(fv));
        assert(overlay_next(v.manifest, c.manifest@, pv, ovl));
        lemma_update_valid(v.manifest, fv, ev, c.manifest@);
    }
    Ok(c)
}

proof fn lemma_update_valid(
    m: ManifestView,
    fs: Seq<Flushed>,
    entries: Seq<SegmentEntry>,
    next: ManifestView,
)
    requires
        valid(appended(m, fs)),
        keeps_ranges(m.segments, entries),
        next.segments == entries + entries_of(fs),
        next.next_segment_id == appended(m, fs).next_segment_id,
        (next.state_gen == 0) == (next.state_len == 0),
    ensures
        valid(next),
{
    let a = appended(m, fs);
    assert(keeps_ranges(a.segments, next.segments)) by {
        assert forall|i: int| 0 <= i < a.segments.len() implies same_range(
            a.segments[i],
            #[trigger] next.segments[i],
        ) by {
            if i < m.segments.len() {
                assert(same_range(m.segments[i], entries[i]));
            } else {
                assert(a.segments[i] == entries_of(fs)[i - m.segments.len()]);
            }
        }
    }
    lemma_still_valid(a, next);
}

fn entries_to_index(files: &Vec<CrawledFile>) -> (r: Vec<FileEntry>)
    ensures
        r@.len() == files@.len(),
        forall|i: int| #![trigger r@[i]] 0 <= i < r@.len() ==> same_file(r@[i], files@[i].entry),
{
    let mut r: Vec<FileEntry> = Vec::new();
    let mut i: usize = 0;
    while i < files.len()
        invariant
            i <= files@.len(),
            r@.len() == i,
            forall|k: int| #![trigger r@[k]] 0 <= k < i ==> same_file(r@[k], files@[k].entry),
        decreases files@.len() - i,
    {
        r.push(files[i].entry.clone());
        i = i + 1;
    }
    r
}

/// The entries are of the same file in the same state.
pub open spec fn same_file(a: FileEntry, b: FileEntry) -> bool {
    a.path@ == b.path@ && a.inode == b.inode && a.mtime == b.mtime && a.size == b.size
}

/// The files of an update, by value.
pub open spec fn are_files(es: Seq<FileEntry>, fs: Seq<CrawledView>) -> bool {
    &&& es.len() == fs.len()
    &&& forall|i: int|
        #![trigger es[i]]
        0 <= i < es.len() ==> es[i].path@ == fs[i].path && es[i].inode == fs[i].inode
            && es[i].mtime == fs[i].mtime && es[i].size == fs[i].size
}

/// Why an update cannot be stored: the paths of the files to index, or those of
/// the overlay, take more than 4 GiB.
pub open spec fn update_refused(
    v: IndexView,
    cs: Seq<ChangeView>,
    contents: Seq<ContentView>,
    e: ErrorView,
) -> bool {
    let n = cs.len() as int;
    ||| e == paths_too_long() && exists|es: Seq<FileEntry>| #[trigger]
        are_files(es, files_to_index(cs, v.root, n)) && path_bytes(
            indexed_docs(es, outcomes_of(contents)),
            v.root,
        ) > u32::MAX
    ||| e == overlay_too_long() && exists|ps: Seq<PatchView>| #[trigger]
        overlay_after(v.overlay, patches_of(cs, n), deletes_of(cs, n), ps) && !overlay_fits(ps)
}

/// What an update of the index commits, from the plan of its changes and the
/// contents of the files that are indexed anew, in the order of the plan.
/// Nothing where the plan is empty.
pub fn update_index(
    index: &Index<'_>,
    plan: &Plan,
    contents: &[Content],
    cfg: &BuildConfig,
    now: i64,
) -> (r: Result<Option<Commit>>)
    requires
        index.wf(),
        index@.manifest.generation < u64::MAX,
        index@.manifest.state_gen < u32::MAX,
        index@.manifest.segments.len() + contents@.len() <= u32::MAX,
        index@.manifest.next_segment_id + contents@.len() < u32::MAX,
        bound_of(index@.manifest.segments) + contents@.len() <= u32::MAX,
        index@.manifest.segments.len() > 0 ==> index@.manifest.segments.last().end() <= u32::MAX,
        forall|i: int|
            0 <= i < index@.manifest.segments.len() ==> (#[trigger] index@.manifest.segments[i]).del_gen
                < u32::MAX,
        contents_fit(content_views(contents@)),
        contents@.len() == files_to_index(
            change_views(plan.changes@),
            index@.root,
            plan.changes@.len() as int,
        ).len(),
    ensures
        ({
            let v = index@;
            let cs = change_views(plan.changes@);
            let n = cs.len() as int;
            match r {
                Ok(None) => n == 0,
                Ok(Some(c)) => n > 0 && valid(c.manifest@) && exists|
                    fs: Seq<Flushed>,
                    es: Seq<FileEntry>,
                |
                    {
                        &&& #[trigger] are_files(es, files_to_index(cs, v.root, n))
                        &&& #[trigger] cover(
                            fs,
                            v.root,
                            es,
                            content_views(contents@),
                            bound_of(v.manifest.segments),
                            v.manifest.next_segment_id,
                            es.len() as int,
                        )
                        &&& well_cut(
                            fs,
                            content_views(contents@),
                            bound_of(v.manifest.segments),
                            *cfg,
                        )
                        &&& update_holds(v, deletes_of(cs, n), patches_of(cs, n), fs, now, c)
                    },
                Err(e) => n > 0 && update_refused(v, cs, content_views(contents@), e@),
            }
        }),
{
    if plan.is_empty() {
        return Ok(None);
    }
    let ghost v = index@;
    let ghost cs = change_views(plan.changes@);
    let w = split(plan, index.root());
    let files = entries_to_index(&w.files);
    proof {
        index.lemma_wf();
        let want = files_to_index(cs, v.root, cs.len() as int);
        assert(crawled_views(w.files@) == want);
        assert(files@.len() == want.len());
        assert forall|i: int| #![trigger files@[i]] 0 <= i < files@.len() implies files@[i].path@
            == want[i].path && files@[i].inode == want[i].inode && files@[i].mtime == want[i].mtime
            && files@[i].size == want[i].size by {
            assert(same_file(files@[i], w.files@[i].entry));
            assert(crawled_views(w.files@)[i] == want[i]);
        }
    }
    let base: DocId = index.docs().id_bound();
    assert(are_files(files@, files_to_index(cs, v.root, cs.len() as int)));
    let (fs, _next) = match build_segments(
        index.root(),
        files.as_slice(),
        contents,
        base,
        cfg,
        index.manifest().next_segment_id,
    ) {
        Ok(r) => r,
        Err(e) => {
            return Err(e);
        },
    };
    proof {
        lemma_appended_valid(
            v.manifest,
            fs@,
            v.root,
            files@,
            content_views(contents@),
            files@.len() as int,
        );
    }
    let ghost fv = fs@;
    let c = match update_commit(index, w.deletes.as_slice(), w.patches, fs, now) {
        Ok(c) => c,
        Err(e) => {
            return Err(e);
        },
    };
    proof {
        assert(cover(
            fv,
            v.root,
            files@,
            content_views(contents@),
            bound_of(v.manifest.segments),
            v.manifest.next_segment_id,
            files@.len() as int,
        ));
    }
    Ok(Some(c))
}

/// The files of the first `n` segments of a manifest.
pub open spec fn manifest_files(m: ManifestView, n: int) -> Seq<Seq<char>>
    decreases n,
{
    if n <= 0 {
        Seq::empty()
    } else {
        manifest_files(m, n - 1) + files_of(m.segments[n - 1])
    }
}

/// Every file that a manifest refers to, segment by segment.
pub open spec fn all_files(m: ManifestView) -> Seq<Seq<char>> {
    manifest_files(m, m.segments.len() as int) + if m.state_gen > 0 {
        seq![overlay_file(m.state_gen)]
    } else {
        Seq::empty()
    }
}

/// Every file that a manifest refers to, segment by segment.
pub fn files_to_retire(m: &Manifest) -> (r: Vec<String>)
    ensures
        views(r@) == all_files(m@),
{
    let mut r: Vec<String> = Vec::new();
    let mut i: usize = 0;
    assert(views(r@) =~= Seq::empty());
    while i < m.segments.len()
        invariant
            i <= m.segments@.len(),
            views(r@) == manifest_files(m@, i as int),
        decreases m.segments@.len() - i,
    {
        let ghost had = views(r@);
        let mut own = segment_files(&m.segments[i]);
        let ghost ov = views(own@);
        r.append(&mut own);
        assert(views(r@) =~= had + ov);
        i = i + 1;
    }
    let ghost had = views(r@);
    if m.state_gen > 0 {
        r.push(overlay_name(m.state_gen));
        assert(views(r@) =~= had + seq![overlay_file(m.state_gen)]);
    } else {
        assert(had + Seq::<Seq<char>>::empty() =~= had);
    }
    r
}

/// The generation and the first segment id of a build on top of an earlier
/// index, if there is one.
pub open spec fn starts_at(prev: Option<ManifestView>) -> (int, u32) {
    match prev {
        Some(m) => (m.generation + 1, m.next_segment_id),
        None => (1, 0),
    }
}

/// What a full build commits: the segments, which were built from document zero
/// and the next segment id of the index before it on, replace everything.
pub fn build_commit(prev: Option<&Manifest>, fs: Vec<Flushed>, now: i64) -> (c: Commit)
    requires
        prev matches Some(m) ==> m.generation < u64::MAX,
        ({
            let m = match prev {
                Some(m) => Some(m@),
                None => None,
            };
            starts_at(m).1 + fs@.len() <= u32::MAX
        }),
    ensures
        ({
            let m = match prev {
                Some(m) => Some(m@),
                None => None,
            };
            &&& c.manifest@ == (ManifestView {
                generation: starts_at(m).0 as u64,
                next_segment_id: (starts_at(m).1 + fs@.len()) as u32,
                committed_unix_nanos: now,
                state_gen: 0,
                state_crc: 0,
                state_len: 0,
                segments: entries_of(fs@),
            })
            &&& file_views(c.files@) == segment_file_list(fs@, fs@.len() as int)
            &&& views(c.retired@) == match m {
                Some(m) => all_files(m),
                None => Seq::empty(),
            }
        }),
{
    let count: usize = fs.len();
    let (generation, first, retired): (u64, u32, Vec<String>) = match prev {
        Some(m) => (m.generation + 1, m.next_segment_id, files_to_retire(m)),
        None => (1, 0, Vec::new()),
    };
    assert(prev is None ==> views(retired@) =~= Seq::empty());
    let (files, segments) = take_files(fs);
    let manifest = Manifest {
        generation,
        next_segment_id: first + count as u32,
        committed_unix_nanos: now,
        state_gen: 0,
        state_crc: 0,
        state_len: 0,
        segments,
    };
    Commit { files, manifest, retired }
}

/// The manifest of a full build is valid.
pub proof fn lemma_build_valid(
    next_id: u32,
    fs: Seq<Flushed>,
    root: Seq<char>,
    files: Seq<FileEntry>,
    cs: Seq<ContentView>,
    m: ManifestView,
)
    requires
        cover(fs, root, files, cs, 0, next_id, files.len() as int),
        files.len() <= u32::MAX,
        next_id + fs.len() <= u32::MAX,
        m.segments == entries_of(fs),
        m.next_segment_id == next_id + fs.len(),
        m.state_gen == 0,
        m.state_len == 0,
    ensures
        valid(m),
{
    let none = ManifestView { segments: Seq::empty(), next_segment_id: next_id, ..m };
    lemma_appended_valid(none, fs, root, files, cs, files.len() as int);
    assert(appended(none, fs).segments =~= m.segments);
}

} // verus!
