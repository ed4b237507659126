//! Opening a persistent index and reading it.
//!
//! The overlay's patches are applied here, once, so that every other reader
//! sees current paths and need not know of the overlay.

use vstd::layout::size_of;
use vstd::prelude::*;
use vstd::utf8::encode_utf8;

use super::segment::{
    broken, corrupt, doc_in, found, gone_indexed, lemma_opened_entry, length_text, opened, resolve,
    segment_fault, sized, under, undecoded, FileBytes, FileView, Segment, SegmentView,
};
use super::{
    cleanable, files_of, index_dir, is_cleanable, join, joined, overlay_file, overlay_name,
    referenced, referenced_files, DIR_NAME, MANIFEST,
};
use crate::crawler::CrawlStats;
use crate::error::{Error, ErrorView, Result};
use crate::format::doc::{self, TableView};
use crate::format::manifest::{self, valid, Manifest, ManifestView, SegmentEntry};
use crate::format::overlay::{self, resolved, OverlayView};
use crate::format::{format_message, FormatError, FormatErrorView};
use crate::index::doc_table::DocView;
use crate::index::reserve::{capped, has_room, product, sum_all, sum_up, text_capacity};
use crate::index::{DocId, DocMeta, IndexReader, IndexStats};
use crate::text::{is_among, views};

verus! {

/// How often open starts over before a missing file counts as lost.
pub const MAX_ATTEMPTS: u32 = 20;

/// How an index is opened.
#[derive(Debug, Clone, Copy, PartialEq, Eq, Structural)]
pub struct OpenOptions {
    /// Also check every index and document file in full. That reads every byte
    /// of the index, so it is off by default.
    pub verify: bool,
}

impl Default for OpenOptions {
    fn default() -> (o: Self)
        ensures
            !o.verify,
    {
        OpenOptions { verify: false }
    }
}

/// What reading the manifest gives: nothing where there is no usable one.
pub open spec fn manifest_read(path: Seq<char>, file: FileView) -> core::result::Result<
    Option<ManifestView>,
    ErrorView,
> {
    match file {
        FileView::Missing => Ok(None),
        FileView::Failed(why) => Err(ErrorView::Io(why)),
        FileView::Bytes(b) => match manifest::decoded(b) {
            Ok(m) => Ok(Some(m)),
            Err(FormatErrorView::Version(version)) => Err(
                ErrorView::Incompatible { path, version },
            ),
            Err(_) => Ok(None),
        },
    }
}

/// Reads the manifest of an index directory. One that is missing or fails any
/// check is no manifest; one of another format version is an error.
pub fn read_manifest(dir: &str, file: FileBytes<'_>) -> (r: Result<Option<Manifest>>)
    ensures
        ({
            let want = manifest_read(joined(dir@, MANIFEST@), file@);
            match r {
                Ok(Some(m)) => want == Ok::<_, ErrorView>(Some(m@)) && valid(m@),
                Ok(None) => want == Ok::<_, ErrorView>(None::<ManifestView>),
                Err(e) => want == Err::<Option<ManifestView>, _>(e@),
            }
        }),
{
    match file {
        FileBytes::Missing => Ok(None),
        FileBytes::Failed(why) => Err(Error::Io(why)),
        FileBytes::Bytes(b) => match Manifest::decode(b) {
            Ok(m) => {
                proof {
                    manifest::lemma_decoded_is_valid(b@);
                }
                Ok(Some(m))
            },
            Err(FormatError::Version(version)) => Err(
                Error::Incompatible { path: join(dir, MANIFEST), version },
            ),
            Err(_) => Ok(None),
        },
    }
}

/// The file may be deleted: its name is that of an index file, and the manifest
/// does not refer to it.
pub open spec fn orphaned(m: ManifestView, name: Seq<char>) -> bool {
    cleanable(name) && !referenced(m, name)
}

/// The names among the first `n` that are orphans.
pub open spec fn orphans_upto(m: ManifestView, names: Seq<Seq<char>>, n: int) -> Seq<Seq<char>>
    decreases n,
{
    if n <= 0 {
        Seq::empty()
    } else if orphaned(m, names[n - 1]) {
        orphans_upto(m, names, n - 1).push(names[n - 1])
    } else {
        orphans_upto(m, names, n - 1)
    }
}

/// The files of an index directory that the sweep at open deletes.
pub fn orphans(m: &Manifest, names: &[String]) -> (r: Vec<String>)
    ensures
        views(r@) == orphans_upto(m@, views(names@), names@.len() as int),
{
    let kept = referenced_files(m);
    let mut r: Vec<String> = Vec::new();
    let mut i: usize = 0;
    assert(views(r@) =~= Seq::empty());
    while i < names.len()
        invariant
            i <= names@.len(),
            views(r@) == orphans_upto(m@, views(names@), i as int),
            forall|n: Seq<char>| #[trigger] views(kept@).contains(n) <==> referenced(m@, n),
        decreases names@.len() - i,
    {
        let ghost had = views(r@);
        let name: &String = &names[i];
        assert(views(names@)[i as int] == name@);
        assert(views(kept@).contains(name@) <==> referenced(m@, name@));
        if is_cleanable(name.as_str()) && !is_among(&kept, name.as_str()) {
            r.push(name.clone());
            assert(views(r@) =~= had.push(name@));
        }
        i = i + 1;
    }
    r
}

/// The files of an index directory that are deleted on opening. Nothing is where
/// there is no manifest that can be read, since everything would be an orphan, nor
/// where a writer holds the lock, since its new files are referred to by none yet.
pub fn swept(m: Option<&Manifest>, locked: bool, names: &[String]) -> (r: Vec<String>)
    ensures
        views(r@) == match m {
            Some(m) if locked => orphans_upto(m@, views(names@), names@.len() as int),
            _ => Seq::<Seq<char>>::empty(),
        },
{
    match m {
        Some(m) if locked => orphans(m, names),
        _ => {
            let r: Vec<String> = Vec::new();
            assert(views(r@) =~= Seq::empty());
            r
        },
    }
}

/// Where a file that the manifest refers to was not there, open starts over
/// from a fresh manifest; after the last attempt the file counts as lost.
/// `attempts` is how many were made. `None`: try again.
pub fn after_vanished(attempts: u32, path: &str) -> (r: Option<Error>)
    ensures
        match r {
            None => attempts < 20,
            Some(e) => attempts >= 20 && e@ == (ErrorView::Corrupt {
                path: path@,
                reason: "still missing after 20 attempts to reconcile with a concurrent commit"@,
            }),
        },
{
    if attempts < MAX_ATTEMPTS {
        return None;
    }
    Some(
        corrupt(
            path,
            "still missing after 20 attempts to reconcile with a concurrent commit",
        ),
    )
}

/// One patch of the overlay.
#[derive(Debug)]
pub struct OwnedPatch {
    pub doc_id: DocId,
    pub inode: u64,
    pub mtime_nanos: i64,
    pub size: u64,
    pub path: String,
}

/// An [`OwnedPatch`] by value.
#[verifier::ext_equal]
pub ghost struct PatchView {
    pub doc_id: u32,
    pub inode: u64,
    pub mtime_nanos: i64,
    pub size: u64,
    pub path: Seq<char>,
}

impl View for OwnedPatch {
    type V = PatchView;

    open spec fn view(&self) -> PatchView {
        PatchView {
            doc_id: self.doc_id,
            inode: self.inode,
            mtime_nanos: self.mtime_nanos,
            size: self.size,
            path: self.path@,
        }
    }
}

impl Clone for OwnedPatch {
    fn clone(&self) -> (r: Self)
        ensures
            r@ == self@,
    {
        OwnedPatch {
            doc_id: self.doc_id,
            inode: self.inode,
            mtime_nanos: self.mtime_nanos,
            size: self.size,
            path: self.path.clone(),
        }
    }
}

/// The patches by value.
pub open spec fn patch_views(ps: Seq<OwnedPatch>) -> Seq<PatchView> {
    ps.map_values(|p: OwnedPatch| p@)
}

/// The patches ascend by document.
pub open spec fn patches_ascend(ps: Seq<PatchView>) -> bool {
    forall|i: int, j: int| 0 <= i < j < ps.len() ==> (#[trigger] ps[i]).doc_id < (#[trigger] ps[j]).doc_id
}

/// The patches that an overlay file holds.
pub open spec fn stored_patches(patches: Seq<overlay::Patch>, heap: Seq<u8>) -> Seq<PatchView> {
    Seq::new(
        patches.len(),
        |i: int|
            PatchView {
                doc_id: patches[i].doc_id,
                inode: patches[i].inode,
                mtime_nanos: patches[i].mtime_nanos,
                size: patches[i].size,
                path: resolved(patches, heap)[i].1,
            },
    )
}

/// The check of the overlay against the manifest.
pub open spec fn overlay_checked(
    dir: Seq<char>,
    m: ManifestView,
    file: FileView,
) -> core::result::Result<Seq<PatchView>, ErrorView> {
    let path = joined(dir, overlay_file(m.state_gen));
    if m.state_gen == 0 {
        Ok(Seq::empty())
    } else {
        match found(path, file) {
            Err(f) => Err(f),
            Ok(b) => if b.len() != m.state_len {
                broken(path, length_text(b.len(), m.state_len as nat))
            } else {
                match overlay::parsed(b) {
                    Err(f) => broken(path, format_message(f)),
                    Ok((patches, heap, crc)) => if crc != m.state_crc {
                        broken(path, "footer checksum differs from manifest"@)
                    } else {
                        Ok(stored_patches(patches, heap))
                    },
                }
            },
        }
    }
}

/// Checks the overlay against the manifest and takes its patches. `file` is
/// looked at only where the manifest has an overlay.
pub fn open_overlay(dir: &str, m: &Manifest, file: FileBytes<'_>) -> (r: Result<Vec<OwnedPatch>>)
    ensures
        match r {
            Ok(ps) => overlay_checked(dir@, m@, file@) == Ok::<_, ErrorView>(patch_views(ps@))
                && patches_ascend(patch_views(ps@)),
            Err(e) => overlay_checked(dir@, m@, file@) == Err::<Seq<PatchView>, _>(e@),
        },
{
    let mut ps: Vec<OwnedPatch> = Vec::new();
    if m.state_gen == 0 {
        assert(patch_views(ps@) =~= Seq::empty());
        return Ok(ps);
    }
    let path = join(dir, overlay_name(m.state_gen).as_str());
    let bytes = sized(path.as_str(), file, m.state_len)?;
    let view = match OverlayView::parse_verified(bytes) {
        Ok(v) => v,
        Err(e) => {
            return Err(undecoded(path.as_str(), &e));
        },
    };
    if view.crc() != m.state_crc {
        return Err(corrupt(path.as_str(), "footer checksum differs from manifest"));
    }
    let all = view.iter();
    let mut i: usize = 0;
    while i < all.len()
        invariant
            i <= all@.len(),
            all@.len() == view.patches().len(),
            forall|k: int|
                #![trigger all@[k]]
                0 <= k < all@.len() ==> resolved(view.patches(), view.heap())[k] == (
                    all@[k].0,
                    all@[k].1@,
                ),
            ps@.len() == i,
            forall|k: int|
                0 <= k < i ==> (#[trigger] ps@[k])@ == stored_patches(
                    view.patches(),
                    view.heap(),
                )[k],
        decreases all@.len() - i,
    {
        let (p, rel) = all[i];
        assert(resolved(view.patches(), view.heap())[i as int] == (p, rel@));
        ps.push(
            OwnedPatch {
                doc_id: p.doc_id,
                inode: p.inode,
                mtime_nanos: p.mtime_nanos,
                size: p.size,
                path: rel.to_string(),
            },
        );
        i = i + 1;
    }
    proof {
        view.lemma_wf();
        assert(patch_views(ps@) =~= stored_patches(view.patches(), view.heap()));
    }
    Ok(ps)
}

/// The files of one segment, as they were read.
#[derive(Debug)]
pub struct SegmentFiles<'a> {
    pub idx: FileBytes<'a>,
    pub doc: FileBytes<'a>,
    /// Looked at only where the segment has deletions.
    pub del: FileBytes<'a>,
}

/// The first `n` segments of the manifest, or what is wrong with the first that
/// is not as the manifest says.
pub open spec fn segments_opened(
    dir: Seq<char>,
    m: ManifestView,
    files: Seq<SegmentFiles<'_>>,
    verify: bool,
    n: int,
) -> core::result::Result<Seq<SegmentView>, ErrorView>
    decreases n,
{
    if n <= 0 {
        Ok(Seq::empty())
    } else {
        match segments_opened(dir, m, files, verify, n - 1) {
            Err(f) => Err(f),
            Ok(before) => match opened(
                dir,
                m.segments[n - 1],
                files[n - 1].idx@,
                files[n - 1].doc@,
                files[n - 1].del@,
                verify,
            ) {
                Err(f) => Err(f),
                Ok(s) => Ok(before.push(s)),
            },
        }
    }
}

pub proof fn lemma_open_stops(
    dir: Seq<char>,
    m: ManifestView,
    files: Seq<SegmentFiles<'_>>,
    verify: bool,
    n: int,
    k: int,
)
    requires
        0 <= n <= k,
        segments_opened(dir, m, files, verify, n) is Err,
    ensures
        segments_opened(dir, m, files, verify, k) == segments_opened(dir, m, files, verify, n),
    decreases k - n,
{
    if n < k {
        lemma_open_stops(dir, m, files, verify, n, k - 1);
    }
}

/// What an opened index holds.
#[verifier::ext_equal]
pub ghost struct IndexView {
    pub root: Seq<char>,
    pub manifest: ManifestView,
    pub segments: Seq<SegmentView>,
    pub overlay: Seq<PatchView>,
}

impl IndexView {
    /// The directory of the index.
    pub open spec fn dir(&self) -> Seq<char> {
        joined(self.root, DIR_NAME@)
    }
}

/// The index of these files, or what is wrong with the first that is not as the
/// manifest says.
pub open spec fn index_opened(
    root: Seq<char>,
    m: ManifestView,
    files: Seq<SegmentFiles<'_>>,
    overlay: FileView,
    verify: bool,
) -> core::result::Result<IndexView, ErrorView> {
    let dir = joined(root, DIR_NAME@);
    match segments_opened(dir, m, files, verify, m.segments.len() as int) {
        Err(f) => Err(f),
        Ok(segments) => match overlay_checked(dir, m, overlay) {
            Err(f) => Err(f),
            Ok(patches) => Ok(IndexView { root, manifest: m, segments, overlay: patches }),
        },
    }
}

/// The first segment from `i` on that ends behind the document `id`.
pub open spec fn first_behind(es: Seq<SegmentEntry>, id: u32, i: int) -> int
    decreases es.len() - i,
{
    if i < es.len() && es[i].end() <= id {
        first_behind(es, id, i + 1)
    } else {
        i
    }
}

/// Where the document `id` lies: its segment and its number there.
pub open spec fn place_of(es: Seq<SegmentEntry>, id: u32) -> Option<(int, u32)> {
    let i = first_behind(es, id, 0);
    if i < es.len() && es[i].base_doc <= id {
        Some((i, (id - es[i].base_doc) as u32))
    } else {
        None
    }
}

/// The patch of a document among those from `i` on.
pub open spec fn patch_for(ps: Seq<PatchView>, id: u32, i: int) -> Option<PatchView>
    decreases ps.len() - i,
{
    if i >= ps.len() {
        None
    } else if ps[i].doc_id == id {
        Some(ps[i])
    } else {
        patch_for(ps, id, i + 1)
    }
}

/// What is known of a document with the overlay applied.
pub open spec fn doc_of(v: IndexView, id: u32) -> Option<DocView> {
    match place_of(v.manifest.segments, id) {
        None => None,
        Some((i, local)) => match doc_in(v.segments[i], local, v.root) {
            None => None,
            Some(d) => match patch_for(v.overlay, id, 0) {
                None => Some(d),
                Some(p) => Some(
                    DocView {
                        path: under(v.root, p.path),
                        inode: p.inode,
                        mtime: p.mtime_nanos,
                        size: p.size,
                        ..d
                    },
                ),
            },
        },
    }
}

/// The documents of segment `i` below the local number `n`, in order.
pub open spec fn listed(v: IndexView, i: int, n: int) -> Seq<(u32, DocView)>
    decreases n,
{
    if n <= 0 {
        Seq::empty()
    } else {
        let id = (v.manifest.segments[i].base_doc + n - 1) as u32;
        match doc_of(v, id) {
            Some(d) => listed(v, i, n - 1).push((id, d)),
            None => listed(v, i, n - 1),
        }
    }
}

/// The documents of the first `k` segments, in order.
pub open spec fn listing(v: IndexView, k: int) -> Seq<(u32, DocView)>
    decreases k,
{
    if k <= 0 {
        Seq::empty()
    } else {
        listing(v, k - 1) + listed(v, k - 1, v.manifest.segments[k - 1].num_docs as int)
    }
}

/// A sum over segments.
pub open spec fn total(ss: Seq<SegmentView>, weight: spec_fn(SegmentView) -> nat) -> nat
    decreases ss.len(),
{
    if ss.len() == 0 {
        0
    } else {
        total(ss.drop_last(), weight) + weight(ss.last())
    }
}

/// The head of a segment's document file.
pub open spec fn head_of(s: SegmentView) -> TableView {
    doc::parsed(s.doc)->Ok_0
}

/// Indexed documents that are not deleted.
pub open spec fn live_docs_of(s: SegmentView) -> nat {
    let gone = gone_indexed(s, s.entry.num_docs as int);
    if head_of(s).num_indexed >= gone {
        (head_of(s).num_indexed - gone) as nat
    } else {
        0
    }
}

/// `n`, or the largest `u32`.
pub open spec fn capped32(n: nat) -> u32 {
    if n <= u32::MAX {
        n as u32
    } else {
        u32::MAX
    }
}

/// `n`, or the largest `u64`.
pub open spec fn capped64(n: nat) -> u64 {
    if n <= u64::MAX {
        n as u64
    } else {
        u64::MAX
    }
}

/// One past the highest document number, as far as it fits.
pub open spec fn bound_of(es: Seq<SegmentEntry>) -> u32 {
    if es.len() == 0 {
        0
    } else {
        capped32(es.last().end() as nat)
    }
}

/// What counting over the segments gives.
pub ghost struct Sums {
    pub live_indexed: nat,
    pub indexed: nat,
    pub len: nat,
    pub live: nat,
    pub skipped: nat,
    pub tokens: nat,
    pub postings: nat,
    pub terms: nat,
    pub disk: nat,
}

/// What counting over the segments gives.
pub open spec fn sums(ss: Seq<SegmentView>) -> Sums {
    Sums {
        live_indexed: total(ss, |s: SegmentView| live_docs_of(s)),
        indexed: total(ss, |s: SegmentView| head_of(s).num_indexed as nat),
        len: total(ss, |s: SegmentView| head_of(s).total_len as nat),
        live: total(ss, |s: SegmentView| (s.entry.num_docs - s.entry.num_deleted) as nat),
        skipped: total(ss, |s: SegmentView| (s.entry.num_docs - head_of(s).num_indexed) as nat),
        tokens: total(ss, |s: SegmentView| s.entry.num_tokens as nat),
        postings: total(ss, |s: SegmentView| s.entry.num_postings as nat),
        terms: total(ss, |s: SegmentView| s.entry.num_terms as nat),
        disk: total(ss, |s: SegmentView| s.entry.bytes_total() as nat),
    }
}

/// What is counted over the segments of an index.
#[derive(Debug, Clone, Copy)]
struct Counts {
    live_indexed: u64,
    indexed: u64,
    len: u64,
    live: u64,
    skipped: u64,
    tokens: u64,
    postings: u64,
    terms: u64,
    disk: u64,
}

impl Counts {
    closed spec fn are(&self, s: Sums) -> bool {
        &&& self.live_indexed == capped64(s.live_indexed)
        &&& self.indexed == capped64(s.indexed)
        &&& self.len == capped64(s.len)
        &&& self.live == capped64(s.live)
        &&& self.skipped == capped64(s.skipped)
        &&& self.tokens == capped64(s.tokens)
        &&& self.postings == capped64(s.postings)
        &&& self.terms == capped64(s.terms)
        &&& self.disk == capped64(s.disk)
    }
}

/// An opened index.
#[derive(Debug)]
pub struct Index<'a> {
    root: String,
    dir: String,
    manifest: Manifest,
    segments: Vec<Segment<'a>>,
    /// Ascending by document; empty where the manifest has no overlay.
    overlay: Vec<OwnedPatch>,
    stats: IndexStats,
    counts: Counts,
}

/// The segments by value.
pub open spec fn segment_views(ss: Seq<Segment<'_>>) -> Seq<SegmentView> {
    ss.map_values(|s: Segment<'_>| s@)
}

impl<'a> View for Index<'a> {
    type V = IndexView;

    closed spec fn view(&self) -> IndexView {
        IndexView {
            root: self.root@,
            manifest: self.manifest@,
            segments: segment_views(self.segments@),
            overlay: patch_views(self.overlay@),
        }
    }
}

/// The first segment behind `id` is the only one that can hold it.
pub proof fn lemma_first_behind(m: ManifestView, id: u32, i: int)
    requires
        valid(m),
        0 <= i <= m.segments.len(),
        forall|k: int| 0 <= k < i ==> (#[trigger] m.segments[k]).end() <= id,
        i < m.segments.len() ==> m.segments[i].end() > id,
    ensures
        first_behind(m.segments, id, 0) == i,
{
    lemma_first_behind_from(m.segments, id, 0, i);
}

proof fn lemma_first_behind_from(es: Seq<SegmentEntry>, id: u32, from: int, i: int)
    requires
        0 <= from <= i <= es.len(),
        forall|k: int| 0 <= k < i ==> (#[trigger] es[k]).end() <= id,
        i < es.len() ==> es[i].end() > id,
    ensures
        first_behind(es, id, from) == i,
    decreases i - from,
{
    if from < i {
        lemma_first_behind_from(es, id, from + 1, i);
    }
}

/// The segments of a valid manifest end in order.
pub proof fn lemma_ends_ascend(m: ManifestView, i: int, j: int)
    requires
        valid(m),
        0 <= i <= j < m.segments.len(),
    ensures
        m.segments[i].end() <= m.segments[j].end(),
{
    if i < j {
        manifest::lemma_segments_disjoint(m, i, j);
    }
}

/// A document that a segment holds is found there, and no other is.
pub proof fn lemma_place(m: ManifestView, id: u32, i: int, local: u32)
    requires
        valid(m),
    ensures
        place_of(m.segments, id) == Some((i, local)) <==> 0 <= i < m.segments.len() && local
            < m.segments[i].num_docs && m.segments[i].base_doc + local == id,
{
    let k = first_behind(m.segments, id, 0);
    lemma_behind(m.segments, id, 0);
    if 0 <= i < m.segments.len() && local < m.segments[i].num_docs && m.segments[i].base_doc + local
        == id {
        assert forall|j: int| 0 <= j < i implies (#[trigger] m.segments[j]).end() <= id by {
            manifest::lemma_segments_disjoint(m, j, i);
        }
        lemma_first_behind(m, id, i);
    }
}

proof fn lemma_behind(es: Seq<SegmentEntry>, id: u32, i: int)
    requires
        0 <= i <= es.len(),
    ensures
        ({
            let k = first_behind(es, id, i);
            i <= k <= es.len() && (k < es.len() ==> es[k].end() > id)
        }),
    decreases es.len() - i,
{
    if i < es.len() && es[i].end() <= id {
        lemma_behind(es, id, i + 1);
    }
}

/// Where no patch is of the document, none is found.
pub proof fn lemma_patch_absent(ps: Seq<PatchView>, id: u32, i: int)
    requires
        0 <= i,
        forall|k: int| i <= k < ps.len() ==> (#[trigger] ps[k]).doc_id != id,
    ensures
        patch_for(ps, id, i) is None,
    decreases ps.len() - i,
{
    if i < ps.len() {
        lemma_patch_absent(ps, id, i + 1);
    }
}

/// The patch of a document is found.
pub proof fn lemma_patch_found(ps: Seq<PatchView>, id: u32, i: int, k: int)
    requires
        0 <= i <= k < ps.len(),
        patches_ascend(ps),
        ps[k].doc_id == id,
    ensures
        patch_for(ps, id, i) == Some(ps[k]),
    decreases k - i,
{
    if i < k {
        lemma_patch_found(ps, id, i + 1, k);
    }
}

/// What a full check finds wrong with the segments from `i` on.
pub open spec fn index_fault(v: IndexView, i: int) -> Option<ErrorView>
    decreases v.segments.len() - i,
{
    if i >= v.segments.len() {
        None
    } else {
        match segment_fault(v.segments[i], v.dir()) {
            Some(f) => Some(f),
            None => index_fault(v, i + 1),
        }
    }
}

/// The bytes that the first `n` segments take beside their files.
pub open spec fn segment_heap(ss: Seq<SegmentView>, n: int) -> nat
    decreases n,
{
    if n <= 0 {
        0
    } else {
        segment_heap(ss, n - 1) + size_of::<SegmentEntry>() + size_of::<Segment<'static>>()
            + match ss[n - 1].del {
            Some(bits) => (bits.len() + 7) / 8,
            None => 0,
        }
    }
}

/// What may be reserved for the paths of patches.
pub open spec fn patch_room(ps: Seq<PatchView>, paths: Seq<usize>) -> bool {
    &&& paths.len() == ps.len()
    &&& forall|i: int|
        0 <= i < ps.len() ==> has_room(#[trigger] paths[i], encode_utf8(ps[i].path).len(), 1)
}

/// The bytes of an opened index beside its files, where the paths of its patches have
/// room for so many bytes.
pub open spec fn opened_heap_for(ss: Seq<SegmentView>, paths: Seq<usize>) -> int {
    let own = size_of::<Index<'static>>() + segment_heap(ss, ss.len() as int);
    capped((own + paths.len() * size_of::<OwnedPatch>() + sum_all(paths)) as int)
}

/// An opened index may account for `n` bytes: those of what may be reserved for it.
pub open spec fn opened_heap(v: IndexView, n: u64) -> bool {
    exists|paths: Seq<usize>| #[trigger]
        patch_room(v.overlay, paths) && n == opened_heap_for(v.segments, paths)
}

/// The bytes of an opened index beside its files, where the paths of its patches have
/// room for so many bytes.
pub fn opened_heap_of(segments: &[Segment<'_>], paths: &[usize]) -> (heap: usize)
    requires
        forall|k: int| #![trigger segments@[k]] 0 <= k < segments@.len() ==> segments@[k].wf(),
    ensures
        heap == opened_heap_for(segment_views(segments@), paths@),
{
    let ghost ss = segment_views(segments@);
    let ghost own = size_of::<Index<'static>>();
    let mut heap: usize = core::mem::size_of::<Index<'static>>();
    let mut j: usize = 0;
    while j < segments.len()
        invariant
            j <= segments@.len(),
            ss == segment_views(segments@),
            own == size_of::<Index<'static>>(),
            forall|k: int| #![trigger segments@[k]] 0 <= k < segments@.len() ==> segments@[k].wf(),
            heap == capped((own + segment_heap(ss, j as int)) as int),
        decreases segments@.len() - j,
    {
        assert(ss[j as int] == segments@[j as int]@);
        heap = heap.saturating_add(core::mem::size_of::<SegmentEntry>());
        heap = heap.saturating_add(segments[j].heap_bytes());
        j = j + 1;
    }
    assert(paths@.len() * size_of::<OwnedPatch>() >= 0) by (nonlinear_arith);
    heap.saturating_add(product(paths.len(), core::mem::size_of::<OwnedPatch>())).saturating_add(
        sum_up(paths),
    )
}

/// The room that the paths of patches have.
fn path_room(overlay: &Vec<OwnedPatch>) -> (paths: Vec<usize>)
    ensures
        patch_room(patch_views(overlay@), paths@),
{
    let mut paths: Vec<usize> = Vec::new();
    let mut j: usize = 0;
    while j < overlay.len()
        invariant
            j <= overlay@.len(),
            paths@.len() == j,
            forall|k: int|
                0 <= k < j ==> has_room(
                    #[trigger] paths@[k],
                    encode_utf8(overlay@[k].path@).len(),
                    1,
                ),
        decreases overlay@.len() - j,
    {
        paths.push(text_capacity(&overlay[j].path));
        j = j + 1;
    }
    paths
}

/// The statistics are those of the index, with nothing on how it was built.
pub open spec fn stats_fit(s: IndexStats, v: IndexView, manifest_len: u64) -> bool {
    let n = sums(v.segments);
    &&& s.docs_total == capped32(n.live)
    &&& s.docs_indexed == capped32(n.live_indexed)
    &&& s.docs_skipped == capped32(n.skipped)
    &&& s.total_tokens == capped64(n.tokens)
    &&& s.total_postings == capped64(n.postings)
    &&& s.unique_terms == capped64(n.terms)
    &&& s.segments == v.segments.len()
    &&& s.on_disk_bytes == capped64(manifest_len as nat + v.manifest.state_len as nat + n.disk)
    &&& opened_heap(v, s.memory_bytes)
    &&& s.crawl_time == 0 && s.build_time == 0 && s.open_time == 0
    &&& s.rss_bytes is None && s.rss_delta_bytes is None
    &&& s.crawl == (CrawlStats {
        files_seen: 0,
        skipped_too_large: 0,
        skipped_binary: 0,
        errors: 0,
        indexable: 0,
        indexable_bytes: 0,
    })
}

fn low32(n: u64) -> (r: u32)
    ensures
        r == capped32(n as nat),
{
    if n <= u32::MAX as u64 {
        n as u32
    } else {
        u32::MAX
    }
}

/// Counts over opened segments.
fn count(segments: &Vec<Segment<'_>>) -> (c: Counts)
    requires
        forall|i: int|
            #![trigger segments@[i]]
            0 <= i < segments@.len() ==> segments@[i].wf() && segments@[i]@.entry.num_deleted
                <= segments@[i]@.entry.num_docs,
    ensures
        c.are(sums(segment_views(segments@))),
{
    let ghost ss = segment_views(segments@);
    let mut c = Counts {
        live_indexed: 0,
        indexed: 0,
        len: 0,
        live: 0,
        skipped: 0,
        tokens: 0,
        postings: 0,
        terms: 0,
        disk: 0,
    };
    let mut i: usize = 0;
    assert(ss.take(0).len() == 0);
    while i < segments.len()
        invariant
            forall|i: int|
                #![trigger segments@[i]]
                0 <= i < segments@.len() ==> segments@[i].wf() && segments@[i]@.entry.num_deleted
                    <= segments@[i]@.entry.num_docs,
            ss == segment_views(segments@),
            i <= segments@.len(),
            c.are(sums(ss.take(i as int))),
        decreases segments@.len() - i,
    {
        let s = &segments[i];
        let e: &SegmentEntry = s.entry();
        let live: u64 = s.live_count() as u64;
        proof {
            s.lemma_wf();
            assert(ss[i as int] == s@);
            let k = i as int;
            assert(ss.take(k + 1).drop_last() =~= ss.take(k));
            assert(ss.take(k + 1).last() == s@);
            doc::lemma_parsed_counts(s@.doc);
        }
        c.live_indexed = c.live_indexed.saturating_add(live);
        c.indexed = c.indexed.saturating_add(s.num_indexed() as u64);
        c.len = c.len.saturating_add(s.total_len());
        c.live = c.live.saturating_add((e.num_docs - e.num_deleted) as u64);
        c.skipped = c.skipped.saturating_add((e.num_docs - s.num_indexed()) as u64);
        c.tokens = c.tokens.saturating_add(e.num_tokens);
        c.postings = c.postings.saturating_add(e.num_postings);
        c.terms = c.terms.saturating_add(e.num_terms);
        c.disk = c.disk.saturating_add(
            e.idx_len.saturating_add(e.doc_len).saturating_add(e.del_len),
        );
        i = i + 1;
    }
    assert(ss.take(i as int) =~= ss);
    c
}

/// Opens the segments of a manifest.
fn open_segments<'a>(
    dir: &str,
    manifest: &Manifest,
    files: Vec<SegmentFiles<'a>>,
    verify: bool,
) -> (r: Result<Vec<Segment<'a>>>)
    requires
        valid(manifest@),
        files@.len() == manifest.segments@.len(),
    ensures
        ({
            let n = manifest@.segments.len() as int;
            let want = segments_opened(dir@, manifest@, files@, verify, n);
            match r {
                Ok(ss) => want == Ok::<_, ErrorView>(segment_views(ss@)) && ss@.len() == n
                    && forall|k: int|
                    #![trigger ss@[k]]
                    0 <= k < n ==> ss@[k].wf() && ss@[k]@.entry == manifest@.segments[k],
                Err(e) => want == Err::<Seq<SegmentView>, _>(e@),
            }
        }),
{
    let mut segments: Vec<Segment<'a>> = Vec::new();
    let ghost all = files@;
    let ghost m = manifest@;
    let ghost n = m.segments.len() as int;
    let mut left = files;
    let mut i: usize = 0;
    assert(segment_views(segments@) =~= Seq::empty());
    assert(all.skip(0) =~= all);
    assert forall|k: int| 0 <= k < n implies (#[trigger] m.segments[k]).end() <= u32::MAX + 1 by {
        manifest::lemma_entry(m, k);
    }
    while i < manifest.segments.len()
        invariant
            m == manifest@,
            n == m.segments.len(),
            forall|k: int| 0 <= k < n ==> (#[trigger] m.segments[k]).end() <= u32::MAX + 1,
            all.len() == n,
            i <= n,
            all == files@,
            left@ == all.skip(i as int),
            segments@.len() == i,
            forall|k: int|
                #![trigger segments@[k]]
                0 <= k < i ==> segments@[k].wf() && segments@[k]@.entry == m.segments[k],
            segments_opened(dir@, m, all, verify, i as int) == Ok::<_, ErrorView>(
                segment_views(segments@),
            ),
        decreases n - i,
    {
        let ghost had = segment_views(segments@);
        let f = left.remove(0);
        proof {
            assert(f == all[i as int]);
            assert(left@ =~= all.skip(i + 1));
        }
        let entry: SegmentEntry = manifest.segments[i];
        match Segment::open(dir, &entry, f.idx, f.doc, f.del, verify) {
            Ok(s) => {
                proof {
                    lemma_opened_entry(dir@, entry, f.idx@, f.doc@, f.del@, verify);
                }
                segments.push(s);
                assert(segment_views(segments@) =~= had.push(s@));
            },
            Err(e) => {
                proof {
                    lemma_open_stops(dir@, m, all, verify, i + 1, n);
                }
                return Err(e);
            },
        }
        i = i + 1;
    }
    Ok(segments)
}

impl<'a> Index<'a> {
    /// The segments are those of the manifest, which is valid, and the numbers
    /// are up to date.
    pub closed spec fn wf(&self) -> bool {
        &&& valid(self.manifest@)
        &&& self.dir@ == self@.dir()
        &&& self.segments@.len() == self.manifest.segments@.len()
        &&& forall|i: int|
            #![trigger self.segments@[i]]
            0 <= i < self.segments@.len() ==> self.segments@[i].wf() && self.segments@[i]@.entry
                == self.manifest.segments@[i]
        &&& patches_ascend(patch_views(self.overlay@))
        &&& self.counts.are(sums(self@.segments))
    }

    /// The opened segments.
    pub closed spec fn held(&self) -> Seq<Segment<'a>> {
        self.segments@
    }

    /// The statistics.
    pub closed spec fn numbers(&self) -> IndexStats {
        self.stats
    }

    /// What well-formedness says.
    pub proof fn lemma_wf(&self)
        requires
            self.wf(),
        ensures
            valid(self@.manifest),
            self@.segments.len() == self@.manifest.segments.len(),
            self.held().len() == self@.segments.len(),
            forall|i: int|
                #![trigger self.held()[i]]
                #![trigger self@.segments[i]]
                0 <= i < self@.segments.len() ==> self.held()[i].wf() && self.held()[i]@
                    == self@.segments[i] && self@.segments[i].entry == self@.manifest.segments[i],
            patches_ascend(self@.overlay),
    {
    }

    /// Opens the index that a manifest describes. `files` holds the files of
    /// its segments, one for one. Every file must be as the manifest says;
    /// one that is not there is [`Error::Vanished`], any other failure
    /// [`Error::Corrupt`]. `manifest_len` is the length of the manifest file.
    pub fn open(
        root: &str,
        manifest: Manifest,
        manifest_len: u64,
        files: Vec<SegmentFiles<'a>>,
        overlay: FileBytes<'_>,
        opts: &OpenOptions,
    ) -> (r: Result<Index<'a>>)
        requires
            valid(manifest@),
            files@.len() == manifest.segments@.len(),
        ensures
            ({
                let want = index_opened(root@, manifest@, files@, overlay@, opts.verify);
                match r {
                    Ok(x) => x.wf() && want == Ok::<_, ErrorView>(x@) && stats_fit(
                        x.numbers(),
                        x@,
                        manifest_len,
                    ),
                    Err(e) => want == Err::<IndexView, _>(e@),
                }
            }),
    {
        let dir = index_dir(root);
        let ghost m = manifest@;
        let segments = open_segments(dir.as_str(), &manifest, files, opts.verify)?;
        let overlay = open_overlay(dir.as_str(), &manifest, overlay)?;
        assert forall|k: int|
            #![trigger segments@[k]]
            0 <= k < segments@.len() implies segments@[k].wf() && segments@[k]@.entry.num_deleted
            <= segments@[k]@.entry.num_docs by {
            manifest::lemma_entry(m, k);
        }
        let c = count(&segments);
        let paths = path_room(&overlay);
        let heap: usize = opened_heap_of(segments.as_slice(), paths.as_slice());
        let mut stats = IndexStats::default();
        stats.docs_total = low32(c.live);
        stats.docs_indexed = low32(c.live_indexed);
        stats.docs_skipped = low32(c.skipped);
        stats.total_tokens = c.tokens;
        stats.total_postings = c.postings;
        stats.unique_terms = c.terms;
        stats.segments = segments.len() as u32;
        stats.memory_bytes = heap as u64;
        stats.on_disk_bytes = manifest_len.saturating_add(manifest.state_len).saturating_add(c.disk);
        let x = Index {
            root: root.to_string(),
            dir,
            manifest,
            segments,
            overlay,
            stats,
            counts: c,
        };
        assert(patch_room(x@.overlay, paths@));
        Ok(x)
    }

    /// The indexed root.
    pub fn root(&self) -> (r: &str)
        ensures
            r@ == self@.root,
    {
        self.root.as_str()
    }

    /// The directory of the index.
    pub fn dir(&self) -> (r: &str)
        requires
            self.wf(),
        ensures
            r@ == self@.dir(),
    {
        self.dir.as_str()
    }

    /// The manifest.
    pub fn manifest(&self) -> (m: &Manifest)
        ensures
            m@ == self@.manifest,
    {
        &self.manifest
    }

    /// The segments.
    pub fn segment_list(&self) -> (r: &Vec<Segment<'a>>)
        requires
            self.wf(),
        ensures
            r@ == self.held(),
    {
        &self.segments
    }

    /// The statistics.
    pub fn stats(&self) -> (s: &IndexStats)
        ensures
            *s == self.numbers(),
    {
        &self.stats
    }

    /// The current patches of the overlay.
    pub fn overlay_patches(&self) -> (r: &Vec<OwnedPatch>)
        requires
            self.wf(),
        ensures
            patch_views(r@) == self@.overlay,
    {
        &self.overlay
    }

    /// The document table.
    pub fn docs<'s>(&'s self) -> (d: Docs<'s, 'a>)
        requires
            self.wf(),
        ensures
            d.index == self,
    {
        Docs { index: self }
    }

    /// Every file that the manifest refers to, and the manifest.
    pub fn files(&self) -> (v: Vec<String>)
        requires
            self.wf(),
        ensures
            views(v@) == index_files(self@),
    {
        let mut v: Vec<String> = Vec::new();
        let mut i: usize = 0;
        assert(views(v@) =~= Seq::empty());
        while i < self.segments.len()
            invariant
                self.wf(),
                i <= self.segments@.len(),
                views(v@) == segment_paths(self@, i as int),
            decreases self.segments@.len() - i,
        {
            let ghost had = views(v@);
            let mut own = self.segments[i].files(self.dir.as_str());
            let ghost extra = views(own@);
            v.append(&mut own);
            proof {
                assert(views(v@) =~= had + extra);
                assert(self@.segments[i as int] == self.segments@[i as int]@);
            }
            i = i + 1;
        }
        let ghost had = views(v@);
        if self.manifest.state_gen > 0 {
            v.push(join(self.dir.as_str(), overlay_name(self.manifest.state_gen).as_str()));
            assert(views(v@) =~= had.push(joined(self@.dir(), overlay_file(self.manifest.state_gen))));
        }
        let ghost had = views(v@);
        v.push(join(self.dir.as_str(), MANIFEST));
        assert(views(v@) =~= had.push(joined(self@.dir(), MANIFEST@)));
        v
    }

    /// The segment that holds a document, and its number there. `None` for gaps.
    pub fn locate_at(&self, id: DocId) -> (r: Option<(usize, DocId)>)
        requires
            self.wf(),
        ensures
            match r {
                Some((i, local)) => place_of(self@.manifest.segments, id) == Some((i as int, local)),
                None => place_of(self@.manifest.segments, id) is None,
            },
    {
        let ghost es = self.manifest.segments@;
        let mut lo: usize = 0;
        let mut hi: usize = self.segments.len();
        while lo < hi
            invariant
                self.wf(),
                es == self.manifest.segments@,
                lo <= hi <= es.len(),
                forall|k: int| 0 <= k < lo ==> (#[trigger] es[k]).end() <= id,
                forall|k: int| hi <= k < es.len() ==> (#[trigger] es[k]).end() > id,
            decreases hi - lo,
        {
            let mid: usize = lo + (hi - lo) / 2;
            let end: u64 = self.segments[mid].entry().end_doc();
            assert(end == es[mid as int].end());
            if end <= id as u64 {
                assert forall|k: int| 0 <= k < mid + 1 implies (#[trigger] es[k]).end() <= id by {
                    lemma_ends_ascend(self.manifest@, k, mid as int);
                }
                lo = mid + 1;
            } else {
                assert forall|k: int| mid <= k < es.len() implies (#[trigger] es[k]).end()
                    > id by {
                    lemma_ends_ascend(self.manifest@, mid as int, k);
                }
                hi = mid;
            }
        }
        proof {
            lemma_first_behind(self.manifest@, id, lo as int);
        }
        if lo >= self.segments.len() {
            return None;
        }
        let base: u32 = self.segments[lo].entry().base_doc;
        if id < base {
            return None;
        }
        Some((lo, id - base))
    }

    /// The segment that holds a document, and its number there. `None` for gaps.
    pub fn locate(&self, id: DocId) -> (r: Option<(&Segment<'a>, DocId)>)
        requires
            self.wf(),
        ensures
            match (r, place_of(self@.manifest.segments, id)) {
                (Some((s, at)), Some((i, local))) => *s == self.held()[i] && at == local,
                (None, None) => true,
                _ => false,
            },
    {
        match self.locate_at(id) {
            None => None,
            Some((i, local)) => {
                proof {
                    lemma_place(self.manifest@, id, i as int, local);
                }
                Some((&self.segments[i], local))
            },
        }
    }

    fn overlay_patch(&self, id: DocId) -> (r: Option<&OwnedPatch>)
        requires
            self.wf(),
        ensures
            match r {
                Some(p) => patch_for(self@.overlay, id, 0) == Some(p@),
                None => patch_for(self@.overlay, id, 0) is None,
            },
    {
        let ghost ps = patch_views(self.overlay@);
        let mut lo: usize = 0;
        let mut hi: usize = self.overlay.len();
        while lo < hi
            invariant
                self.wf(),
                ps == patch_views(self.overlay@),
                patches_ascend(ps),
                lo <= hi <= ps.len(),
                forall|k: int| 0 <= k < lo ==> (#[trigger] ps[k]).doc_id < id,
                forall|k: int| hi <= k < ps.len() ==> (#[trigger] ps[k]).doc_id > id,
            decreases hi - lo,
        {
            let mid: usize = lo + (hi - lo) / 2;
            let p = &self.overlay[mid];
            assert(ps[mid as int] == p@);
            if p.doc_id == id {
                proof {
                    lemma_patch_found(ps, id, 0, mid as int);
                }
                return Some(p);
            } else if p.doc_id < id {
                lo = mid + 1;
            } else {
                hi = mid;
            }
        }
        proof {
            lemma_patch_absent(ps, id, 0);
        }
        None
    }

    /// Full check of every segment.
    pub fn verify(&self) -> (r: Result<()>)
        requires
            self.wf(),
        ensures
            match r {
                Ok(_) => index_fault(self@, 0) is None,
                Err(e) => index_fault(self@, 0) == Some(e@),
            },
    {
        let mut i: usize = 0;
        while i < self.segments.len()
            invariant
                self.wf(),
                i <= self.segments@.len(),
                index_fault(self@, 0) == index_fault(self@, i as int),
            decreases self.segments@.len() - i,
        {
            assert(self@.segments[i as int] == self.segments@[i as int]@);
            self.segments[i].verify(self.dir.as_str())?;
            i = i + 1;
        }
        Ok(())
    }
}

/// The files of the first `n` segments.
pub open spec fn segment_paths(v: IndexView, n: int) -> Seq<Seq<char>>
    decreases n,
{
    if n <= 0 {
        Seq::empty()
    } else {
        segment_paths(v, n - 1) + files_of(v.segments[n - 1].entry).map_values(
            |name: Seq<char>| joined(v.dir(), name),
        )
    }
}

/// Every file that the manifest refers to, and the manifest.
pub open spec fn index_files(v: IndexView) -> Seq<Seq<char>> {
    let own = segment_paths(v, v.segments.len() as int);
    let own = if v.manifest.state_gen > 0 {
        own.push(joined(v.dir(), overlay_file(v.manifest.state_gen)))
    } else {
        own
    };
    own.push(joined(v.dir(), MANIFEST@))
}

impl<'s, 'a> IndexReader for &'s Index<'a> {
    type Segment = &'s Segment<'a>;

    open spec fn wf(&self) -> bool {
        (**self).wf()
    }

    open spec fn parts(&self) -> Seq<&'s Segment<'a>> {
        Seq::new((**self).held().len(), |i: int| &(**self).held()[i])
    }

    open spec fn live(&self) -> u32 {
        capped32(sums((**self)@.segments).live_indexed)
    }

    open spec fn mean(&self) -> (u64, u64) {
        let n = sums((**self)@.segments);
        (capped64(n.len), capped64(n.indexed))
    }

    open spec fn doc_at(&self, id: u32) -> Option<DocView> {
        doc_of((**self)@, id)
    }

    fn segments(&self) -> (v: Vec<&'s Segment<'a>>) {
        let ghost want = self.parts();
        let mut v: Vec<&'s Segment<'a>> = Vec::new();
        let mut i: usize = 0;
        while i < self.segments.len()
            invariant
                (**self).wf(),
                want == self.parts(),
                i <= self.segments@.len(),
                v@ == want.take(i as int),
            decreases self.segments@.len() - i,
        {
            v.push(&self.segments[i]);
            i = i + 1;
            assert(v@ =~= want.take(i as int));
        }
        assert(want.take(i as int) =~= want);
        v
    }

    fn indexed_count(&self) -> (n: u32) {
        low32(self.counts.live_indexed)
    }

    fn avg_len(&self) -> (r: (u64, u64)) {
        (self.counts.len, self.counts.indexed)
    }

    fn doc(&self, id: DocId) -> (r: Option<DocMeta>) {
        let (s, local) = match self.locate(id) {
            None => {
                return None;
            },
            Some(at) => at,
        };
        proof {
            let (i, at) = place_of((**self)@.manifest.segments, id)->Some_0;
            lemma_place((**self)@.manifest, id, i, at);
            (**self).lemma_wf();
            assert((**self).held()[i].wf());
        }
        let mut meta = match s.doc_meta(local, self.root.as_str()) {
            None => {
                return None;
            },
            Some(meta) => meta,
        };
        match self.overlay_patch(id) {
            None => {},
            Some(p) => {
                meta.inode = p.inode;
                meta.mtime = p.mtime_nanos;
                meta.size = p.size;
                meta.path = resolve(self.root.as_str(), p.path.as_str());
            },
        }
        Some(meta)
    }
}

/// The document table as one sparse table over global numbers.
#[derive(Clone, Copy)]
pub struct Docs<'s, 'a> {
    pub index: &'s Index<'a>,
}

impl<'s, 'a> Docs<'s, 'a> {
    /// Documents of any status that are not deleted.
    pub fn len(&self) -> (n: u64)
        requires
            self.index.wf(),
        ensures
            n == capped64(sums(self.index@.segments).live),
    {
        self.index.counts.live
    }

    /// There is no document that is not deleted.
    pub fn is_empty(&self) -> (r: bool)
        requires
            self.index.wf(),
        ensures
            r == (sums(self.index@.segments).live == 0),
    {
        self.index.counts.live == 0
    }

    /// One past the highest number; any below it may be a gap.
    pub fn id_bound(&self) -> (n: DocId)
        requires
            self.index.wf(),
        ensures
            n == bound_of(self.index@.manifest.segments),
    {
        let n: usize = self.index.segments.len();
        if n == 0 {
            return 0;
        }
        low32(self.index.manifest.segments[n - 1].end_doc())
    }

    /// Indexed documents that are not deleted.
    pub fn indexed_count(&self) -> (n: u32)
        requires
            self.index.wf(),
        ensures
            n == capped32(sums(self.index@.segments).live_indexed),
    {
        low32(self.index.counts.live_indexed)
    }

    /// What is known of a document; `None` for gaps and deleted ones.
    pub fn get(&self, id: DocId) -> (r: Option<DocMeta>)
        requires
            self.index.wf(),
        ensures
            match r {
                Some(m) => doc_of(self.index@, id) == Some(m@),
                None => doc_of(self.index@, id) is None,
            },
    {
        self.index.doc(id)
    }

    /// The documents that are not deleted, in ascending order of their numbers,
    /// with the overlay applied.
    pub fn iter(&self) -> (v: Vec<(DocId, DocMeta)>)
        requires
            self.index.wf(),
        ensures
            meta_views(v@) == listing(self.index@, self.index@.segments.len() as int),
    {
        let mut v: Vec<(DocId, DocMeta)> = Vec::new();
        let ghost x = self.index@;
        let mut i: usize = 0;
        assert(meta_views(v@) =~= Seq::empty());
        while i < self.index.segments.len()
            invariant
                self.index.wf(),
                x == self.index@,
                i <= self.index.segments@.len(),
                meta_views(v@) == listing(x, i as int),
            decreases self.index.segments@.len() - i,
        {
            let base: u32 = self.index.manifest.segments[i].base_doc;
            let n: u32 = self.index.manifest.segments[i].num_docs;
            let ghost before = meta_views(v@);
            let mut local: u32 = 0;
            assert(before + listed(x, i as int, 0) =~= before);
            proof {
                manifest::lemma_entry(x.manifest, i as int);
            }
            while local < n
                invariant
                    self.index.wf(),
                    x == self.index@,
                    i < self.index.segments@.len(),
                    base == x.manifest.segments[i as int].base_doc,
                    n == x.manifest.segments[i as int].num_docs,
                    base + n <= u32::MAX + 1,
                    local <= n,
                    meta_views(v@) == before + listed(x, i as int, local as int),
                decreases n - local,
            {
                let ghost had = meta_views(v@);
                let id: u32 = base + local;
                match self.index.doc(id) {
                    Some(m) => {
                        v.push((id, m));
                        proof {
                            assert(meta_views(v@) =~= had.push((id, m@)));
                            assert(before + listed(x, i as int, local + 1) =~= had.push((id, m@)));
                        }
                    },
                    None => {},
                }
                local = local + 1;
            }
            i = i + 1;
        }
        v
    }
}

/// Documents with their numbers, by value.
pub open spec fn meta_views(ms: Seq<(u32, DocMeta)>) -> Seq<(u32, DocView)> {
    ms.map_values(|p: (u32, DocMeta)| (p.0, p.1@))
}

} // verus!
