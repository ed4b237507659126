//! An update leads to what was crawled: behind it the index knows every file with
//! the metadata it was crawled with and no other, and a search finds a file exactly
//! where its text matches.

use vstd::prelude::*;

use super::answer_laws::{
    contents_with, indexed_from, lemma_index_answers, lemma_told_is_known,
    lemma_updated_contents,
};
use super::commit::{keeps_ranges, same_range, Commit};
use super::commit_laws::{index_after, lemma_deleted_are_gone, segment_after};
use super::disk::{committed, index_in};
use super::flush::{cover, indexed_docs, placed, Flushed};
use super::flush_laws::{lemma_docs_read_back, read_back};
use super::open_laws::{built_index, is_updated, lemma_update_opens, same_documents};
use super::path_laws::{lemma_relative_is_of_names, lemma_relative_under, of_names};
use super::reader::{
    bound_of, doc_of, lemma_ends_ascend, lemma_place, listed, listing, patch_for, place_of,
    IndexView, PatchView,
};
use super::recovery_laws::{consistent, lemma_stands, stands};
use super::search_laws::{
    all_storable, atoms_fit, lemma_one_behind_the_other, owned, text_matches,
};
use super::segment::{doc_in, gone, under, Segment};
use super::sound::plan_of;
use super::state::{planned, record_of, state_of, ChangeView, FileView, StateView};
use super::state_laws::{
    lemma_converges, lemma_every_document_once, lemma_one_file_each, lemma_touched_are_on_record,
    on_record, proper_input, recorded_after, spot, spot_of, touched, touched_once, touches,
    unchanged, unreadable, Spot,
};
use super::update::{
    are_files, deletes_of, entries_of, files_to_index, last_patch, patch_over, patches_of,
    update_holds, CrawledView,
};
use super::writer::relative;
use crate::crawler::FileEntry;
use crate::format::manifest::{valid, ManifestView};
use crate::index::builder::{content_tokens, outcomes_of, shard_terms, ContentView};
use crate::index::doc_table::DocView;
use crate::index::SegmentReader;
use crate::query::exec::index_hits;
use crate::query::hits::hit;
use crate::query::parser::{Node, NodeView};

verus! {

/// Where a document is on record, and with which metadata.
pub open spec fn spot_in(root: Seq<char>, d: DocView) -> Spot {
    Spot { path: relative(root, d.path), inode: d.inode, mtime: d.mtime, size: d.size }
}

/// The index knows the document as this.
pub open spec fn knows(v: IndexView, g: u32, s: Spot) -> bool {
    doc_of(v, g) matches Some(d) && spot_in(v.root, d) == s
}

/// No two documents of the index are at the same path.
pub open spec fn paths_differ(v: IndexView) -> bool {
    forall|g: u32, h: u32, s: Spot, t: Spot|
        #![trigger knows(v, g, s), knows(v, h, t)]
        knows(v, g, s) && knows(v, h, t) && s.path == t.path ==> g == h
}

/// All documents of an index.
pub open spec fn all_docs(v: IndexView) -> Seq<(u32, DocView)> {
    listing(v, v.manifest.segments.len() as int)
}

/// What is on record of an index.
pub open spec fn state_in(v: IndexView) -> StateView {
    state_of(v.root, all_docs(v), all_docs(v).len() as int)
}

proof fn lemma_listed_docs(v: IndexView, i: int, n: int)
    requires
        valid(v.manifest),
        0 <= i < v.manifest.segments.len(),
        0 <= n <= v.manifest.segments[i].num_docs,
    ensures
        forall|x: int|
            #![trigger listed(v, i, n)[x]]
            0 <= x < listed(v, i, n).len() ==> doc_of(v, listed(v, i, n)[x].0) == Some(
                listed(v, i, n)[x].1,
            ),
        forall|g: u32|
            v.manifest.segments[i].base_doc <= g < v.manifest.segments[i].base_doc + n && (
            #[trigger] doc_of(v, g)) is Some ==> exists|x: int|
                0 <= x < listed(v, i, n).len() && (#[trigger] listed(v, i, n)[x]).0 == g,
    decreases n,
{
    if n > 0 {
        lemma_listed_docs(v, i, n - 1);
        crate::format::manifest::lemma_entry(v.manifest, i);
        let before = listed(v, i, n - 1);
        let all = listed(v, i, n);
        let id = (v.manifest.segments[i].base_doc + n - 1) as u32;
        assert forall|x: int| #![trigger all[x]] 0 <= x < all.len() implies doc_of(v, all[x].0)
            == Some(all[x].1) by {
            if x < before.len() {
                assert(all[x] == before[x]);
            }
        }
        assert forall|g: u32|
            v.manifest.segments[i].base_doc <= g < v.manifest.segments[i].base_doc + n && (
            #[trigger] doc_of(v, g)) is Some implies exists|x: int|
            0 <= x < all.len() && (#[trigger] all[x]).0 == g by {
            if g == id {
                assert(all[all.len() - 1].0 == g);
            } else {
                let x = choose|x: int| 0 <= x < before.len() && (#[trigger] before[x]).0 == g;
                assert(all[x].0 == g);
            }
        }
    }
}

proof fn lemma_listing_docs(v: IndexView, k: int)
    requires
        valid(v.manifest),
        0 <= k <= v.manifest.segments.len(),
    ensures
        forall|x: int|
            #![trigger listing(v, k)[x]]
            0 <= x < listing(v, k).len() ==> doc_of(v, listing(v, k)[x].0) == Some(
                listing(v, k)[x].1,
            ),
        forall|g: u32|
            (#[trigger] doc_of(v, g)) is Some && place_of(v.manifest.segments, g)->Some_0.0 < k
                ==> exists|x: int|
                0 <= x < listing(v, k).len() && (#[trigger] listing(v, k)[x]).0 == g,
    decreases k,
{
    if k > 0 {
        lemma_listing_docs(v, k - 1);
        let n = v.manifest.segments[k - 1].num_docs as int;
        lemma_listed_docs(v, k - 1, n);
        let before = listing(v, k - 1);
        let own = listed(v, k - 1, n);
        let all = listing(v, k);
        assert forall|x: int| #![trigger all[x]] 0 <= x < all.len() implies doc_of(v, all[x].0)
            == Some(all[x].1) by {
            if x < before.len() {
                assert(all[x] == before[x]);
            } else {
                assert(all[x] == own[x - before.len()]);
            }
        }
        assert forall|g: u32|
            (#[trigger] doc_of(v, g)) is Some && place_of(v.manifest.segments, g)->Some_0.0
                < k implies exists|x: int| 0 <= x < all.len() && (#[trigger] all[x]).0 == g by {
            let (i, l) = place_of(v.manifest.segments, g)->Some_0;
            lemma_place(v.manifest, g, i, l);
            if i == k - 1 {
                let x = choose|x: int| 0 <= x < own.len() && (#[trigger] own[x]).0 == g;
                assert(all[before.len() + x].0 == g);
            } else {
                let x = choose|x: int| 0 <= x < before.len() && (#[trigger] before[x]).0 == g;
                assert(all[x].0 == g);
            }
        }
    } else {
        assert forall|g: u32| (#[trigger] doc_of(v, g)) is Some implies place_of(
            v.manifest.segments,
            g,
        )->Some_0.0 >= 0 by {
            let (i, l) = place_of(v.manifest.segments, g)->Some_0;
            lemma_place(v.manifest, g, i, l);
        }
    }
}

proof fn lemma_state_docs(root: Seq<char>, docs: Seq<(u32, DocView)>, n: int, p: Seq<char>)
    requires
        0 <= n <= docs.len(),
    ensures
        ({
            let s = state_of(root, docs, n);
            &&& forall|x: int|
                0 <= x < n && relative(root, (#[trigger] docs[x]).1.path) == p
                    ==> s.by_path.contains_key(p)
            &&& s.by_path.contains_key(p) ==> exists|x: int|
                0 <= x < n && relative(root, (#[trigger] docs[x]).1.path) == p && s.by_path[p]
                    == record_of(docs[x].0, docs[x].1)
        }),
    decreases n,
{
    if n > 0 {
        lemma_state_docs(root, docs, n - 1, p);
        let was = state_of(root, docs, n - 1);
        let s = state_of(root, docs, n);
        let (id, d) = docs[n - 1];
        if relative(root, d.path) == p {
            assert(s.by_path[p] == record_of(docs[n - 1].0, docs[n - 1].1));
        } else if was.by_path.contains_key(p) {
            let x = choose|x: int|
                0 <= x < n - 1 && relative(root, (#[trigger] docs[x]).1.path) == p && was.by_path[p]
                    == record_of(docs[x].0, docs[x].1);
            assert(s.by_path[p] == record_of(docs[x].0, docs[x].1));
        }
    }
}

/// What is on record of an index is what it knows of its documents, by path.
pub proof fn lemma_state_in(v: IndexView, g: u32, s: Spot)
    requires
        valid(v.manifest),
        paths_differ(v),
    ensures
        knows(v, g, s) ==> state_in(v).by_path.contains_key(s.path) && state_in(v).by_path[s.path]
            == record_of(g, doc_of(v, g)->Some_0),
        state_in(v).by_path.contains_key(s.path) ==> {
            let r = state_in(v).by_path[s.path];
            &&& doc_of(v, r.doc_id) is Some
            &&& r == record_of(r.doc_id, doc_of(v, r.doc_id)->Some_0)
            &&& knows(
                v,
                r.doc_id,
                Spot { path: s.path, inode: r.inode, mtime: r.mtime_nanos, size: r.size },
            )
        },
{
    let docs = all_docs(v);
    let n = docs.len() as int;
    let prev = state_in(v);
    lemma_listing_docs(v, v.manifest.segments.len() as int);
    lemma_state_docs(v.root, docs, n, s.path);
    if knows(v, g, s) {
        let (i, l) = place_of(v.manifest.segments, g)->Some_0;
        lemma_place(v.manifest, g, i, l);
        let x = choose|x: int| 0 <= x < docs.len() && (#[trigger] docs[x]).0 == g;
        assert(doc_of(v, docs[x].0) == Some(docs[x].1));
        assert(relative(v.root, docs[x].1.path) == s.path);
    }
    if prev.by_path.contains_key(s.path) {
        let y = choose|y: int|
            0 <= y < n && relative(v.root, (#[trigger] docs[y]).1.path) == s.path
                && prev.by_path[s.path] == record_of(docs[y].0, docs[y].1);
        assert(doc_of(v, docs[y].0) == Some(docs[y].1));
        let t = spot_in(v.root, docs[y].1);
        assert(knows(v, docs[y].0, t));
        if knows(v, g, s) {
            assert(g == docs[y].0);
        }
    }
}

/// Every patch of the overlay is of a number that was given.
pub open spec fn overlay_within(v: IndexView) -> bool {
    forall|g: u32|
        (#[trigger] patch_for(v.overlay, g, 0)) is Some ==> v.manifest.segments.len() > 0 && g
            < v.manifest.segments.last().end()
}

proof fn lemma_deletes(cs: Seq<ChangeView>, n: int, id: u32)
    requires
        0 <= n <= cs.len(),
    ensures
        deletes_of(cs, n).contains(id) <==> exists|i: int|
            0 <= i < n && #[trigger] cs[i] == ChangeView::Delete(id),
    decreases n,
{
    if n > 0 {
        lemma_deletes(cs, n - 1, id);
        let before = deletes_of(cs, n - 1);
        let now = deletes_of(cs, n);
        if before.contains(id) {
            let x = choose|x: int| 0 <= x < before.len() && before[x] == id;
            assert(now[x] == id);
        }
        if cs[n - 1] == ChangeView::Delete(id) {
            assert(now[now.len() - 1] == id);
        }
        if now.contains(id) && !before.contains(id) {
            let x = choose|x: int| 0 <= x < now.len() && now[x] == id;
            if x < before.len() {
                assert(before[x] == id);
            }
            assert(cs[n - 1] == ChangeView::Delete(id));
        }
    }
}

/// The patch is what the change says.
pub open spec fn is_patch(c: ChangeView, p: PatchView) -> bool {
    c == (ChangeView::Patch {
        doc_id: p.doc_id,
        inode: p.inode,
        mtime_nanos: p.mtime_nanos,
        size: p.size,
        path: p.path,
    })
}

proof fn lemma_last_patch_prefix(ps: Seq<PatchView>, qs: Seq<PatchView>, id: u32, n: int)
    requires
        0 <= n <= ps.len(),
        n <= qs.len(),
        forall|i: int| 0 <= i < n ==> ps[i] == qs[i],
    ensures
        last_patch(ps, id, n) == last_patch(qs, id, n),
    decreases n,
{
    if n > 0 {
        lemma_last_patch_prefix(ps, qs, id, n - 1);
    }
}

proof fn lemma_patches(cs: Seq<ChangeView>, n: int, id: u32)
    requires
        0 <= n <= cs.len(),
    ensures
        match last_patch(patches_of(cs, n), id, patches_of(cs, n).len() as int) {
            Some(p) => p.doc_id == id && exists|i: int| 0 <= i < n && is_patch(#[trigger] cs[i], p),
            None => forall|i: int|
                0 <= i < n ==> !((#[trigger] cs[i]) matches ChangeView::Patch { doc_id, .. }
                    && doc_id == id),
        },
    decreases n,
{
    if n > 0 {
        lemma_patches(cs, n - 1, id);
        let before = patches_of(cs, n - 1);
        let now = patches_of(cs, n);
        lemma_last_patch_prefix(before, now, id, before.len() as int);
        match cs[n - 1] {
            ChangeView::Patch { doc_id, .. } => {
                assert(is_patch(cs[n - 1], now.last()));
                if doc_id != id && last_patch(before, id, before.len() as int) is Some {
                    let p = last_patch(before, id, before.len() as int)->Some_0;
                    let i = choose|i: int| 0 <= i < n - 1 && is_patch(#[trigger] cs[i], p);
                    assert(is_patch(cs[i], p));
                }
            },
            _ => {},
        }
    }
}

/// The number of files to index that stand before change `i`.
pub open spec fn file_number(cs: Seq<ChangeView>, root: Seq<char>, i: int) -> int {
    files_to_index(cs, root, i).len() as int
}

/// The file is the one that the change has indexed.
pub open spec fn is_file(c: ChangeView, root: Seq<char>, f: CrawledView) -> bool {
    c matches ChangeView::Reindex { path, kind, inode, mtime_nanos, size, .. } && f == (
    CrawledView { path: under(root, path), inode, mtime: mtime_nanos, size, kind })
}

proof fn lemma_file_of(cs: Seq<ChangeView>, root: Seq<char>, n: int, i: int)
    requires
        0 <= i < n <= cs.len(),
        cs[i] is Reindex,
    ensures
        0 <= file_number(cs, root, i) < files_to_index(cs, root, n).len(),
        is_file(cs[i], root, files_to_index(cs, root, n)[file_number(cs, root, i)]),
    decreases n,
{
    if i < n - 1 {
        lemma_file_of(cs, root, n - 1, i);
        let x = file_number(cs, root, i);
        assert(files_to_index(cs, root, n)[x] == files_to_index(cs, root, n - 1)[x]);
    }
}

proof fn lemma_file_from(cs: Seq<ChangeView>, root: Seq<char>, n: int, x: int) -> (i: int)
    requires
        0 <= n <= cs.len(),
        0 <= x < files_to_index(cs, root, n).len(),
    ensures
        0 <= i < n,
        cs[i] is Reindex,
        file_number(cs, root, i) == x,
    decreases n,
{
    if x < files_to_index(cs, root, n - 1).len() {
        lemma_file_from(cs, root, n - 1, x)
    } else {
        n - 1
    }
}

/// What an update makes of a document that was there.
pub open spec fn patched(root: Seq<char>, d: DocView, p: Option<PatchView>) -> DocView {
    match p {
        Some(p) => DocView {
            path: under(root, p.path),
            inode: p.inode,
            mtime: p.mtime_nanos,
            size: p.size,
            ..d
        },
        None => d,
    }
}

/// A document that was there, behind an update: gone where it is deleted, else as
/// it was, with its patch if it has one.
proof fn lemma_old_doc(
    v: IndexView,
    deletes: Seq<u32>,
    new: Seq<PatchView>,
    fs: Seq<Flushed>,
    m: ManifestView,
    w: IndexView,
    g: u32,
)
    requires
        valid(v.manifest),
        consistent(v),
        valid(m),
        is_updated(v, deletes, new, fs, m, w),
        place_of(v.manifest.segments, g) is Some || (place_of(m.segments, g) matches Some((i, l))
            && i < v.segments.len()),
    ensures
        place_of(m.segments, g) == place_of(v.manifest.segments, g),
        doc_of(w, g) == if deletes.contains(g) {
            None
        } else {
            match doc_of(v, g) {
                None => None,
                Some(d) => Some(patched(v.root, d, last_patch(new, g, new.len() as int))),
            }
        },
{
    let (i, l) = if place_of(v.manifest.segments, g) is Some {
        place_of(v.manifest.segments, g)->Some_0
    } else {
        place_of(m.segments, g)->Some_0
    };
    lemma_place(v.manifest, g, i, l);
    lemma_place(m, g, i, l);
    assert(same_documents(v.manifest.segments[i], m.segments[i]));
    lemma_deleted_are_gone(v, deletes, v.manifest, g);
    let o = index_after(v, deletes, v.manifest);
    assert(w.segments[i] == segment_after(v, deletes, i, m.segments[i]));
    assert(o.segments[i] == segment_after(v, deletes, i, v.manifest.segments[i]));
    assert(v.segments[i].entry == v.manifest.segments[i]);
    assert(gone(w.segments[i], l as int) == gone(o.segments[i], l as int));
    assert(doc_in(w.segments[i], l, v.root) == doc_in(o.segments[i], l, v.root));
    assert(patch_for(w.overlay, g, 0) == if deletes.contains(g) {
        None
    } else {
        patch_over(v.overlay, new, new.len() as int, g)
    });
    assert(doc_of(o, g) is Some ==> doc_in(o.segments[i], l, v.root) is Some);
    assert(doc_in(o.segments[i], l, v.root) is Some ==> doc_of(o, g) is Some);
}

/// An update: the index `v` before it, what was crawled and read, the segments
/// that were built of the files `es` with the contents `cs`, and the index `w`
/// behind it.
pub ghost struct Update {
    pub v: IndexView,
    pub keys: Seq<Seq<char>>,
    pub crawled: Seq<FileView>,
    pub reads: Seq<Option<Seq<u8>>>,
    pub segs: Seq<Flushed>,
    pub es: Seq<FileEntry>,
    pub cs: Seq<ContentView>,
    pub m: ManifestView,
    pub w: IndexView,
}

impl Update {
    /// The changes between what is on record and what was crawled.
    pub open spec fn plan(self) -> Seq<ChangeView> {
        planned(state_in(self.v), self.keys, self.crawled, self.reads)
    }

    /// The number of the first new document.
    pub open spec fn base(self) -> u32 {
        bound_of(self.v.manifest.segments)
    }

    /// The documents that the changes delete.
    pub open spec fn deletes(self) -> Seq<u32> {
        deletes_of(self.plan(), self.plan().len() as int)
    }

    /// The patches that the changes lay over the overlay.
    pub open spec fn patches(self) -> Seq<PatchView> {
        patches_of(self.plan(), self.plan().len() as int)
    }

    /// The files that the changes have indexed.
    pub open spec fn files(self) -> Seq<CrawledView> {
        files_to_index(self.plan(), self.v.root, self.plan().len() as int)
    }

    /// The new files were indexed, one segment behind the other.
    pub open spec fn builds(self) -> bool {
        &&& are_files(self.es, self.files())
        &&& cover(
            self.segs,
            self.v.root,
            self.es,
            self.cs,
            self.base(),
            self.v.manifest.next_segment_id,
            self.es.len() as int,
        )
        &&& self.es.len() == self.cs.len()
        &&& self.base() + self.es.len() <= u32::MAX
    }

    /// The keys are those on record, each once; no path was crawled twice, and each
    /// is made of names.
    pub open spec fn compares(self) -> bool {
        &&& self.keys.no_duplicates()
        &&& forall|p: Seq<char>| #[trigger]
            self.keys.contains(p) <==> state_in(self.v).by_path.contains_key(p)
        &&& forall|i: int, j: int|
            #![trigger self.crawled[i], self.crawled[j]]
            0 <= i < j < self.crawled.len() ==> self.crawled[i].path != self.crawled[j].path
        &&& forall|i: int|
            0 <= i < self.crawled.len() ==> of_names((#[trigger] self.crawled[i]).path)
    }

    /// The update was carried out.
    pub open spec fn done(self) -> bool {
        &&& valid(self.v.manifest)
        &&& consistent(self.v)
        &&& paths_differ(self.v)
        &&& overlay_within(self.v)
        &&& self.compares()
        &&& self.builds()
        &&& valid(self.m)
        &&& is_updated(self.v, self.deletes(), self.patches(), self.segs, self.m, self.w)
    }
}

/// What is on record has a document for each path.
proof fn lemma_proper(u: Update)
    requires
        valid(u.v.manifest),
        paths_differ(u.v),
        u.compares(),
    ensures
        proper_input(state_in(u.v), u.keys, u.crawled),
        forall|doc: u32| #[trigger] on_record(state_in(u.v), doc) ==> doc_of(u.v, doc) is Some,
{
    let prev = state_in(u.v);
    assert forall|p: Seq<char>, q: Seq<char>|
        #![trigger prev.by_path[p], prev.by_path[q]]
        prev.by_path.contains_key(p) && prev.by_path.contains_key(q) && p
            != q implies prev.by_path[p].doc_id != prev.by_path[q].doc_id by {
        lemma_state_in(u.v, 0, Spot { path: p, inode: 0, mtime: 0, size: 0 });
        lemma_state_in(u.v, 0, Spot { path: q, inode: 0, mtime: 0, size: 0 });
    }
    assert forall|doc: u32| #[trigger] on_record(prev, doc) implies doc_of(u.v, doc) is Some by {
        let p = choose|p: Seq<char>|
            prev.by_path.contains_key(p) && (#[trigger] prev.by_path[p]).doc_id == doc;
        lemma_state_in(u.v, 0, Spot { path: p, inode: 0, mtime: 0, size: 0 });
    }
}

/// A document that is patched or deleted is one that was there.
proof fn lemma_touched_was_there(u: Update, i: int)
    requires
        u.done(),
        0 <= i < u.plan().len(),
        touched(u.plan()[i]) is Some,
    ensures
        doc_of(u.v, touched(u.plan()[i])->Some_0) is Some,
{
    lemma_proper(u);
    lemma_touched_are_on_record(state_in(u.v), u.keys, u.crawled, u.reads, i);
}

/// A new document behind an update is its file as it was crawled.
proof fn lemma_new_doc(u: Update, k: int, l: u32)
    requires
        u.done(),
        0 <= k < u.segs.len(),
        l < u.segs[k].entry.num_docs,
    ensures
        ({
            let g = (u.segs[k].entry.base_doc + l) as u32;
            let f = u.es[g - u.base()];
            &&& u.base() <= g < u.base() + u.es.len()
            &&& place_of(u.m.segments, g) == Some((u.v.segments.len() + k, l))
            &&& knows(
                u.w,
                g,
                Spot {
                    path: relative(u.v.root, f.path@),
                    inode: f.inode,
                    mtime: f.mtime,
                    size: f.size,
                },
            )
        }),
{
    let f = u.segs[k];
    let n = u.v.segments.len() as int;
    let root = u.v.root;
    assert(placed(
        u.segs,
        root,
        u.es,
        u.cs,
        u.base(),
        u.v.manifest.next_segment_id,
        k,
    ));
    let a = f.entry.base_doc - u.base();
    let b = a + f.entry.num_docs;
    let g = (f.entry.base_doc + l) as u32;
    let part = u.cs.subrange(a, b);
    let own = u.es.subrange(a, b);
    assert(f.doc@.len() == f.doc.len());
    lemma_docs_read_back(
        f,
        (u.v.manifest.next_segment_id + k) as u32,
        f.entry.base_doc,
        shard_terms(f.entry.base_doc as int, part, b - a),
        indexed_docs(own, outcomes_of(part)),
        root,
        root,
        l,
    );
    assert(own[l as int] == u.es[g - u.base()]);
    assert(u.m.segments[n + k] == f.entry);
    assert(u.w.segments[n + k] == read_back(f));
    lemma_place(u.m, g, n + k, l);
    lemma_relative_is_of_names(root, u.es[g - u.base()].path@);
    lemma_relative_under(root, relative(root, u.es[g - u.base()].path@));
    lemma_no_patch(u, g);
}

/// No patch is of a new document.
proof fn lemma_no_patch(u: Update, g: u32)
    requires
        u.done(),
        u.base() <= g < u.base() + u.es.len(),
    ensures
        patch_for(u.w.overlay, g, 0) is None,
{
    let es = u.v.manifest.segments;
    let n = u.plan().len() as int;
    if place_of(es, g) is Some {
        let (i, l) = place_of(es, g)->Some_0;
        lemma_place(u.v.manifest, g, i, l);
        lemma_ends_ascend(u.v.manifest, i, es.len() - 1);
    }
    lemma_patches(u.plan(), n, g);
    if last_patch(u.patches(), g, u.patches().len() as int) is Some {
        let p = last_patch(u.patches(), g, u.patches().len() as int)->Some_0;
        let i = choose|i: int| 0 <= i < n && is_patch(#[trigger] u.plan()[i], p);
        lemma_touched_was_there(u, i);
    }
    assert(patch_for(u.v.overlay, g, 0) is None);
    assert(patch_for(u.w.overlay, g, 0) == if u.deletes().contains(g) {
        None
    } else {
        patch_over(u.v.overlay, u.patches(), u.patches().len() as int, g)
    });
}

/// Behind the update the document is what the change puts at the spot: the patched
/// one, or the one of the file that is indexed.
pub open spec fn comes_from(u: Update, g: u32, i: int, s: Spot) -> bool {
    &&& 0 <= i < u.plan().len()
    &&& spot(u.plan()[i]) == Some(s)
    &&& match u.plan()[i] {
        ChangeView::Patch { doc_id, .. } => doc_id == g && doc_of(u.v, g) is Some,
        ChangeView::Reindex { .. } => g == u.base() + file_number(u.plan(), u.v.root, i),
        ChangeView::Delete(_) => false,
    }
}

/// What a change puts somewhere is at a path made of names.
proof fn lemma_change_path(u: Update, i: int, s: Spot)
    requires
        u.done(),
        0 <= i < u.plan().len(),
        spot(u.plan()[i]) == Some(s),
    ensures
        of_names(s.path),
{
    lemma_proper(u);
    lemma_one_file_each(state_in(u.v), u.keys, u.crawled, u.reads, i, s);
    let k = choose|k: int|
        0 <= k < u.crawled.len() && s == spot_of(#[trigger] u.crawled[k]) && !unchanged(
            state_in(u.v),
            u.crawled[k],
        );
    assert(of_names(u.crawled[k].path));
}

/// The file that a change has indexed is a document behind the update.
proof fn lemma_indexed_is_known(u: Update, i: int, s: Spot)
    requires
        u.done(),
        0 <= i < u.plan().len(),
        u.plan()[i] is Reindex,
        spot(u.plan()[i]) == Some(s),
    ensures
        ({
            let g = (u.base() + file_number(u.plan(), u.v.root, i)) as u32;
            &&& knows(u.w, g, s)
            &&& comes_from(u, g, i, s)
        }),
{
    let n = u.plan().len() as int;
    let root = u.v.root;
    let x = file_number(u.plan(), root, i);
    lemma_file_of(u.plan(), root, n, i);
    assert(is_file(u.plan()[i], root, u.files()[x]));
    assert(u.es[x].path@ == u.files()[x].path);
    lemma_change_path(u, i, s);
    lemma_relative_under(root, s.path);
    let g = (u.base() + x) as u32;
    let q = u.segs.len() as int;
    lemma_one_behind_the_other(
        u.segs,
        root,
        u.es,
        u.cs,
        u.base(),
        u.v.manifest.next_segment_id,
        q,
    );
    assert(owned(u.segs, q, g as int));
    let k = choose|k: int|
        0 <= k < q && (#[trigger] u.segs[k]).entry.base_doc <= g < u.segs[k].entry.base_doc
            + u.segs[k].entry.num_docs;
    lemma_new_doc(u, k, (g - u.segs[k].entry.base_doc) as u32);
}

/// The document that a change patches is behind the update what the patch says.
proof fn lemma_patched_is_known(u: Update, i: int, s: Spot)
    requires
        u.done(),
        0 <= i < u.plan().len(),
        u.plan()[i] is Patch,
        spot(u.plan()[i]) == Some(s),
    ensures
        ({
            let g = u.plan()[i]->Patch_doc_id;
            &&& knows(u.w, g, s)
            &&& comes_from(u, g, i, s)
        }),
{
    let n = u.plan().len() as int;
    let g = u.plan()[i]->Patch_doc_id;
    let cs = u.plan();
    lemma_touched_was_there(u, i);
    lemma_old_doc(u.v, u.deletes(), u.patches(), u.segs, u.m, u.w, g);
    lemma_deletes(cs, n, g);
    lemma_patches(cs, n, g);
    lemma_only_once(u);
    assert(!u.deletes().contains(g)) by {
        if u.deletes().contains(g) {
            let j = choose|j: int| 0 <= j < n && #[trigger] cs[j] == ChangeView::Delete(g);
            assert(touched(cs[i]) == touched(cs[j]));
        }
    }
    let p = last_patch(u.patches(), g, u.patches().len() as int)->Some_0;
    let j = choose|j: int| 0 <= j < n && is_patch(#[trigger] cs[j], p);
    assert(touched(cs[i]) == touched(cs[j]));
    assert(i == j);
    lemma_change_path(u, i, s);
    lemma_relative_under(u.v.root, s.path);
}

/// No document is dealt with twice.
proof fn lemma_only_once(u: Update)
    requires
        u.done(),
    ensures
        touched_once(u.plan()),
{
    let prev = state_in(u.v);
    lemma_proper(u);
    if u.keys.len() > 0 {
        assert(u.keys.contains(u.keys[0]));
        lemma_every_document_once(prev, u.keys, u.crawled, u.reads, u.keys[0]);
    } else {
        assert forall|i: int| 0 <= i < u.plan().len() implies touched(#[trigger] u.plan()[i]) is None by {
            if touched(u.plan()[i]) is Some {
                lemma_touched_are_on_record(prev, u.keys, u.crawled, u.reads, i);
                let doc = touched(u.plan()[i])->Some_0;
                let p = choose|p: Seq<char>|
                    prev.by_path.contains_key(p) && (#[trigger] prev.by_path[p]).doc_id == doc;
                assert(u.keys.contains(p));
            }
        }
    }
}

/// Where a document behind an update comes from: it was left alone, or a change put
/// it there.
proof fn lemma_where_from(u: Update, g: u32, s: Spot)
    requires
        u.done(),
        knows(u.w, g, s),
    ensures
        (knows(u.v, g, s) && !touches(u.plan(), g)) || exists|i: int| #[trigger]
            comes_from(u, g, i, s),
{
    let n = u.plan().len() as int;
    let cs = u.plan();
    let (i, l) = place_of(u.m.segments, g)->Some_0;
    lemma_place(u.m, g, i, l);
    if i < u.v.segments.len() {
        lemma_old_doc(u.v, u.deletes(), u.patches(), u.segs, u.m, u.w, g);
        lemma_deletes(cs, n, g);
        lemma_patches(cs, n, g);
        match last_patch(u.patches(), g, u.patches().len() as int) {
            Some(p) => {
                let j = choose|j: int| 0 <= j < n && is_patch(#[trigger] cs[j], p);
                let t = spot(cs[j])->Some_0;
                lemma_change_path(u, j, t);
                lemma_relative_under(u.v.root, t.path);
                assert(comes_from(u, g, j, s));
            },
            None => {
                if touches(cs, g) {
                    let j = choose|j: int| 0 <= j < cs.len() && touched(#[trigger] cs[j]) == Some(g);
                    assert(cs[j] == ChangeView::Delete(g));
                }
            },
        }
    } else {
        let k = i - u.v.segments.len();
        assert(u.m.segments[u.v.segments.len() + k] == u.segs[k].entry);
        lemma_new_doc(u, k, l);
        let x = g - u.base();
        let j = lemma_file_from(cs, u.v.root, n, x);
        lemma_file_of(cs, u.v.root, n, j);
        assert(is_file(cs[j], u.v.root, u.files()[x]));
        assert(u.es[x].path@ == u.files()[x].path);
        let t = spot(cs[j])->Some_0;
        lemma_change_path(u, j, t);
        lemma_relative_under(u.v.root, t.path);
        assert(comes_from(u, g, j, s));
    }
}

/// A document that is left alone is behind the update what it was.
proof fn lemma_left_alone(u: Update, g: u32, s: Spot)
    requires
        u.done(),
        knows(u.v, g, s),
        !touches(u.plan(), g),
    ensures
        knows(u.w, g, s),
{
    let n = u.plan().len() as int;
    let cs = u.plan();
    lemma_old_doc(u.v, u.deletes(), u.patches(), u.segs, u.m, u.w, g);
    lemma_deletes(cs, n, g);
    lemma_patches(cs, n, g);
    if u.deletes().contains(g) {
        let j = choose|j: int| 0 <= j < n && #[trigger] cs[j] == ChangeView::Delete(g);
        assert(touched(cs[j]) == Some(g));
    }
    if last_patch(u.patches(), g, u.patches().len() as int) is Some {
        let p = last_patch(u.patches(), g, u.patches().len() as int)->Some_0;
        let j = choose|j: int| 0 <= j < n && is_patch(#[trigger] cs[j], p);
        assert(touched(cs[j]) == Some(g));
    }
}

/// The file was crawled, and can be put on record.
pub open spec fn crawled_as(u: Update, k: int, s: Spot) -> bool {
    &&& 0 <= k < u.crawled.len()
    &&& s == spot_of(u.crawled[k])
    &&& !unreadable(state_in(u.v), u.crawled[k], u.reads[k])
}

/// One of the crawled files is this, and can be put on record.
pub open spec fn was_crawled(u: Update, s: Spot) -> bool {
    exists|k: int| #[trigger] crawled_as(u, k, s)
}

/// The index knows a document as this.
pub open spec fn in_index(v: IndexView, s: Spot) -> bool {
    exists|g: u32| #[trigger] knows(v, g, s)
}

/// Behind an update the index knows exactly what was crawled: each file at its path
/// with the metadata it was crawled with, and nothing else. A known file whose
/// content had to be compared and could not be read is left out.
pub proof fn lemma_update_knows_what_was_crawled(u: Update, s: Spot)
    requires
        u.done(),
    ensures
        in_index(u.w, s) <==> was_crawled(u, s),
{
    let prev = state_in(u.v);
    let cs = u.plan();
    lemma_proper(u);
    lemma_converges(prev, u.keys, u.crawled, u.reads, s);
    if in_index(u.w, s) {
        let g = choose|g: u32| #[trigger] knows(u.w, g, s);
        lemma_where_from(u, g, s);
        if knows(u.v, g, s) && !touches(cs, g) {
            lemma_state_in(u.v, g, s);
        } else {
            let i = choose|i: int| #[trigger] comes_from(u, g, i, s);
            assert(spot(cs[i]) == Some(s));
        }
        assert(recorded_after(prev, cs, s));
        let k = choose|k: int|
            0 <= k < u.crawled.len() && s == spot_of(#[trigger] u.crawled[k]) && !unreadable(
                prev,
                u.crawled[k],
                u.reads[k],
            );
        assert(crawled_as(u, k, s));
    }
    if was_crawled(u, s) {
        let k = choose|k: int| #[trigger] crawled_as(u, k, s);
        assert(s == spot_of(u.crawled[k]));
        assert(recorded_after(prev, cs, s));
        if exists|i: int| 0 <= i < cs.len() && spot(#[trigger] cs[i]) == Some(s) {
            let i = choose|i: int| 0 <= i < cs.len() && spot(#[trigger] cs[i]) == Some(s);
            match cs[i] {
                ChangeView::Patch { doc_id, .. } => {
                    lemma_patched_is_known(u, i, s);
                },
                ChangeView::Reindex { .. } => {
                    lemma_indexed_is_known(u, i, s);
                },
                ChangeView::Delete(_) => {},
            }
        } else {
            let g = prev.by_path[s.path].doc_id;
            lemma_state_in(u.v, g, s);
            lemma_left_alone(u, g, s);
        }
    }
}

/// Where there is nothing to change, and nothing is committed, the index knows exactly
/// what was crawled already.
pub proof fn lemma_no_change_is_needed(u: Update, s: Spot)
    requires
        valid(u.v.manifest),
        paths_differ(u.v),
        u.compares(),
        u.plan().len() == 0,
    ensures
        in_index(u.v, s) <==> was_crawled(u, s),
{
    let prev = state_in(u.v);
    let cs = u.plan();
    lemma_proper(u);
    lemma_converges(prev, u.keys, u.crawled, u.reads, s);
    lemma_state_in(u.v, 0, s);
    if in_index(u.v, s) {
        let g = choose|g: u32| #[trigger] knows(u.v, g, s);
        lemma_state_in(u.v, g, s);
        assert(recorded_after(prev, cs, s));
        let k = choose|k: int|
            0 <= k < u.crawled.len() && s == spot_of(#[trigger] u.crawled[k]) && !unreadable(
                prev,
                u.crawled[k],
                u.reads[k],
            );
        assert(crawled_as(u, k, s));
    }
    if was_crawled(u, s) {
        let k = choose|k: int| #[trigger] crawled_as(u, k, s);
        assert(s == spot_of(u.crawled[k]));
        assert(recorded_after(prev, cs, s));
        assert(knows(u.v, prev.by_path[s.path].doc_id, s));
    }
}

/// Behind an update no two documents are at the same path, and every patch is of a
/// number that was given.
pub proof fn lemma_update_keeps_paths_apart(u: Update)
    requires
        u.done(),
    ensures
        paths_differ(u.w),
        overlay_within(u.w),
{
    let prev = state_in(u.v);
    let cs = u.plan();
    lemma_proper(u);
    assert forall|g: u32, h: u32, s: Spot, t: Spot|
        #![trigger knows(u.w, g, s), knows(u.w, h, t)]
        knows(u.w, g, s) && knows(u.w, h, t) && s.path == t.path implies g == h by {
        lemma_where_from(u, g, s);
        lemma_where_from(u, h, t);
        let ga = knows(u.v, g, s) && !touches(cs, g);
        let ha = knows(u.v, h, t) && !touches(cs, h);
        if ga && ha {
        } else if ga {
            let j = choose|j: int| #[trigger] comes_from(u, h, j, t);
            lemma_one_file_each(prev, u.keys, u.crawled, u.reads, j, t);
            lemma_state_in(u.v, g, s);
        } else if ha {
            let i = choose|i: int| #[trigger] comes_from(u, g, i, s);
            lemma_one_file_each(prev, u.keys, u.crawled, u.reads, i, s);
            lemma_state_in(u.v, h, t);
        } else {
            let i = choose|i: int| #[trigger] comes_from(u, g, i, s);
            let j = choose|j: int| #[trigger] comes_from(u, h, j, t);
            lemma_one_file_each(prev, u.keys, u.crawled, u.reads, i, s);
            assert(spot(cs[j]) == Some(t));
            assert(i == j);
        }
    }
    assert forall|g: u32| (#[trigger] patch_for(u.w.overlay, g, 0)) is Some implies u.m.segments.len()
        > 0 && g < u.m.segments.last().end() by {
        lemma_patch_within(u, g);
    }
}

proof fn lemma_patch_within(u: Update, g: u32)
    requires
        u.done(),
        patch_for(u.w.overlay, g, 0) is Some,
    ensures
        u.m.segments.len() > 0,
        g < u.m.segments.last().end(),
{
    let es = u.v.manifest.segments;
    let n = u.plan().len() as int;
    assert(patch_for(u.w.overlay, g, 0) == if u.deletes().contains(g) {
        None
    } else {
        patch_over(u.v.overlay, u.patches(), u.patches().len() as int, g)
    });
    lemma_patches(u.plan(), n, g);
    if last_patch(u.patches(), g, u.patches().len() as int) is Some {
        let p = last_patch(u.patches(), g, u.patches().len() as int)->Some_0;
        let i = choose|i: int| 0 <= i < n && is_patch(#[trigger] u.plan()[i], p);
        lemma_touched_was_there(u, i);
        let (x, l) = place_of(es, g)->Some_0;
        lemma_place(u.v.manifest, g, x, l);
        lemma_ends_ascend(u.v.manifest, x, es.len() - 1);
    } else {
        assert(patch_for(u.v.overlay, g, 0) is Some);
    }
    let last = es.len() - 1;
    assert(same_documents(es[last], u.m.segments[last]));
    lemma_ends_ascend(u.m, last, u.m.segments.len() - 1);
}

/// The update keeps the document for the crawled file: its metadata did not change,
/// or it is patched to be the file.
pub open spec fn kept_for(u: Update, g: u32, k: int) -> bool {
    ||| knows(u.v, g, spot_of(u.crawled[k]))
    ||| exists|i: int|
        0 <= i < u.plan().len() && ((#[trigger] u.plan()[i]) matches ChangeView::Patch {
            doc_id,
            path,
            ..
        } && doc_id == g && path == u.crawled[k].path)
}

/// The crawled files hold these contents: a file that is indexed was read as it is,
/// and a document that is kept for a file, because the metadata or the hash of the
/// content agree, was indexed from the same text.
pub open spec fn hold(u: Update, of: Map<u32, ContentView>, texts: Seq<ContentView>) -> bool {
    &&& texts.len() == u.crawled.len()
    &&& forall|i: int, k: int|
        #![trigger u.plan()[i], u.crawled[k]]
        0 <= i < u.plan().len() && 0 <= k < u.crawled.len() && (
        u.plan()[i] matches ChangeView::Reindex { path, .. } && path == u.crawled[k].path)
            ==> u.cs[file_number(u.plan(), u.v.root, i)] == texts[k]
    &&& forall|g: u32, k: int|
        0 <= k < u.crawled.len() && doc_of(u.v, g) is Some && #[trigger] kept_for(u, g, k)
            ==> content_tokens(of[g]) == content_tokens(texts[k])
}

/// The content of a document behind an update is that of its file.
proof fn lemma_content_is_that_of_file(
    u: Update,
    of: Map<u32, ContentView>,
    texts: Seq<ContentView>,
    g: u32,
    k: int,
)
    requires
        u.done(),
        indexed_from(u.v, of),
        hold(u, of, texts),
        0 <= k < u.crawled.len(),
        knows(u.w, g, spot_of(u.crawled[k])),
    ensures
        content_tokens(contents_with(of, u.base(), u.cs)[g]) == content_tokens(texts[k]),
{
    let s = spot_of(u.crawled[k]);
    let n = u.plan().len() as int;
    let es = u.v.manifest.segments;
    lemma_where_from(u, g, s);
    if doc_of(u.v, g) is Some {
        let (i, l) = place_of(es, g)->Some_0;
        lemma_place(u.v.manifest, g, i, l);
        lemma_ends_ascend(u.v.manifest, i, es.len() - 1);
        assert(!(u.base() <= g < u.base() + u.cs.len()));
        lemma_told_is_known(u.v, of, g);
    }
    if knows(u.v, g, s) && !touches(u.plan(), g) {
        assert(kept_for(u, g, k));
    } else {
        let i = choose|i: int| #[trigger] comes_from(u, g, i, s);
        match u.plan()[i] {
            ChangeView::Patch { doc_id, .. } => {
                assert(kept_for(u, g, k));
            },
            ChangeView::Reindex { .. } => {
                lemma_file_of(u.plan(), u.v.root, n, i);
                assert(u.cs[file_number(u.plan(), u.v.root, i)] == texts[k]);
            },
            ChangeView::Delete(_) => {},
        }
    }
}

/// The index that is read behind an update has converged to what was crawled: it
/// knows exactly the crawled files, no two at the same path, each indexed from the
/// content it holds, so that the next update can go on from it.
pub open spec fn converged(u: Update, of: Map<u32, ContentView>, texts: Seq<ContentView>) -> bool {
    &&& u.done()
    &&& paths_differ(u.w)
    &&& overlay_within(u.w)
    &&& forall|s: Spot|
        #[trigger] in_index(u.w, s) <==> was_crawled(u, s)
    &&& indexed_from(u.w, contents_with(of, u.base(), u.cs))
    &&& forall|g: u32, k: int|
        0 <= k < u.crawled.len() && #[trigger] knows(u.w, g, spot_of(u.crawled[k]))
            ==> content_tokens(contents_with(of, u.base(), u.cs)[g]) == content_tokens(texts[k])
}

/// An update that is committed converges: the directory behind it opens to an index
/// that knows exactly what was crawled, and that answers by what the crawled files
/// hold.
pub proof fn lemma_update_converges(
    root: Seq<char>,
    files: Map<Seq<char>, Seq<u8>>,
    u: Update,
    of: Map<u32, ContentView>,
    texts: Seq<ContentView>,
    now: i64,
    c: Commit,
    verify: bool,
)
    requires
        stands(root, files, verify, u.v),
        paths_differ(u.v),
        overlay_within(u.v),
        indexed_from(u.v, of),
        u.compares(),
        u.builds(),
        atoms_fit(u.cs),
        all_storable(u.segs, u.cs, u.base()),
        u.v.manifest.next_segment_id + u.segs.len() <= u32::MAX,
        hold(u, of, texts),
        update_holds(u.v, u.deletes(), u.patches(), u.segs, now, c),
        u.m == c.manifest@,
        valid(c.manifest@),
    ensures
        index_in(root, committed(files, plan_of(c)), verify) matches Ok(Some(w)) && converged(
            Update { w, ..u },
            of,
            texts,
        ) && stands(root, committed(files, plan_of(c)), verify, w),
{
    lemma_stands(root, files, verify, u.v);
    lemma_update_opens(
        root,
        files,
        u.v,
        u.deletes(),
        u.patches(),
        u.segs,
        u.es,
        u.cs,
        now,
        c,
        verify,
    );
    let w = index_in(root, committed(files, plan_of(c)), verify)->Ok_0->Some_0;
    let x = Update { w, ..u };
    assert(x.plan() == u.plan());
    assert(x.builds());
    assert(x.compares());
    assert(x.done());
    lemma_update_keeps_paths_apart(x);
    assert forall|s: Spot|
        #[trigger] in_index(w, s) <==> was_crawled(x, s) by {
        lemma_update_knows_what_was_crawled(x, s);
    }
    lemma_updated_contents(
        x.v,
        of,
        x.deletes(),
        x.patches(),
        x.segs,
        x.es,
        x.cs,
        x.m,
        x.w,
    );
    assert(hold(x, of, texts)) by {
        assert forall|g: u32, k: int|
            0 <= k < x.crawled.len() && doc_of(x.v, g) is Some && #[trigger] kept_for(
                x,
                g,
                k,
            ) implies content_tokens(of[g]) == content_tokens(texts[k]) by {
            assert(kept_for(u, g, k));
        }
    }
    assert forall|g: u32, k: int|
        0 <= k < x.crawled.len() && #[trigger] knows(
            w,
            g,
            spot_of(x.crawled[k]),
        ) implies content_tokens(contents_with(of, x.base(), x.cs)[g]) == content_tokens(texts[k]) by {
        lemma_content_is_that_of_file(x, of, texts, g, k);
    }
}

/// The document behind the update is the crawled file `k`, whose text matches.
pub open spec fn is_match(
    u: Update,
    texts: Seq<ContentView>,
    node: NodeView,
    g: u32,
    k: int,
) -> bool {
    &&& 0 <= k < u.crawled.len()
    &&& knows(u.w, g, spot_of(u.crawled[k]))
    &&& text_matches(content_tokens(texts[k]), node)
}

/// Behind an update that has converged a search finds exactly the documents of the
/// crawled files whose text matches the query.
pub proof fn lemma_update_answers<'s, 'a>(
    parts: Seq<&'s Segment<'a>>,
    u: Update,
    of: Map<u32, ContentView>,
    texts: Seq<ContentView>,
    dfs: Map<Seq<char>, u32>,
    node: Node,
    g: u32,
)
    requires
        converged(u, of, texts),
        parts.len() == u.w.segments.len(),
        forall|x: int|
            0 <= x < parts.len() ==> (#[trigger] parts[x]).wf() && parts[x]@ == u.w.segments[x],
    ensures
        hit(index_hits(parts, dfs, node@, parts.len() as int), g) <==> exists|k: int| #[trigger]
            is_match(u, texts, node@, g, k),
{
    let after = contents_with(of, u.base(), u.cs);
    lemma_index_answers(parts, u.w, after, dfs, node, g);
    if hit(index_hits(parts, dfs, node@, parts.len() as int), g) {
        let s = spot_in(u.w.root, doc_of(u.w, g)->Some_0);
        assert(knows(u.w, g, s));
        assert(in_index(u.w, s));
        let k = choose|k: int| #[trigger] crawled_as(u, k, s);
        assert(is_match(u, texts, node@, g, k));
    }
    if exists|k: int| #[trigger] is_match(u, texts, node@, g, k) {
        let k = choose|k: int| #[trigger] is_match(u, texts, node@, g, k);
        assert(knows(u.w, g, spot_of(u.crawled[k])));
    }
}

/// Where a crawled file is put on record, and with which metadata.
pub open spec fn spot_of_file(root: Seq<char>, f: FileEntry) -> Spot {
    Spot { path: relative(root, f.path@), inode: f.inode, mtime: f.mtime, size: f.size }
}

/// Behind a full build the index knows exactly the files that were crawled: each under
/// its number, at its path below the root, with the metadata it was crawled with.
pub proof fn lemma_build_knows_what_was_crawled(
    m: ManifestView,
    fs: Seq<Flushed>,
    root: Seq<char>,
    es: Seq<FileEntry>,
    cs: Seq<ContentView>,
    next_id: u32,
    g: u32,
    s: Spot,
)
    requires
        cover(fs, root, es, cs, 0, next_id, es.len() as int),
        es.len() == cs.len() <= u32::MAX,
        valid(m),
        m.segments == entries_of(fs),
    ensures
        knows(built_index(root, fs, m), g, s) <==> g < es.len() && s == spot_of_file(
            root,
            es[g as int],
        ),
{
    let v = built_index(root, fs, m);
    let n = fs.len() as int;
    lemma_one_behind_the_other(fs, root, es, cs, 0, next_id, n);
    if place_of(m.segments, g) is Some {
        let (k, l) = place_of(m.segments, g)->Some_0;
        lemma_place(m, g, k, l);
        assert(placed(fs, root, es, cs, 0, next_id, k));
        let f = fs[k];
        let (a, b) = (f.entry.base_doc as int, f.entry.base_doc + f.entry.num_docs);
        let part = cs.subrange(a, b);
        let own = es.subrange(a, b);
        assert(f.doc@.len() == f.doc.len());
        lemma_docs_read_back(
            f,
            (next_id + k) as u32,
            f.entry.base_doc,
            shard_terms(f.entry.base_doc as int, part, b - a),
            indexed_docs(own, outcomes_of(part)),
            root,
            root,
            l,
        );
        assert(own[l as int] == es[g as int]);
        assert(v.segments[k] == read_back(f));
        lemma_relative_is_of_names(root, es[g as int].path@);
        lemma_relative_under(root, relative(root, es[g as int].path@));
    } else if g < es.len() {
        assert(owned(fs, n, g as int));
        let k = choose|k: int|
            0 <= k < n && (#[trigger] fs[k]).entry.base_doc <= g < fs[k].entry.base_doc
                + fs[k].entry.num_docs;
        lemma_place(m, g, k, (g - fs[k].entry.base_doc) as u32);
    }
}

/// Where no path was crawled twice, no two documents of a full build are at the same
/// path; it has no patches.
pub proof fn lemma_build_keeps_paths_apart(
    m: ManifestView,
    fs: Seq<Flushed>,
    root: Seq<char>,
    es: Seq<FileEntry>,
    cs: Seq<ContentView>,
    next_id: u32,
)
    requires
        cover(fs, root, es, cs, 0, next_id, es.len() as int),
        es.len() == cs.len() <= u32::MAX,
        valid(m),
        m.segments == entries_of(fs),
        forall|i: int, j: int|
            #![trigger es[i], es[j]]
            0 <= i < j < es.len() ==> relative(root, es[i].path@) != relative(root, es[j].path@),
    ensures
        paths_differ(built_index(root, fs, m)),
        overlay_within(built_index(root, fs, m)),
{
    let v = built_index(root, fs, m);
    assert forall|g: u32, h: u32, s: Spot, t: Spot|
        #![trigger knows(v, g, s), knows(v, h, t)]
        knows(v, g, s) && knows(v, h, t) && s.path == t.path implies g == h by {
        lemma_build_knows_what_was_crawled(m, fs, root, es, cs, next_id, g, s);
        lemma_build_knows_what_was_crawled(m, fs, root, es, cs, next_id, h, t);
        assert(spot_of_file(root, es[g as int]).path == spot_of_file(root, es[h as int]).path);
    }
}

/// Behind a deletion the index knows what it knew, without the deleted documents; no two
/// are at the same path, and every patch is of a number that was given.
pub proof fn lemma_deletion_keeps_the_rest(
    v: IndexView,
    deletes: Seq<u32>,
    m: ManifestView,
    g: u32,
    s: Spot,
)
    requires
        valid(v.manifest),
        consistent(v),
        keeps_ranges(v.manifest.segments, m.segments),
    ensures
        knows(index_after(v, deletes, m), g, s) <==> knows(v, g, s) && !deletes.contains(g),
        paths_differ(v) ==> paths_differ(index_after(v, deletes, m)),
        overlay_within(v) ==> overlay_within(index_after(v, deletes, m)),
{
    let w = index_after(v, deletes, m);
    lemma_deleted_are_gone(v, deletes, m, g);
    assert forall|h: u32, t: Spot| #[trigger] knows(w, h, t) implies knows(v, h, t) by {
        lemma_deleted_are_gone(v, deletes, m, h);
    }
    if v.manifest.segments.len() > 0 {
        let last = v.manifest.segments.len() - 1;
        assert(same_range(v.manifest.segments[last], m.segments[last]));
    }
}

} // verus!
