//! The recorded state of files, and the comparison of it with a fresh crawl.
//!
//! A watcher only says where to look; this says what is true. The comparison is
//! cheapest first: file metadata decides wherever it can, and a file is read only
//! where it cannot.

use std::collections::HashMap;

use vstd::hash_map::StringHashMap;
use vstd::hash_set::StringHashSet;
use vstd::prelude::*;

use super::writer::{relative, relative_path};
use crate::crawler::{CrawledFile, FileKind};
use crate::index::builder::{capped64, hash_bytes, xxh3};
use crate::index::doc_table::DocView;
use crate::index::{DocId, DocMeta, DocStatus};

verus! {

broadcast use vstd::std_specs::hash::group_hash_axioms;

/// The recorded state of one document.
#[derive(Debug, Clone, Copy, PartialEq, Eq, Structural)]
pub struct FileState {
    pub doc_id: DocId,
    pub inode: u64,
    pub mtime_nanos: i64,
    pub size: u64,
    pub content_hash: u64,
    pub status: DocStatus,
}

/// A [`StateIndex`] by value.
#[verifier::ext_equal]
pub ghost struct StateView {
    /// The state of each path.
    pub by_path: Map<Seq<char>, FileState>,
    /// The path last recorded for each inode.
    pub by_inode: Map<u64, Seq<char>>,
}

/// State by path and path by inode, over everything that the index records.
pub struct StateIndex {
    paths: Vec<String>,
    states: Vec<FileState>,
    by_path: StringHashMap<usize>,
    by_inode: HashMap<u64, usize>,
}

impl View for StateIndex {
    type V = StateView;

    closed spec fn view(&self) -> StateView {
        StateView {
            by_path: self.by_path@.map_values(|i: usize| self.states@[i as int]),
            by_inode: self.by_inode@.map_values(|i: usize| self.paths@[i as int]@),
        }
    }
}

/// The state with one more record.
pub open spec fn with_record(s: StateView, path: Seq<char>, f: FileState) -> StateView {
    StateView {
        by_path: s.by_path.insert(path, f),
        by_inode: if f.inode != 0 {
            s.by_inode.insert(f.inode, path)
        } else {
            s.by_inode
        },
    }
}

impl StateIndex {
    /// Every path is found at its place, and every place has its path.
    pub closed spec fn wf(&self) -> bool {
        &&& self.paths@.len() == self.states@.len()
        &&& forall|i: int|
            #![trigger self.paths@[i]]
            0 <= i < self.paths@.len() ==> self.by_path@.contains_key(self.paths@[i]@)
                && self.by_path@[self.paths@[i]@] == i
        &&& forall|p: Seq<char>| #[trigger]
            self.by_path@.contains_key(p) ==> self.by_path@[p] < self.paths@.len()
                && self.paths@[self.by_path@[p] as int]@ == p
        &&& forall|n: u64| #[trigger]
            self.by_inode@.contains_key(n) ==> self.by_inode@[n] < self.paths@.len()
    }

    /// The paths, each once, in the order in which they came first.
    pub closed spec fn keys(&self) -> Seq<Seq<char>> {
        Seq::new(self.paths@.len(), |i: int| self.paths@[i]@)
    }

    pub proof fn lemma_keys(&self)
        requires
            self.wf(),
        ensures
            forall|p: Seq<char>| #[trigger] self.keys().contains(p) <==> self@.by_path.contains_key(
                p,
            ),
            self.keys().no_duplicates(),
            forall|n: u64| #[trigger]
                self@.by_inode.contains_key(n) ==> self@.by_path.contains_key(self@.by_inode[n]),
    {
        let ks = self.keys();
        assert forall|i: int, j: int| 0 <= i < ks.len() && 0 <= j < ks.len() && i != j implies ks[i]
            != ks[j] by {
            assert(self.paths@[i]@ == ks[i] && self.paths@[j]@ == ks[j]);
        }
        assert forall|p: Seq<char>| #[trigger]
            ks.contains(p) <==> self@.by_path.contains_key(p) by {
            if self@.by_path.contains_key(p) {
                assert(self.by_path@.contains_key(p));
                assert(ks[self.by_path@[p] as int] == p);
            }
            if ks.contains(p) {
                let i = choose|i: int| 0 <= i < ks.len() && ks[i] == p;
                assert(self.paths@[i]@ == p);
            }
        }
        assert forall|n: u64| #[trigger] self@.by_inode.contains_key(n) implies
        self@.by_path.contains_key(self@.by_inode[n]) by {
            assert(self.by_inode@.contains_key(n));
            let i = self.by_inode@[n] as int;
            assert(self.paths@[i]@ == self@.by_inode[n]);
        }
    }

    /// No record.
    pub fn new() -> (r: Self)
        ensures
            r.wf(),
            r@ == (StateView { by_path: Map::empty(), by_inode: Map::empty() }),
            r.keys() == Seq::<Seq<char>>::empty(),
    {
        let r = StateIndex {
            paths: Vec::new(),
            states: Vec::new(),
            by_path: StringHashMap::new(),
            by_inode: HashMap::new(),
        };
        assert(r@.by_path =~= Map::empty());
        assert(r@.by_inode =~= Map::empty());
        r
    }

    /// Records the state of a path.
    pub fn insert(&mut self, path: &str, state: FileState)
        requires
            old(self).wf(),
        ensures
            final(self).wf(),
            final(self)@ == with_record(old(self)@, path@, state),
            final(self).keys() == if old(self)@.by_path.contains_key(path@) {
                old(self).keys()
            } else {
                old(self).keys().push(path@)
            },
    {
        let ghost before = *self;
        let at: usize = match self.by_path.get(path) {
            Some(i) => *i,
            None => self.paths.len(),
        };
        if at < self.paths.len() {
            self.states.set(at, state);
        } else {
            self.by_path.insert(path.to_string(), at);
            self.paths.push(path.to_string());
            self.states.push(state);
        }
        if state.inode != 0 {
            self.by_inode.insert(state.inode, at);
        }
        proof {
            let after = *self;
            assert(after.paths@[at as int]@ == path@);
            assert forall|i: int| #![trigger after.paths@[i]]
                0 <= i < after.paths@.len() implies after.by_path@.contains_key(after.paths@[i]@)
                && after.by_path@[after.paths@[i]@] == i by {
                if i < before.paths@.len() {
                    assert(after.paths@[i] == before.paths@[i]);
                }
            }
            assert forall|p: Seq<char>| #[trigger] after.by_path@.contains_key(p) implies
            after.by_path@[p] < after.paths@.len() && after.paths@[after.by_path@[p] as int]@ == p by {
                if p != path@ {
                    assert(before.by_path@.contains_key(p));
                    assert(after.paths@[before.by_path@[p] as int]
                        == before.paths@[before.by_path@[p] as int]);
                }
            }
            assert forall|p: Seq<char>| after@.by_path.contains_key(p) implies
            #[trigger] after@.by_path[p] == before@.by_path.insert(path@, state)[p] by {
                if p != path@ {
                    assert(before.by_path@.contains_key(p));
                    assert(before.by_path@[p] != at);
                }
            }
            assert(after@.by_path =~= before@.by_path.insert(path@, state));
            assert(after@.by_inode =~= with_record(before@, path@, state).by_inode) by {
                assert forall|n: u64| before.by_inode@.contains_key(n) implies
                #[trigger] after.paths@[before.by_inode@[n] as int]@
                    == before.paths@[before.by_inode@[n] as int]@ by {}
            }
            assert(after.keys() =~= if before@.by_path.contains_key(path@) {
                before.keys()
            } else {
                before.keys().push(path@)
            });
        }
    }

    /// Number of records.
    pub fn len(&self) -> (n: usize)
        ensures
            n == self.keys().len(),
    {
        self.paths.len()
    }

    /// Whether there is no record.
    pub fn is_empty(&self) -> (r: bool)
        ensures
            r == (self.keys().len() == 0),
    {
        self.paths.len() == 0
    }

    /// The state of a path.
    pub fn get(&self, rel_path: &str) -> (r: Option<&FileState>)
        requires
            self.wf(),
        ensures
            match r {
                Some(f) => self@.by_path.contains_key(rel_path@) && *f
                    == self@.by_path[rel_path@],
                None => !self@.by_path.contains_key(rel_path@),
            },
    {
        match self.by_path.get(rel_path) {
            Some(i) => {
                assert(self@.by_path.contains_key(rel_path@));
                Some(&self.states[*i])
            },
            None => None,
        }
    }

    /// The path and state last recorded for an inode.
    fn by_inode(&self, inode: u64) -> (r: Option<(&str, FileState)>)
        requires
            self.wf(),
        ensures
            match r {
                Some((p, f)) => {
                    &&& self@.by_inode.contains_key(inode)
                    &&& p@ == self@.by_inode[inode]
                    &&& self@.by_path.contains_key(p@)
                    &&& f == self@.by_path[p@]
                },
                None => !self@.by_inode.contains_key(inode),
            },
    {
        match self.by_inode.get(&inode) {
            Some(i) => {
                let p: &str = self.paths[*i].as_str();
                assert(self@.by_inode.contains_key(inode));
                assert(self.by_path@.contains_key(self.paths@[*i as int]@));
                Some((p, self.states[*i]))
            },
            None => None,
        }
    }

    /// The records of these documents, whose paths are below `root`. Of two with
    /// the same path the later counts.
    pub fn from_docs(root: &str, docs: &[(DocId, DocMeta)]) -> (r: Self)
        ensures
            r.wf(),
            r@ == state_of(root@, doc_views(docs@), docs@.len() as int),
    {
        let mut r = StateIndex::new();
        let mut i: usize = 0;
        while i < docs.len()
            invariant
                i <= docs@.len(),
                r.wf(),
                r@ == state_of(root@, doc_views(docs@), i as int),
            decreases docs@.len() - i,
        {
            let id: DocId = docs[i].0;
            let m: &DocMeta = &docs[i].1;
            let rel = relative_path(root, m.path.as_str());
            let state = FileState {
                doc_id: id,
                inode: m.inode,
                mtime_nanos: m.mtime,
                size: m.size,
                content_hash: m.content_hash,
                status: m.status,
            };
            assert(doc_views(docs@)[i as int] == (id, m@));
            r.insert(rel.as_str(), state);
            i = i + 1;
        }
        r
    }
}

impl Default for StateIndex {
    fn default() -> (r: Self)
        ensures
            r.wf(),
            r@ == (StateView { by_path: Map::empty(), by_inode: Map::empty() }),
            r.keys() == Seq::<Seq<char>>::empty(),
    {
        StateIndex::new()
    }
}

/// The documents with their numbers, by value.
pub open spec fn doc_views(docs: Seq<(DocId, DocMeta)>) -> Seq<(u32, DocView)> {
    Seq::new(docs.len(), |i: int| (docs[i].0, docs[i].1@))
}

/// The record of a document.
pub open spec fn record_of(id: u32, d: DocView) -> FileState {
    FileState {
        doc_id: id,
        inode: d.inode,
        mtime_nanos: d.mtime,
        size: d.size,
        content_hash: d.content_hash,
        status: d.status,
    }
}

/// The records of the first `n` documents.
pub open spec fn state_of(root: Seq<char>, docs: Seq<(u32, DocView)>, n: int) -> StateView
    decreases n,
{
    if n <= 0 {
        StateView { by_path: Map::empty(), by_inode: Map::empty() }
    } else {
        let (id, d) = docs[n - 1];
        with_record(state_of(root, docs, n - 1), relative(root, d.path), record_of(id, d))
    }
}

/// One unit of work on the way to the crawled state.
#[derive(Debug)]
pub enum Change {
    /// Tombstone the document: its path is gone, or its content changed.
    Delete(DocId),
    /// The same content under another path or with other metadata.
    Patch { doc_id: DocId, inode: u64, mtime_nanos: i64, size: u64, path: String },
    /// Index the file anew. `bytes` is there where it was read to decide this.
    Reindex {
        path: String,
        kind: FileKind,
        inode: u64,
        mtime_nanos: i64,
        size: u64,
        bytes: Option<Vec<u8>>,
    },
}

/// A [`Change`] by value.
pub ghost enum ChangeView {
    Delete(u32),
    Patch { doc_id: u32, inode: u64, mtime_nanos: i64, size: u64, path: Seq<char> },
    Reindex {
        path: Seq<char>,
        kind: FileKind,
        inode: u64,
        mtime_nanos: i64,
        size: u64,
        bytes: Option<Seq<u8>>,
    },
}

impl View for Change {
    type V = ChangeView;

    open spec fn view(&self) -> ChangeView {
        match self {
            Change::Delete(d) => ChangeView::Delete(*d),
            Change::Patch { doc_id, inode, mtime_nanos, size, path } => ChangeView::Patch {
                doc_id: *doc_id,
                inode: *inode,
                mtime_nanos: *mtime_nanos,
                size: *size,
                path: path@,
            },
            Change::Reindex { path, kind, inode, mtime_nanos, size, bytes } => ChangeView::Reindex {
                path: path@,
                kind: *kind,
                inode: *inode,
                mtime_nanos: *mtime_nanos,
                size: *size,
                bytes: read_view(*bytes),
            },
        }
    }
}

/// Changes by value.
pub open spec fn change_views(cs: Seq<Change>) -> Seq<ChangeView> {
    Seq::new(cs.len(), |i: int| cs[i]@)
}

/// The work that leads to the crawled state.
#[derive(Debug)]
pub struct Plan {
    pub changes: Vec<Change>,
    /// Files whose metadata was compared.
    pub files_examined: u64,
    /// Bytes read to compare content.
    pub bytes_read: u64,
}

impl Default for Plan {
    fn default() -> (p: Self)
        ensures
            p.changes@ == Seq::<Change>::empty(),
            p.files_examined == 0,
            p.bytes_read == 0,
    {
        Plan { changes: Vec::new(), files_examined: 0, bytes_read: 0 }
    }
}

/// How many of the changes are deletions, patches and reindexings.
pub open spec fn tally(cs: Seq<ChangeView>) -> (nat, nat, nat)
    decreases cs.len(),
{
    if cs.len() == 0 {
        (0, 0, 0)
    } else {
        let (d, p, r) = tally(cs.drop_last());
        match cs.last() {
            ChangeView::Delete(_) => (d + 1, p, r),
            ChangeView::Patch { .. } => (d, p + 1, r),
            ChangeView::Reindex { .. } => (d, p, r + 1),
        }
    }
}

impl Plan {
    /// Whether there is nothing to do.
    pub fn is_empty(&self) -> (r: bool)
        ensures
            r == (self.changes@.len() == 0),
    {
        self.changes.len() == 0
    }

    fn count(&self) -> (r: (usize, usize, usize))
        ensures
            r.0 == tally(change_views(self.changes@)).0,
            r.1 == tally(change_views(self.changes@)).1,
            r.2 == tally(change_views(self.changes@)).2,
    {
        let ghost cs = change_views(self.changes@);
        let mut d: usize = 0;
        let mut p: usize = 0;
        let mut r: usize = 0;
        let mut i: usize = 0;
        while i < self.changes.len()
            invariant
                i <= self.changes@.len(),
                cs == change_views(self.changes@),
                d == tally(cs.take(i as int)).0 <= i,
                p == tally(cs.take(i as int)).1 <= i,
                r == tally(cs.take(i as int)).2 <= i,
            decreases self.changes@.len() - i,
        {
            assert(cs.take(i + 1).drop_last() =~= cs.take(i as int));
            assert(cs.take(i + 1).last() == self.changes@[i as int]@);
            match &self.changes[i] {
                Change::Delete(_) => {
                    d = d + 1;
                },
                Change::Patch { .. } => {
                    p = p + 1;
                },
                Change::Reindex { .. } => {
                    r = r + 1;
                },
            }
            i = i + 1;
        }
        assert(cs.take(i as int) =~= cs);
        (d, p, r)
    }

    /// Number of deletions.
    pub fn deletes(&self) -> (n: usize)
        ensures
            n == tally(change_views(self.changes@)).0,
    {
        self.count().0
    }

    /// Number of patches.
    pub fn patches(&self) -> (n: usize)
        ensures
            n == tally(change_views(self.changes@)).1,
    {
        self.count().1
    }

    /// Number of reindexings.
    pub fn reindexes(&self) -> (n: usize)
        ensures
            n == tally(change_views(self.changes@)).2,
    {
        self.count().2
    }
}

/// A crawled file as it is compared: under its path below the root.
pub ghost struct FileView {
    pub path: Seq<char>,
    pub kind: FileKind,
    pub inode: u64,
    pub mtime: i64,
    pub size: u64,
}

/// The crawled files as they are compared.
pub open spec fn file_views(root: Seq<char>, crawled: Seq<CrawledFile>) -> Seq<FileView> {
    Seq::new(
        crawled.len(),
        |i: int|
            FileView {
                path: relative(root, crawled[i].entry.path@),
                kind: crawled[i].kind,
                inode: crawled[i].entry.inode,
                mtime: crawled[i].entry.mtime,
                size: crawled[i].entry.size,
            },
    )
}

/// The file was crawled.
pub open spec fn crawled_path(fs: Seq<FileView>, path: Seq<char>) -> bool {
    exists|i: int| 0 <= i < fs.len() && (#[trigger] fs[i]).path == path
}

/// What metadata says of a crawled file.
pub ghost enum Decision {
    /// A known path with the metadata on record.
    Keep,
    /// A known file at a new path, metadata otherwise as recorded.
    Move { prior: FileState, from: Seq<char> },
    /// Only the content can tell whether the recorded document is still right;
    /// `source` is the old path of a moved file.
    Compare { prior: FileState, source: Option<Seq<char>> },
    /// Changed, and there is no recorded content to compare with.
    Replace { prior: FileState, source: Option<Seq<char>> },
    /// A new file.
    Fresh,
}

/// The recorded path that a file at an unknown path was moved from: the one on
/// record for its inode, if that is no longer there and no other file was
/// moved from it.
pub open spec fn moved_from(
    prev: StateView,
    fs: Seq<FileView>,
    consumed: Set<Seq<char>>,
    f: FileView,
) -> Option<Seq<char>> {
    if f.inode != 0 && prev.by_inode.contains_key(f.inode) {
        let old_path = prev.by_inode[f.inode];
        if !crawled_path(fs, old_path) && !consumed.contains(old_path)
            && prev.by_path.contains_key(old_path) {
            Some(old_path)
        } else {
            None
        }
    } else {
        None
    }
}

/// The content of both the recorded and the crawled file is known text.
pub open spec fn comparable(prior: FileState, f: FileView) -> bool {
    f.kind == FileKind::Text && (prior.status == DocStatus::Indexed || prior.status
        == DocStatus::Skipped)
}

/// What metadata says of a crawled file, `consumed` being the paths that files
/// were moved from so far.
pub open spec fn decision(
    prev: StateView,
    fs: Seq<FileView>,
    consumed: Set<Seq<char>>,
    f: FileView,
) -> Decision {
    if prev.by_path.contains_key(f.path) {
        let prior = prev.by_path[f.path];
        if prior.inode == f.inode && prior.mtime_nanos == f.mtime && prior.size == f.size {
            Decision::Keep
        } else if comparable(prior, f) {
            Decision::Compare { prior, source: None }
        } else {
            Decision::Replace { prior, source: None }
        }
    } else {
        match moved_from(prev, fs, consumed, f) {
            None => Decision::Fresh,
            Some(from) => {
                let prior = prev.by_path[from];
                if prior.mtime_nanos == f.mtime && prior.size == f.size {
                    Decision::Move { prior, from }
                } else if comparable(prior, f) {
                    Decision::Compare { prior, source: Some(from) }
                } else {
                    Decision::Replace { prior, source: Some(from) }
                }
            },
        }
    }
}

/// The patch that gives a document the crawled metadata.
pub open spec fn patch_of(prior: FileState, f: FileView) -> ChangeView {
    ChangeView::Patch {
        doc_id: prior.doc_id,
        inode: f.inode,
        mtime_nanos: f.mtime,
        size: f.size,
        path: f.path,
    }
}

/// The order to index a file anew.
pub open spec fn reindex_of(f: FileView, bytes: Option<Seq<u8>>) -> ChangeView {
    ChangeView::Reindex {
        path: f.path,
        kind: f.kind,
        inode: f.inode,
        mtime_nanos: f.mtime,
        size: f.size,
        bytes,
    }
}

/// The changes that a decision asks for; `read` is what reading the file gave.
pub open spec fn changes_of(d: Decision, f: FileView, read: Option<Seq<u8>>) -> Seq<ChangeView> {
    match d {
        Decision::Keep => Seq::empty(),
        Decision::Move { prior, from } => seq![patch_of(prior, f)],
        Decision::Replace { prior, source } => seq![
            ChangeView::Delete(prior.doc_id),
            reindex_of(f, None),
        ],
        Decision::Fresh => seq![reindex_of(f, None)],
        Decision::Compare { prior, source } => match read {
            Some(b) => if xxh3(b) == prior.content_hash {
                seq![patch_of(prior, f)]
            } else {
                seq![ChangeView::Delete(prior.doc_id), reindex_of(f, Some(b))]
            },
            None => if source is Some {
                seq![reindex_of(f, None)]
            } else {
                seq![ChangeView::Delete(prior.doc_id)]
            },
        },
    }
}

/// The path that a file was moved from, once a decision was carried out.
pub open spec fn consumed_by(d: Decision, read: Option<Seq<u8>>) -> Option<Seq<char>> {
    match d {
        Decision::Move { prior, from } => Some(from),
        Decision::Replace { prior, source } => source,
        Decision::Compare { prior, source } => if read is Some {
            source
        } else {
            None
        },
        _ => None,
    }
}

/// The bytes read for a decision.
pub open spec fn read_for(d: Decision, read: Option<Seq<u8>>) -> nat {
    if d is Compare && read is Some {
        read->Some_0.len()
    } else {
        0
    }
}

/// How far the comparison has come.
#[verifier::ext_equal]
pub ghost struct Progress {
    pub changes: Seq<ChangeView>,
    pub bytes_read: nat,
    pub consumed: Set<Seq<char>>,
}

/// The comparison of the first `n` files.
pub open spec fn progress(
    prev: StateView,
    fs: Seq<FileView>,
    reads: Seq<Option<Seq<u8>>>,
    n: int,
) -> Progress
    decreases n,
{
    if n <= 0 {
        Progress { changes: Seq::empty(), bytes_read: 0, consumed: Set::empty() }
    } else {
        let p = progress(prev, fs, reads, n - 1);
        let d = decision(prev, fs, p.consumed, fs[n - 1]);
        let read = reads[n - 1];
        Progress {
            changes: p.changes + changes_of(d, fs[n - 1], read),
            bytes_read: p.bytes_read + read_for(d, read),
            consumed: match consumed_by(d, read) {
                Some(path) => p.consumed.insert(path),
                None => p.consumed,
            },
        }
    }
}

/// Deletions of the recorded paths among the first `n` that were neither crawled
/// nor moved from.
pub open spec fn leftovers(
    prev: StateView,
    keys: Seq<Seq<char>>,
    fs: Seq<FileView>,
    consumed: Set<Seq<char>>,
    n: int,
) -> Seq<ChangeView>
    decreases n,
{
    if n <= 0 {
        Seq::empty()
    } else {
        let before = leftovers(prev, keys, fs, consumed, n - 1);
        let path = keys[n - 1];
        if !crawled_path(fs, path) && !consumed.contains(path) {
            before.push(ChangeView::Delete(prev.by_path[path].doc_id))
        } else {
            before
        }
    }
}

/// All changes, the recorded paths being `keys` in order.
pub open spec fn planned(
    prev: StateView,
    keys: Seq<Seq<char>>,
    fs: Seq<FileView>,
    reads: Seq<Option<Seq<u8>>>,
) -> Seq<ChangeView> {
    let p = progress(prev, fs, reads, fs.len() as int);
    p.changes + leftovers(prev, keys, fs, p.consumed, keys.len() as int)
}

/// What was read of a file, by value.
pub open spec fn read_view(read: Option<Vec<u8>>) -> Option<Seq<u8>> {
    match read {
        Some(b) => Some(b@),
        None => None,
    }
}

/// What was read of each file, by value.
pub open spec fn read_views(reads: Seq<Option<Vec<u8>>>) -> Seq<Option<Seq<u8>>> {
    Seq::new(reads.len(), |i: int| read_view(reads[i]))
}

/// What metadata says of a crawled file.
enum Verdict {
    Keep,
    Move { prior: FileState, from: String },
    Compare { prior: FileState, source: Option<String> },
    Replace { prior: FileState, source: Option<String> },
    Fresh,
}

spec fn text_view(s: Option<String>) -> Option<Seq<char>> {
    match s {
        Some(t) => Some(t@),
        None => None,
    }
}

impl View for Verdict {
    type V = Decision;

    closed spec fn view(&self) -> Decision {
        match self {
            Verdict::Keep => Decision::Keep,
            Verdict::Move { prior, from } => Decision::Move { prior: *prior, from: from@ },
            Verdict::Compare { prior, source } => Decision::Compare {
                prior: *prior,
                source: text_view(*source),
            },
            Verdict::Replace { prior, source } => Decision::Replace {
                prior: *prior,
                source: text_view(*source),
            },
            Verdict::Fresh => Decision::Fresh,
        }
    }
}

/// The paths that were crawled.
spec fn paths_of(fs: Seq<FileView>) -> Set<Seq<char>> {
    Set::new(|p: Seq<char>| crawled_path(fs, p))
}

fn can_compare(prior: &FileState, kind: FileKind, Ghost(f): Ghost<FileView>) -> (r: bool)
    requires
        f.kind == kind,
    ensures
        r == comparable(*prior, f),
{
    kind == FileKind::Text && prior.status.was_read()
}

fn decide(
    prev: &StateIndex,
    present: &StringHashSet,
    consumed: &StringHashSet,
    rel: &str,
    file: &CrawledFile,
    Ghost(fs): Ghost<Seq<FileView>>,
    Ghost(f): Ghost<FileView>,
) -> (r: Verdict)
    requires
        prev.wf(),
        present@ == paths_of(fs),
        f == (FileView {
            path: rel@,
            kind: file.kind,
            inode: file.entry.inode,
            mtime: file.entry.mtime,
            size: file.entry.size,
        }),
    ensures
        r@ == decision(prev@, fs, consumed@, f),
{
    let e = &file.entry;
    match prev.get(rel) {
        Some(prior) => {
            if prior.inode == e.inode && prior.mtime_nanos == e.mtime && prior.size == e.size {
                Verdict::Keep
            } else if can_compare(prior, file.kind, Ghost(f)) {
                Verdict::Compare { prior: *prior, source: None }
            } else {
                Verdict::Replace { prior: *prior, source: None }
            }
        },
        None => {
            if e.inode == 0 {
                return Verdict::Fresh;
            }
            match prev.by_inode(e.inode) {
                None => Verdict::Fresh,
                Some((from, prior)) => {
                    if present.contains(from) || consumed.contains(from) {
                        Verdict::Fresh
                    } else if prior.mtime_nanos == e.mtime && prior.size == e.size {
                        Verdict::Move { prior, from: from.to_string() }
                    } else if can_compare(&prior, file.kind, Ghost(f)) {
                        Verdict::Compare { prior, source: Some(from.to_string()) }
                    } else {
                        Verdict::Replace { prior, source: Some(from.to_string()) }
                    }
                },
            }
        },
    }
}

fn patch(prior: &FileState, rel: &str, file: &CrawledFile, Ghost(f): Ghost<FileView>) -> (c: Change)
    requires
        f == (FileView {
            path: rel@,
            kind: file.kind,
            inode: file.entry.inode,
            mtime: file.entry.mtime,
            size: file.entry.size,
        }),
    ensures
        c@ == patch_of(*prior, f),
{
    Change::Patch {
        doc_id: prior.doc_id,
        inode: file.entry.inode,
        mtime_nanos: file.entry.mtime,
        size: file.entry.size,
        path: rel.to_string(),
    }
}

fn reindex(
    rel: &str,
    file: &CrawledFile,
    bytes: Option<Vec<u8>>,
    Ghost(f): Ghost<FileView>,
) -> (c: Change)
    requires
        f == (FileView {
            path: rel@,
            kind: file.kind,
            inode: file.entry.inode,
            mtime: file.entry.mtime,
            size: file.entry.size,
        }),
    ensures
        c@ == reindex_of(f, read_view(bytes)),
{
    Change::Reindex {
        path: rel.to_string(),
        kind: file.kind,
        inode: file.entry.inode,
        mtime_nanos: file.entry.mtime,
        size: file.entry.size,
        bytes,
    }
}

/// The crawled paths below the root, in order and as a set.
fn relative_paths(root: &str, crawled: &[CrawledFile]) -> (r: (Vec<String>, StringHashSet))
    ensures
        r.0@.len() == crawled@.len(),
        forall|i: int|
            #![trigger r.0@[i]]
            0 <= i < r.0@.len() ==> r.0@[i]@ == file_views(root@, crawled@)[i].path,
        r.1@ == paths_of(file_views(root@, crawled@)),
{
    let ghost fs = file_views(root@, crawled@);
    let mut rels: Vec<String> = Vec::new();
    let mut present = StringHashSet::new();
    let mut i: usize = 0;
    assert(present@ =~= paths_of(fs.take(0)));
    while i < crawled.len()
        invariant
            i <= crawled@.len(),
            fs == file_views(root@, crawled@),
            rels@.len() == i,
            forall|k: int| #![trigger rels@[k]] 0 <= k < i ==> rels@[k]@ == fs[k].path,
            present@ == paths_of(fs.take(i as int)),
        decreases crawled@.len() - i,
    {
        let rel = relative_path(root, crawled[i].entry.path.as_str());
        let _ = present.insert(rel.clone());
        rels.push(rel);
        i = i + 1;
        assert(present@ =~= paths_of(fs.take(i as int))) by {
            let before = fs.take(i - 1);
            let now = fs.take(i as int);
            assert forall|p: Seq<char>| #[trigger] crawled_path(now, p) <==> crawled_path(
                before,
                p,
            ) || p == rel@ by {
                if crawled_path(now, p) {
                    let k = choose|k: int| 0 <= k < now.len() && (#[trigger] now[k]).path == p;
                    if k < i - 1 {
                        assert(before[k].path == p);
                    }
                }
                if crawled_path(before, p) {
                    let k = choose|k: int| 0 <= k < before.len() && (#[trigger] before[k]).path == p;
                    assert(now[k].path == p);
                }
                assert(now[i - 1].path == rel@);
            }
        }
    }
    assert(fs.take(i as int) =~= fs);
    (rels, present)
}

/// Which files have to be read before [`reconcile`] can decide on them.
pub fn wants_read(prev: &StateIndex, root: &str, crawled: &[CrawledFile]) -> (r: Vec<bool>)
    requires
        prev.wf(),
    ensures
        r@.len() == crawled@.len(),
        ({
            let fs = file_views(root@, crawled@);
            forall|i: int|
                #![trigger r@[i]]
                0 <= i < r@.len() ==> r@[i] == decision(prev@, fs, Set::empty(), fs[i]) is Compare
        }),
{
    let ghost fs = file_views(root@, crawled@);
    let (rels, present): (Vec<String>, StringHashSet) = relative_paths(root, crawled);
    let consumed = StringHashSet::new();
    let mut r: Vec<bool> = Vec::new();
    let mut i: usize = 0;
    while i < crawled.len()
        invariant
            prev.wf(),
            fs == file_views(root@, crawled@),
            rels@.len() == crawled@.len(),
            forall|k: int| #![trigger rels@[k]] 0 <= k < rels@.len() ==> rels@[k]@ == fs[k].path,
            present@ == paths_of(fs),
            consumed@ == Set::<Seq<char>>::empty(),
            i <= crawled@.len(),
            r@.len() == i,
            forall|k: int|
                #![trigger r@[k]]
                0 <= k < i ==> r@[k] == decision(prev@, fs, Set::empty(), fs[k]) is Compare,
        decreases crawled@.len() - i,
    {
        let v = decide(
            prev,
            &present,
            &consumed,
            rels[i].as_str(),
            &crawled[i],
            Ghost(fs),
            Ghost(fs[i as int]),
        );
        r.push(matches!(v, Verdict::Compare { .. }));
        i = i + 1;
    }
    r
}

/// Carries out a decision on one file.
fn apply(
    plan: &mut Plan,
    consumed: &mut StringHashSet,
    v: Verdict,
    rel: &str,
    file: &CrawledFile,
    read: Option<Vec<u8>>,
    Ghost(f): Ghost<FileView>,
    Ghost(p): Ghost<Progress>,
)
    requires
        f == (FileView {
            path: rel@,
            kind: file.kind,
            inode: file.entry.inode,
            mtime: file.entry.mtime,
            size: file.entry.size,
        }),
        change_views(old(plan).changes@) == p.changes,
        old(plan).bytes_read == capped64(p.bytes_read),
        old(consumed)@ == p.consumed,
    ensures
        ({
            let rv = read_view(read);
            &&& change_views(final(plan).changes@) == p.changes + changes_of(v@, f, rv)
            &&& final(plan).bytes_read == capped64(p.bytes_read + read_for(v@, rv))
            &&& final(plan).files_examined == old(plan).files_examined
            &&& final(consumed)@ == match consumed_by(v@, rv) {
                Some(path) => p.consumed.insert(path),
                None => p.consumed,
            }
        }),
{
    let ghost rv = read_view(read);
    match v {
        Verdict::Keep => {},
        Verdict::Move { prior, from } => {
            plan.changes.push(patch(&prior, rel, file, Ghost(f)));
            let _ = consumed.insert(from);
        },
        Verdict::Replace { prior, source } => {
            plan.changes.push(Change::Delete(prior.doc_id));
            plan.changes.push(reindex(rel, file, None, Ghost(f)));
            match source {
                Some(from) => {
                    let _ = consumed.insert(from);
                },
                None => {},
            }
        },
        Verdict::Fresh => {
            plan.changes.push(reindex(rel, file, None, Ghost(f)));
        },
        Verdict::Compare { prior, source } => {
            match read {
                Some(bytes) => {
                    plan.bytes_read = plan.bytes_read.saturating_add(bytes.len() as u64);
                    let hash: u64 = hash_bytes(bytes.as_slice());
                    if hash == prior.content_hash {
                        plan.changes.push(patch(&prior, rel, file, Ghost(f)));
                    } else {
                        plan.changes.push(Change::Delete(prior.doc_id));
                        plan.changes.push(reindex(rel, file, Some(bytes), Ghost(f)));
                    }
                    match source {
                        Some(from) => {
                            let _ = consumed.insert(from);
                        },
                        None => {},
                    }
                },
                None => {
                    match source {
                        Some(_) => {
                            plan.changes.push(reindex(rel, file, None, Ghost(f)));
                        },
                        None => {
                            plan.changes.push(Change::Delete(prior.doc_id));
                        },
                    }
                },
            }
        },
    }
    assert(change_views(plan.changes@) =~= p.changes + changes_of(v@, f, rv));
}

/// Compares the recorded state with a crawl and plans the work between them.
/// `reads` holds what reading each file gave; it matters only for the files that
/// [`wants_read`] names, and `None` means that reading failed.
///
/// Unchanged metadata means no work. Changed metadata at a known path is decided
/// by content: the same is a patch, another is a deletion and a reindexing. A new
/// path whose inode is on record for a path that is no longer there is a move,
/// decided in the same way where its metadata changed too. Whatever else is on
/// record and was not crawled is deleted.
pub fn reconcile(
    prev: &StateIndex,
    root: &str,
    crawled: &[CrawledFile],
    reads: Vec<Option<Vec<u8>>>,
) -> (plan: Plan)
    requires
        prev.wf(),
        reads@.len() == crawled@.len(),
    ensures
        ({
            let fs = file_views(root@, crawled@);
            let rs = read_views(reads@);
            &&& change_views(plan.changes@) == planned(prev@, prev.keys(), fs, rs)
            &&& plan.files_examined == crawled@.len()
            &&& plan.bytes_read == capped64(progress(prev@, fs, rs, fs.len() as int).bytes_read)
        }),
{
    let ghost fs = file_views(root@, crawled@);
    let ghost rs = read_views(reads@);
    let (rels, present): (Vec<String>, StringHashSet) = relative_paths(root, crawled);
    let mut consumed = StringHashSet::new();
    let mut plan = Plan::default();
    let mut reads = reads;
    let mut i: usize = 0;
    assert(change_views(plan.changes@) =~= Seq::empty());
    while i < crawled.len()
        invariant
            prev.wf(),
            fs == file_views(root@, crawled@),
            rs.len() == reads@.len() == crawled@.len() == rels@.len(),
            forall|k: int| #![trigger rels@[k]] 0 <= k < rels@.len() ==> rels@[k]@ == fs[k].path,
            present@ == paths_of(fs),
            i <= crawled@.len(),
            forall|k: int| i <= k < crawled@.len() ==> #[trigger] read_views(reads@)[k] == rs[k],
            plan.files_examined == i,
            change_views(plan.changes@) == progress(prev@, fs, rs, i as int).changes,
            plan.bytes_read == capped64(progress(prev@, fs, rs, i as int).bytes_read),
            consumed@ == progress(prev@, fs, rs, i as int).consumed,
        decreases crawled@.len() - i,
    {
        let v = decide(
            prev,
            &present,
            &consumed,
            rels[i].as_str(),
            &crawled[i],
            Ghost(fs),
            Ghost(fs[i as int]),
        );
        let ghost had = reads@;
        assert(read_views(had)[i as int] == rs[i as int]);
        let slot = &mut reads[i];
        let read = slot.take();
        apply(
            &mut plan,
            &mut consumed,
            v,
            rels[i].as_str(),
            &crawled[i],
            read,
            Ghost(fs[i as int]),
            Ghost(progress(prev@, fs, rs, i as int)),
        );
        plan.files_examined = plan.files_examined + 1;
        i = i + 1;
        assert forall|k: int| i <= k < crawled@.len() implies #[trigger] read_views(reads@)[k]
            == rs[k] by {
            assert(read_views(had)[k] == rs[k]);
            assert(reads@[k] == had[k]);
        }
    }
    let ghost p = progress(prev@, fs, rs, fs.len() as int);
    let ghost keys = prev.keys();
    let mut k: usize = 0;
    assert(p.changes + leftovers(prev@, keys, fs, p.consumed, 0) =~= p.changes);
    while k < prev.paths.len()
        invariant
            prev.wf(),
            keys == prev.keys(),
            k <= prev.paths@.len(),
            present@ == paths_of(fs),
            consumed@ == p.consumed,
            change_views(plan.changes@) == p.changes + leftovers(
                prev@,
                keys,
                fs,
                p.consumed,
                k as int,
            ),
            plan.files_examined == crawled@.len(),
            plan.bytes_read == capped64(p.bytes_read),
        decreases prev.paths@.len() - k,
    {
        let path: &str = prev.paths[k].as_str();
        let ghost had = change_views(plan.changes@);
        assert(keys[k as int] == path@);
        assert(prev.by_path@.contains_key(prev.paths@[k as int]@));
        if !present.contains(path) && !consumed.contains(path) {
            let id: DocId = prev.states[k].doc_id;
            plan.changes.push(Change::Delete(id));
            assert(change_views(plan.changes@) =~= had.push(ChangeView::Delete(id)));
            assert(p.changes + leftovers(prev@, keys, fs, p.consumed, k as int).push(
                ChangeView::Delete(id),
            ) =~= had.push(ChangeView::Delete(id)));
        }
        k = k + 1;
    }
    plan
}

} // verus!
