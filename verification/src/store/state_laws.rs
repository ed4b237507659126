//! What the comparison of recorded and crawled state keeps.

use vstd::prelude::*;

use super::state::{
    changes_of, comparable, consumed_by, crawled_path, decision, leftovers, moved_from, planned,
    progress, ChangeView, Decision, FileView, Progress, StateView,
};

verus! {

/// The crawled file is recorded with the same metadata.
pub open spec fn unchanged(prev: StateView, f: FileView) -> bool {
    &&& prev.by_path.contains_key(f.path)
    &&& prev.by_path[f.path].inode == f.inode
    &&& prev.by_path[f.path].mtime_nanos == f.mtime
    &&& prev.by_path[f.path].size == f.size
}

/// A file that is not compared by content at the start is never compared.
proof fn lemma_compare_early(
    prev: StateView,
    fs: Seq<FileView>,
    consumed: Set<Seq<char>>,
    f: FileView,
)
    requires
        decision(prev, fs, consumed, f) is Compare,
    ensures
        decision(prev, fs, Set::empty(), f) is Compare,
{
    if !prev.by_path.contains_key(f.path) {
        assert(moved_from(prev, fs, consumed, f) == moved_from(prev, fs, Set::empty(), f));
    }
}

proof fn lemma_same_progress(
    prev: StateView,
    fs: Seq<FileView>,
    a: Seq<Option<Seq<u8>>>,
    b: Seq<Option<Seq<u8>>>,
    n: int,
)
    requires
        0 <= n <= fs.len(),
        forall|i: int|
            #![trigger fs[i]]
            0 <= i < fs.len() && decision(prev, fs, Set::empty(), fs[i]) is Compare ==> a[i] == b[i],
    ensures
        progress(prev, fs, a, n) == progress(prev, fs, b, n),
    decreases n,
{
    if n > 0 {
        lemma_same_progress(prev, fs, a, b, n - 1);
        let p = progress(prev, fs, a, n - 1);
        let f = fs[n - 1];
        let d = decision(prev, fs, p.consumed, f);
        if d is Compare {
            lemma_compare_early(prev, fs, p.consumed, f);
        }
    }
}

/// Only the files whose metadata leaves the question open have to be read: what
/// reading the others would give does not matter.
pub proof fn lemma_reads_matter_only_where_wanted(
    prev: StateView,
    keys: Seq<Seq<char>>,
    fs: Seq<FileView>,
    a: Seq<Option<Seq<u8>>>,
    b: Seq<Option<Seq<u8>>>,
)
    requires
        forall|i: int|
            #![trigger fs[i]]
            0 <= i < fs.len() && decision(prev, fs, Set::empty(), fs[i]) is Compare ==> a[i] == b[i],
    ensures
        planned(prev, keys, fs, a) == planned(prev, keys, fs, b),
        progress(prev, fs, a, fs.len() as int).bytes_read == progress(
            prev,
            fs,
            b,
            fs.len() as int,
        ).bytes_read,
{
    lemma_same_progress(prev, fs, a, b, fs.len() as int);
}

proof fn lemma_no_progress(
    prev: StateView,
    fs: Seq<FileView>,
    reads: Seq<Option<Seq<u8>>>,
    n: int,
)
    requires
        0 <= n <= fs.len(),
        forall|i: int| 0 <= i < fs.len() ==> unchanged(prev, #[trigger] fs[i]),
    ensures
        progress(prev, fs, reads, n) == (Progress {
            changes: Seq::empty(),
            bytes_read: 0,
            consumed: Set::empty(),
        }),
    decreases n,
{
    if n > 0 {
        lemma_no_progress(prev, fs, reads, n - 1);
        assert(unchanged(prev, fs[n - 1]));
    }
}

proof fn lemma_no_leftovers(
    prev: StateView,
    keys: Seq<Seq<char>>,
    fs: Seq<FileView>,
    n: int,
)
    requires
        0 <= n <= keys.len(),
        forall|k: int| 0 <= k < keys.len() ==> crawled_path(fs, #[trigger] keys[k]),
    ensures
        leftovers(prev, keys, fs, Set::empty(), n) == Seq::<ChangeView>::empty(),
    decreases n,
{
    if n > 0 {
        lemma_no_leftovers(prev, keys, fs, n - 1);
        assert(crawled_path(fs, keys[n - 1]));
    }
}

/// Where the crawl finds all recorded files with their recorded metadata and no
/// others, there is nothing to do and nothing is read.
pub proof fn lemma_unchanged_costs_nothing(
    prev: StateView,
    keys: Seq<Seq<char>>,
    fs: Seq<FileView>,
    reads: Seq<Option<Seq<u8>>>,
)
    requires
        forall|i: int| 0 <= i < fs.len() ==> unchanged(prev, #[trigger] fs[i]),
        forall|k: int| 0 <= k < keys.len() ==> crawled_path(fs, #[trigger] keys[k]),
    ensures
        planned(prev, keys, fs, reads) == Seq::<ChangeView>::empty(),
        progress(prev, fs, reads, fs.len() as int).bytes_read == 0,
{
    lemma_no_progress(prev, fs, reads, fs.len() as int);
    lemma_no_leftovers(prev, keys, fs, keys.len() as int);
    assert(planned(prev, keys, fs, reads) =~= Seq::empty());
}

/// The document that a change deletes or patches.
pub open spec fn touched(c: ChangeView) -> Option<u32> {
    match c {
        ChangeView::Delete(d) => Some(d),
        ChangeView::Patch { doc_id, .. } => Some(doc_id),
        ChangeView::Reindex { .. } => None,
    }
}

/// A change deletes or patches the document.
pub open spec fn touches(cs: Seq<ChangeView>, doc: u32) -> bool {
    exists|i: int| 0 <= i < cs.len() && touched(#[trigger] cs[i]) == Some(doc)
}

/// No document is deleted or patched twice.
pub open spec fn touched_once(cs: Seq<ChangeView>) -> bool {
    forall|i: int, j: int|
        #![trigger cs[i], cs[j]]
        0 <= i < j < cs.len() && touched(cs[i]) is Some ==> touched(cs[i]) != touched(cs[j])
}

/// The record is that of an index and the crawl that of a tree: every document
/// has one path, the recorded paths are listed once each, and so are the crawled
/// ones.
pub open spec fn proper_input(
    prev: StateView,
    keys: Seq<Seq<char>>,
    fs: Seq<FileView>,
) -> bool {
    &&& forall|p: Seq<char>, q: Seq<char>|
        #![trigger prev.by_path[p], prev.by_path[q]]
        prev.by_path.contains_key(p) && prev.by_path.contains_key(q) && p != q
            ==> prev.by_path[p].doc_id != prev.by_path[q].doc_id
    &&& keys.no_duplicates()
    &&& forall|p: Seq<char>| #[trigger] keys.contains(p) <==> prev.by_path.contains_key(p)
    &&& forall|i: int, j: int|
        #![trigger fs[i], fs[j]]
        0 <= i < j < fs.len() ==> fs[i].path != fs[j].path
}

/// The document at `path` was dealt with among the first `n` files: the path was
/// crawled with other metadata, or a file was moved from it.
spec fn settled(
    prev: StateView,
    fs: Seq<FileView>,
    consumed: Set<Seq<char>>,
    n: int,
    path: Seq<char>,
) -> bool {
    &&& prev.by_path.contains_key(path)
    &&& {
        ||| consumed.contains(path)
        ||| exists|k: int|
            0 <= k < n && (#[trigger] fs[k]).path == path && !unchanged(prev, fs[k])
    }
}

/// What the comparison of the first `n` files keeps.
spec fn kept(
    prev: StateView,
    fs: Seq<FileView>,
    reads: Seq<Option<Seq<u8>>>,
    n: int,
) -> bool {
    let p = progress(prev, fs, reads, n);
    &&& touched_once(p.changes)
    &&& forall|path: Seq<char>| #[trigger]
        p.consumed.contains(path) ==> prev.by_path.contains_key(path) && !crawled_path(fs, path)
    &&& forall|doc: u32| #[trigger]
        touches(p.changes, doc) <==> exists|path: Seq<char>| #[trigger]
            settled(prev, fs, p.consumed, n, path) && prev.by_path[path].doc_id == doc
}

/// The path whose document a decision touches.
spec fn target(d: Decision, f: FileView, read: Option<Seq<u8>>) -> Option<Seq<char>> {
    match d {
        Decision::Keep => None,
        Decision::Fresh => None,
        Decision::Move { prior, from } => Some(from),
        Decision::Replace { prior, source } => match source {
            Some(from) => Some(from),
            None => Some(f.path),
        },
        Decision::Compare { prior, source } => match source {
            Some(from) => if read is Some {
                Some(from)
            } else {
                None
            },
            None => Some(f.path),
        },
    }
}

proof fn lemma_step_touches(
    prev: StateView,
    fs: Seq<FileView>,
    consumed: Set<Seq<char>>,
    f: FileView,
    read: Option<Seq<u8>>,
)
    ensures
        ({
            let d = decision(prev, fs, consumed, f);
            let cs = changes_of(d, f, read);
            match target(d, f, read) {
                None => (forall|i: int|
                    0 <= i < cs.len() ==> touched(#[trigger] cs[i]) is None) && consumed_by(d, read)
                    is None,
                Some(path) => {
                    &&& prev.by_path.contains_key(path)
                    &&& cs.len() > 0
                    &&& touched(cs[0]) == Some(prev.by_path[path].doc_id)
                    &&& forall|i: int| 1 <= i < cs.len() ==> touched(#[trigger] cs[i]) is None
                    &&& path == f.path && !unchanged(prev, f) && consumed_by(d, read) is None || (
                    !prev.by_path.contains_key(f.path) && consumed_by(d, read) == Some(path)
                        && !crawled_path(fs, path) && !consumed.contains(path))
                },
            }
        }),
        decision(prev, fs, consumed, f) is Keep <==> unchanged(prev, f),
        target(decision(prev, fs, consumed, f), f, read) is None ==> unchanged(prev, f)
            || !prev.by_path.contains_key(f.path),
{
    let d = decision(prev, fs, consumed, f);
    if !prev.by_path.contains_key(f.path) {
        let m = moved_from(prev, fs, consumed, f);
    }
}

proof fn lemma_kept(
    prev: StateView,
    keys: Seq<Seq<char>>,
    fs: Seq<FileView>,
    reads: Seq<Option<Seq<u8>>>,
    n: int,
)
    requires
        0 <= n <= fs.len(),
        proper_input(prev, keys, fs),
    ensures
        kept(prev, fs, reads, n),
    decreases n,
{
    let now = progress(prev, fs, reads, n);
    if n > 0 {
        lemma_kept(prev, keys, fs, reads, n - 1);
        let p = progress(prev, fs, reads, n - 1);
        let f = fs[n - 1];
        let read = reads[n - 1];
        let d = decision(prev, fs, p.consumed, f);
        let cs = changes_of(d, f, read);
        lemma_step_touches(prev, fs, p.consumed, f, read);
        assert(crawled_path(fs, f.path));
        assert(now.changes == p.changes + cs);
        let t = target(d, f, read);
        // the target's document is not touched yet
        if let Some(path) = t {
            let doc = prev.by_path[path].doc_id;
            if touches(p.changes, doc) {
                let q = choose|q: Seq<char>| #[trigger]
                    settled(prev, fs, p.consumed, n - 1, q) && prev.by_path[q].doc_id == doc;
                assert(q == path);
                if !p.consumed.contains(path) {
                    let k = choose|k: int|
                        0 <= k < n - 1 && (#[trigger] fs[k]).path == path && !unchanged(
                            prev,
                            fs[k],
                        );
                    assert(crawled_path(fs, path));
                    assert(fs[k].path != fs[n - 1].path);
                    assert(false);
                }
                assert(false);
            }
        }
        assert(touched_once(now.changes)) by {
            let m = p.changes.len();
            assert forall|i: int, j: int|
                #![trigger now.changes[i], now.changes[j]]
                0 <= i < j < now.changes.len() && touched(now.changes[i]) is Some implies touched(
                now.changes[i],
            ) != touched(now.changes[j]) by {
                if j < m {
                    assert(now.changes[i] == p.changes[i] && now.changes[j] == p.changes[j]);
                } else {
                    assert(now.changes[j] == cs[j - m]);
                    if i < m {
                        assert(now.changes[i] == p.changes[i]);
                        assert(touches(p.changes, touched(p.changes[i])->Some_0));
                    } else {
                        assert(now.changes[i] == cs[i - m]);
                    }
                }
            }
        }
        assert forall|path: Seq<char>| #[trigger] now.consumed.contains(path) implies
        prev.by_path.contains_key(path) && !crawled_path(fs, path) by {
            if !p.consumed.contains(path) {
                assert(consumed_by(d, read) == Some(path));
            }
        }
        assert forall|doc: u32| #[trigger]
            touches(now.changes, doc) <==> exists|path: Seq<char>| #[trigger]
                settled(prev, fs, now.consumed, n, path) && prev.by_path[path].doc_id == doc by {
            let m = p.changes.len();
            if touches(now.changes, doc) {
                let i = choose|i: int|
                    0 <= i < now.changes.len() && touched(#[trigger] now.changes[i]) == Some(doc);
                if i < m {
                    assert(p.changes[i] == now.changes[i]);
                    assert(touches(p.changes, doc));
                    let q = choose|q: Seq<char>| #[trigger]
                        settled(prev, fs, p.consumed, n - 1, q) && prev.by_path[q].doc_id == doc;
                    lemma_settled_grows(prev, fs, p.consumed, now.consumed, n - 1, q);
                    assert(settled(prev, fs, now.consumed, n, q));
                } else {
                    assert(now.changes[i] == cs[i - m]);
                    let path = t->Some_0;
                    if path == f.path {
                        assert(fs[n - 1].path == path);
                    }
                    assert(settled(prev, fs, now.consumed, n, path));
                }
            }
            if exists|path: Seq<char>| #[trigger]
                settled(prev, fs, now.consumed, n, path) && prev.by_path[path].doc_id == doc {
                let path = choose|path: Seq<char>| #[trigger]
                    settled(prev, fs, now.consumed, n, path) && prev.by_path[path].doc_id == doc;
                if settled(prev, fs, p.consumed, n - 1, path) {
                    assert(touches(p.changes, doc));
                    let i = choose|i: int|
                        0 <= i < p.changes.len() && touched(#[trigger] p.changes[i]) == Some(doc);
                    assert(now.changes[i] == p.changes[i]);
                } else {
                    assert(t == Some(path)) by {
                        if !now.consumed.contains(path) {
                            let k = choose|k: int|
                                0 <= k < n && (#[trigger] fs[k]).path == path && !unchanged(
                                    prev,
                                    fs[k],
                                );
                            assert(k == n - 1);
                        }
                    }
                    assert(now.changes[m as int] == cs[0]);
                }
            }
        }
    } else {
        assert forall|doc: u32| !#[trigger] touches(now.changes, doc) by {}
        assert forall|path: Seq<char>| !#[trigger] settled(prev, fs, now.consumed, 0, path) by {}
    }
}

proof fn lemma_settled_grows(
    prev: StateView,
    fs: Seq<FileView>,
    a: Set<Seq<char>>,
    b: Set<Seq<char>>,
    n: int,
    path: Seq<char>,
)
    requires
        settled(prev, fs, a, n, path),
        a.subset_of(b),
    ensures
        settled(prev, fs, b, n + 1, path),
{
    if !a.contains(path) {
        let k = choose|k: int|
            0 <= k < n && (#[trigger] fs[k]).path == path && !unchanged(prev, fs[k]);
        assert(fs[k].path == path);
    }
}

/// The path was not crawled, nothing was moved from it, and it is among the
/// first `n` recorded ones.
spec fn left(
    keys: Seq<Seq<char>>,
    fs: Seq<FileView>,
    consumed: Set<Seq<char>>,
    n: int,
    path: Seq<char>,
) -> bool {
    &&& !crawled_path(fs, path)
    &&& !consumed.contains(path)
    &&& exists|k: int| 0 <= k < n && #[trigger] keys[k] == path
}

proof fn lemma_leftovers(
    prev: StateView,
    keys: Seq<Seq<char>>,
    fs: Seq<FileView>,
    consumed: Set<Seq<char>>,
    n: int,
)
    requires
        0 <= n <= keys.len(),
        proper_input(prev, keys, fs),
    ensures
        ({
            let cs = leftovers(prev, keys, fs, consumed, n);
            &&& touched_once(cs)
            &&& forall|i: int| 0 <= i < cs.len() ==> touched(#[trigger] cs[i]) is Some
            &&& forall|doc: u32| #[trigger]
                touches(cs, doc) <==> exists|path: Seq<char>| #[trigger]
                    left(keys, fs, consumed, n, path) && prev.by_path[path].doc_id == doc
        }),
    decreases n,
{
    let cs = leftovers(prev, keys, fs, consumed, n);
    if n > 0 {
        lemma_leftovers(prev, keys, fs, consumed, n - 1);
        let before = leftovers(prev, keys, fs, consumed, n - 1);
        let path = keys[n - 1];
        assert(keys.contains(path));
        let doc0 = prev.by_path[path].doc_id;
        let added = !crawled_path(fs, path) && !consumed.contains(path);
        if touches(before, doc0) {
            let q = choose|q: Seq<char>| #[trigger]
                left(keys, fs, consumed, n - 1, q) && prev.by_path[q].doc_id == doc0;
            let k = choose|k: int| 0 <= k < n - 1 && #[trigger] keys[k] == q;
            assert(keys.contains(q));
            assert(q == path);
            assert(keys[k] != keys[n - 1]);
            assert(false);
        }
        assert(touched_once(cs)) by {
            assert forall|i: int, j: int|
                #![trigger cs[i], cs[j]]
                0 <= i < j < cs.len() && touched(cs[i]) is Some implies touched(cs[i]) != touched(
                cs[j],
            ) by {
                if j < before.len() {
                    assert(cs[i] == before[i] && cs[j] == before[j]);
                } else {
                    assert(cs[i] == before[i]);
                    assert(touches(before, touched(before[i])->Some_0));
                }
            }
        }
        assert forall|i: int| 0 <= i < cs.len() implies touched(#[trigger] cs[i]) is Some by {
            if i < before.len() {
                assert(cs[i] == before[i]);
            }
        }
        assert forall|doc: u32| #[trigger] touches(cs, doc) <==> exists|q: Seq<char>| #[trigger]
            left(keys, fs, consumed, n, q) && prev.by_path[q].doc_id == doc by {
            if touches(cs, doc) {
                let i = choose|i: int| 0 <= i < cs.len() && touched(#[trigger] cs[i]) == Some(doc);
                if i < before.len() {
                    assert(before[i] == cs[i]);
                    assert(touches(before, doc));
                    let q = choose|q: Seq<char>| #[trigger]
                        left(keys, fs, consumed, n - 1, q) && prev.by_path[q].doc_id == doc;
                    let k = choose|k: int| 0 <= k < n - 1 && #[trigger] keys[k] == q;
                    assert(keys[k] == q);
                    assert(left(keys, fs, consumed, n, q));
                } else {
                    assert(keys[n - 1] == path);
                    assert(left(keys, fs, consumed, n, path));
                }
            }
            if exists|q: Seq<char>| #[trigger]
                left(keys, fs, consumed, n, q) && prev.by_path[q].doc_id == doc {
                let q = choose|q: Seq<char>| #[trigger]
                    left(keys, fs, consumed, n, q) && prev.by_path[q].doc_id == doc;
                let k = choose|k: int| 0 <= k < n && #[trigger] keys[k] == q;
                if k < n - 1 {
                    assert(left(keys, fs, consumed, n - 1, q));
                    assert(touches(before, doc));
                    let i = choose|i: int|
                        0 <= i < before.len() && touched(#[trigger] before[i]) == Some(doc);
                    assert(cs[i] == before[i]);
                } else {
                    assert(cs[before.len() as int] == ChangeView::Delete(doc0));
                }
            }
        }
    } else {
        assert forall|doc: u32| !#[trigger] touches(cs, doc) by {}
        assert forall|q: Seq<char>| !#[trigger] left(keys, fs, consumed, 0, q) by {}
    }
}

/// No document is dealt with twice, and a recorded document is left alone
/// exactly where its path was crawled with the recorded metadata: every other is
/// deleted or patched once.
pub proof fn lemma_every_document_once(
    prev: StateView,
    keys: Seq<Seq<char>>,
    fs: Seq<FileView>,
    reads: Seq<Option<Seq<u8>>>,
    path: Seq<char>,
)
    requires
        proper_input(prev, keys, fs),
        prev.by_path.contains_key(path),
    ensures
        touched_once(planned(prev, keys, fs, reads)),
        touches(planned(prev, keys, fs, reads), prev.by_path[path].doc_id) <==> !exists|k: int|
            0 <= k < fs.len() && (#[trigger] fs[k]).path == path && unchanged(prev, fs[k]),
{
    let n = fs.len() as int;
    let p = progress(prev, fs, reads, n);
    let rest = leftovers(prev, keys, fs, p.consumed, keys.len() as int);
    let all = planned(prev, keys, fs, reads);
    lemma_kept(prev, keys, fs, reads, n);
    lemma_leftovers(prev, keys, fs, p.consumed, keys.len() as int);
    let m = p.changes.len();
    assert(touched_once(all)) by {
        assert forall|i: int, j: int|
            #![trigger all[i], all[j]]
            0 <= i < j < all.len() && touched(all[i]) is Some implies touched(all[i]) != touched(
            all[j],
        ) by {
            if j < m {
                assert(all[i] == p.changes[i] && all[j] == p.changes[j]);
            } else if i >= m {
                assert(all[i] == rest[i - m] && all[j] == rest[j - m]);
            } else {
                assert(all[i] == p.changes[i] && all[j] == rest[j - m]);
                if touched(all[i]) == touched(all[j]) {
                    let doc = touched(all[i])->Some_0;
                    assert(touches(p.changes, doc));
                    assert(touches(rest, doc));
                    let a = choose|q: Seq<char>| #[trigger]
                        settled(prev, fs, p.consumed, n, q) && prev.by_path[q].doc_id == doc;
                    let b = choose|q: Seq<char>| #[trigger]
                        left(keys, fs, p.consumed, keys.len() as int, q) && prev.by_path[q].doc_id
                            == doc;
                    let k = choose|k: int| 0 <= k < keys.len() && #[trigger] keys[k] == b;
                    assert(keys.contains(b));
                    assert(a == b);
                    let l = choose|l: int|
                        0 <= l < n && (#[trigger] fs[l]).path == a && !unchanged(prev, fs[l]);
                    assert(crawled_path(fs, a));
                }
            }
        }
    }
    let doc = prev.by_path[path].doc_id;
    if touches(all, doc) {
        let i = choose|i: int| 0 <= i < all.len() && touched(#[trigger] all[i]) == Some(doc);
        if i < m {
            assert(p.changes[i] == all[i]);
            assert(touches(p.changes, doc));
            let q = choose|q: Seq<char>| #[trigger]
                settled(prev, fs, p.consumed, n, q) && prev.by_path[q].doc_id == doc;
            assert(q == path);
            if exists|k: int|
                0 <= k < fs.len() && (#[trigger] fs[k]).path == path && unchanged(prev, fs[k]) {
                let k = choose|k: int|
                    0 <= k < fs.len() && (#[trigger] fs[k]).path == path && unchanged(prev, fs[k]);
                assert(crawled_path(fs, path));
                let l = choose|l: int|
                    0 <= l < n && (#[trigger] fs[l]).path == path && !unchanged(prev, fs[l]);
                assert(k == l) by {
                    if k < l {
                        assert(fs[k].path != fs[l].path);
                    } else if l < k {
                        assert(fs[l].path != fs[k].path);
                    }
                }
            }
        } else {
            assert(rest[i - m] == all[i]);
            assert(touches(rest, doc));
            let q = choose|q: Seq<char>| #[trigger]
                left(keys, fs, p.consumed, keys.len() as int, q) && prev.by_path[q].doc_id == doc;
            let k = choose|k: int| 0 <= k < keys.len() && #[trigger] keys[k] == q;
            assert(keys.contains(q));
            assert(q == path);
        }
    }
    if !exists|k: int|
        0 <= k < fs.len() && (#[trigger] fs[k]).path == path && unchanged(prev, fs[k]) {
        if crawled_path(fs, path) || p.consumed.contains(path) {
            if crawled_path(fs, path) {
                let k = choose|k: int| 0 <= k < fs.len() && (#[trigger] fs[k]).path == path;
                assert(!unchanged(prev, fs[k]));
            }
            assert(settled(prev, fs, p.consumed, n, path));
            assert(touches(p.changes, doc));
            let i = choose|i: int|
                0 <= i < p.changes.len() && touched(#[trigger] p.changes[i]) == Some(doc);
            assert(all[i] == p.changes[i]);
        } else {
            assert(keys.contains(path));
            let k = choose|k: int| 0 <= k < keys.len() && keys[k] == path;
            assert(keys[k] == path);
            assert(left(keys, fs, p.consumed, keys.len() as int, path));
            assert(touches(rest, doc));
            let i = choose|i: int| 0 <= i < rest.len() && touched(#[trigger] rest[i]) == Some(doc);
            assert(all[m + i] == rest[i]);
        }
    }
}

/// A path with its metadata.
pub ghost struct Spot {
    pub path: Seq<char>,
    pub inode: u64,
    pub mtime: i64,
    pub size: u64,
}

/// The path and metadata of a crawled file.
pub open spec fn spot_of(f: FileView) -> Spot {
    Spot { path: f.path, inode: f.inode, mtime: f.mtime, size: f.size }
}

/// The path and metadata that a change puts on record.
pub open spec fn spot(c: ChangeView) -> Option<Spot> {
    match c {
        ChangeView::Delete(_) => None,
        ChangeView::Patch { inode, mtime_nanos, size, path, .. } => Some(
            Spot { path, inode, mtime: mtime_nanos, size },
        ),
        ChangeView::Reindex { path, inode, mtime_nanos, size, .. } => Some(
            Spot { path, inode, mtime: mtime_nanos, size },
        ),
    }
}

/// The file is a known one whose content has to be compared and could not be
/// read.
pub open spec fn unreadable(prev: StateView, f: FileView, read: Option<Seq<u8>>) -> bool {
    prev.by_path.contains_key(f.path) && !unchanged(prev, f) && comparable(
        prev.by_path[f.path],
        f,
    ) && read is None
}

/// What is on record once the changes are made: what they put there, and the
/// recorded documents that they leave alone.
pub open spec fn recorded_after(prev: StateView, cs: Seq<ChangeView>, s: Spot) -> bool {
    ||| exists|i: int| 0 <= i < cs.len() && spot(#[trigger] cs[i]) == Some(s)
    ||| prev.by_path.contains_key(s.path) && !touches(cs, prev.by_path[s.path].doc_id)
        && prev.by_path[s.path].inode == s.inode && prev.by_path[s.path].mtime_nanos == s.mtime
        && prev.by_path[s.path].size == s.size
}

proof fn lemma_spots(
    prev: StateView,
    fs: Seq<FileView>,
    reads: Seq<Option<Seq<u8>>>,
    n: int,
)
    requires
        0 <= n <= fs.len(),
    ensures
        ({
            let cs = progress(prev, fs, reads, n).changes;
            &&& forall|i: int|
                #![trigger cs[i]]
                0 <= i < cs.len() && spot(cs[i]) is Some ==> exists|k: int|
                    0 <= k < n && spot(cs[i]) == Some(spot_of(#[trigger] fs[k])) && !unchanged(
                        prev,
                        fs[k],
                    ) && !unreadable(prev, fs[k], reads[k])
            &&& forall|k: int|
                #![trigger fs[k]]
                0 <= k < n && !unchanged(prev, fs[k]) && !unreadable(prev, fs[k], reads[k])
                    ==> exists|i: int|
                    0 <= i < cs.len() && spot(#[trigger] cs[i]) == Some(spot_of(fs[k]))
        }),
    decreases n,
{
    if n > 0 {
        lemma_spots(prev, fs, reads, n - 1);
        let p = progress(prev, fs, reads, n - 1);
        let now = progress(prev, fs, reads, n);
        let f = fs[n - 1];
        let read = reads[n - 1];
        let d = decision(prev, fs, p.consumed, f);
        let own = changes_of(d, f, read);
        let (cs, c0) = (now.changes, p.changes);
        assert(cs == c0 + own);
        assert forall|i: int| #![trigger cs[i]] 0 <= i < cs.len() && spot(cs[i]) is Some implies exists|
            k: int,
        |
            0 <= k < n && spot(cs[i]) == Some(spot_of(#[trigger] fs[k])) && !unchanged(prev, fs[k])
                && !unreadable(prev, fs[k], reads[k]) by {
            if i < c0.len() {
                assert(cs[i] == c0[i]);
            } else {
                assert(cs[i] == own[i - c0.len()]);
                assert(spot(cs[i]) == Some(spot_of(fs[n - 1])));
            }
        }
        assert forall|k: int| #![trigger fs[k]] 0 <= k < n && !unchanged(prev, fs[k]) && !unreadable(
            prev,
            fs[k],
            reads[k],
        ) implies exists|i: int|
            0 <= i < cs.len() && spot(#[trigger] cs[i]) == Some(spot_of(fs[k])) by {
            if k < n - 1 {
                let i = choose|i: int|
                    0 <= i < c0.len() && spot(#[trigger] c0[i]) == Some(spot_of(fs[k]));
                assert(cs[i] == c0[i]);
            } else {
                let last = own.len() - 1;
                assert(spot(own[last]) == Some(spot_of(f)));
                assert(cs[c0.len() + last] == own[last]);
            }
        }
    }
}

/// The document is one on record.
pub open spec fn on_record(prev: StateView, doc: u32) -> bool {
    exists|p: Seq<char>|
        prev.by_path.contains_key(p) && (#[trigger] prev.by_path[p]).doc_id == doc
}

/// Only documents on record are deleted or patched.
pub proof fn lemma_touched_are_on_record(
    prev: StateView,
    keys: Seq<Seq<char>>,
    fs: Seq<FileView>,
    reads: Seq<Option<Seq<u8>>>,
    i: int,
)
    requires
        forall|p: Seq<char>| #[trigger] keys.contains(p) ==> prev.by_path.contains_key(p),
        0 <= i < planned(prev, keys, fs, reads).len(),
        touched(planned(prev, keys, fs, reads)[i]) is Some,
    ensures
        on_record(prev, touched(planned(prev, keys, fs, reads)[i])->Some_0),
{
    let n = fs.len() as int;
    let p = progress(prev, fs, reads, n);
    let rest = leftovers(prev, keys, fs, p.consumed, keys.len() as int);
    let all = planned(prev, keys, fs, reads);
    if i < p.changes.len() {
        assert(all[i] == p.changes[i]);
        lemma_progress_on_record(prev, fs, reads, n, i);
    } else {
        assert(all[i] == rest[i - p.changes.len()]);
        lemma_leftovers_on_record(
            prev,
            keys,
            fs,
            p.consumed,
            keys.len() as int,
            i - p.changes.len(),
        );
    }
}

proof fn lemma_progress_on_record(
    prev: StateView,
    fs: Seq<FileView>,
    reads: Seq<Option<Seq<u8>>>,
    n: int,
    i: int,
)
    requires
        0 <= n <= fs.len(),
        0 <= i < progress(prev, fs, reads, n).changes.len(),
        touched(progress(prev, fs, reads, n).changes[i]) is Some,
    ensures
        on_record(prev, touched(progress(prev, fs, reads, n).changes[i])->Some_0),
    decreases n,
{
    let p = progress(prev, fs, reads, n - 1);
    let f = fs[n - 1];
    let d = decision(prev, fs, p.consumed, f);
    let own = changes_of(d, f, reads[n - 1]);
    let now = progress(prev, fs, reads, n).changes;
    if i < p.changes.len() {
        assert(now[i] == p.changes[i]);
        lemma_progress_on_record(prev, fs, reads, n - 1, i);
    } else {
        assert(now[i] == own[i - p.changes.len()]);
        if prev.by_path.contains_key(f.path) {
            assert(prev.by_path[f.path].doc_id == prev.by_path[f.path].doc_id);
        } else if moved_from(prev, fs, p.consumed, f) is Some {
            let from = moved_from(prev, fs, p.consumed, f)->Some_0;
            assert(prev.by_path.contains_key(from));
            assert(prev.by_path[from].doc_id == prev.by_path[from].doc_id);
        }
    }
}

proof fn lemma_leftovers_on_record(
    prev: StateView,
    keys: Seq<Seq<char>>,
    fs: Seq<FileView>,
    consumed: Set<Seq<char>>,
    n: int,
    i: int,
)
    requires
        0 <= n <= keys.len(),
        forall|p: Seq<char>| #[trigger] keys.contains(p) ==> prev.by_path.contains_key(p),
        0 <= i < leftovers(prev, keys, fs, consumed, n).len(),
        touched(leftovers(prev, keys, fs, consumed, n)[i]) is Some,
    ensures
        on_record(prev, touched(leftovers(prev, keys, fs, consumed, n)[i])->Some_0),
    decreases n,
{
    let before = leftovers(prev, keys, fs, consumed, n - 1);
    let path = keys[n - 1];
    if i < before.len() {
        assert(leftovers(prev, keys, fs, consumed, n)[i] == before[i]);
        lemma_leftovers_on_record(prev, keys, fs, consumed, n - 1, i);
    } else {
        assert(keys.contains(path));
        assert(prev.by_path[path].doc_id == prev.by_path[path].doc_id);
    }
}

proof fn lemma_progress_spots(
    prev: StateView,
    fs: Seq<FileView>,
    reads: Seq<Option<Seq<u8>>>,
    n: int,
)
    requires
        0 <= n <= fs.len(),
        forall|i: int, j: int|
            #![trigger fs[i], fs[j]]
            0 <= i < j < fs.len() ==> fs[i].path != fs[j].path,
    ensures
        ({
            let cs = progress(prev, fs, reads, n).changes;
            forall|i: int, j: int|
                #![trigger cs[i], cs[j]]
                0 <= i < j < cs.len() && spot(cs[i]) is Some && spot(cs[j]) is Some
                    ==> spot(cs[i])->Some_0.path != spot(cs[j])->Some_0.path
        }),
    decreases n,
{
    if n > 0 {
        lemma_progress_spots(prev, fs, reads, n - 1);
        lemma_spots(prev, fs, reads, n - 1);
        let p = progress(prev, fs, reads, n - 1);
        let f = fs[n - 1];
        let d = decision(prev, fs, p.consumed, f);
        let own = changes_of(d, f, reads[n - 1]);
        let (cs, c0) = (progress(prev, fs, reads, n).changes, p.changes);
        assert(cs == c0 + own);
        assert forall|i: int, j: int|
            #![trigger cs[i], cs[j]]
            0 <= i < j < cs.len() && spot(cs[i]) is Some && spot(cs[j]) is Some implies spot(
            cs[i],
        )->Some_0.path != spot(cs[j])->Some_0.path by {
            if j < c0.len() {
                assert(cs[i] == c0[i] && cs[j] == c0[j]);
            } else if i < c0.len() {
                assert(cs[i] == c0[i]);
                assert(cs[j] == own[j - c0.len()]);
                let k = choose|k: int|
                    0 <= k < n - 1 && spot(c0[i]) == Some(spot_of(#[trigger] fs[k])) && !unchanged(
                        prev,
                        fs[k],
                    ) && !unreadable(prev, fs[k], reads[k]);
                assert(fs[k].path != fs[n - 1].path);
            } else {
                assert(cs[i] == own[i - c0.len()]);
                assert(cs[j] == own[j - c0.len()]);
            }
        }
    }
}

/// No two changes put a file at the same path, and none puts one where a document
/// on record is left alone.
pub proof fn lemma_one_file_each(
    prev: StateView,
    keys: Seq<Seq<char>>,
    fs: Seq<FileView>,
    reads: Seq<Option<Seq<u8>>>,
    i: int,
    s: Spot,
)
    requires
        proper_input(prev, keys, fs),
        0 <= i < planned(prev, keys, fs, reads).len(),
        spot(planned(prev, keys, fs, reads)[i]) == Some(s),
    ensures
        exists|k: int|
            0 <= k < fs.len() && s == spot_of(#[trigger] fs[k]) && !unchanged(prev, fs[k]),
        forall|j: int|
            #![trigger planned(prev, keys, fs, reads)[j]]
            0 <= j < planned(prev, keys, fs, reads).len() && j != i ==> (spot(
                planned(prev, keys, fs, reads)[j],
            ) matches Some(t) ==> t.path != s.path),
        prev.by_path.contains_key(s.path) ==> touches(
            planned(prev, keys, fs, reads),
            prev.by_path[s.path].doc_id,
        ),
{
    let n = fs.len() as int;
    let p = progress(prev, fs, reads, n);
    let rest = leftovers(prev, keys, fs, p.consumed, keys.len() as int);
    let all = planned(prev, keys, fs, reads);
    let m = p.changes.len();
    lemma_progress_spots(prev, fs, reads, n);
    lemma_spots(prev, fs, reads, n);
    lemma_leftover_spots(prev, keys, fs, p.consumed, keys.len() as int);
    if i >= m {
        assert(all[i] == rest[i - m]);
    }
    assert(all[i] == p.changes[i]);
    let k = choose|k: int|
        0 <= k < n && spot(p.changes[i]) == Some(spot_of(#[trigger] fs[k])) && !unchanged(
            prev,
            fs[k],
        ) && !unreadable(prev, fs[k], reads[k]);
    assert(s == spot_of(fs[k]));
    assert forall|j: int| #![trigger all[j]] 0 <= j < all.len() && j != i implies (spot(
        all[j],
    ) matches Some(t) ==> t.path != s.path) by {
        if j < m {
            assert(all[j] == p.changes[j]);
            if spot(all[j]) is Some {
                if j < i {
                    assert(spot(p.changes[j])->Some_0.path != spot(p.changes[i])->Some_0.path);
                } else {
                    assert(spot(p.changes[i])->Some_0.path != spot(p.changes[j])->Some_0.path);
                }
            }
        } else {
            assert(all[j] == rest[j - m]);
        }
    }
    if prev.by_path.contains_key(s.path) {
        lemma_every_document_once(prev, keys, fs, reads, s.path);
        if !touches(all, prev.by_path[s.path].doc_id) {
            let x = choose|x: int|
                0 <= x < fs.len() && (#[trigger] fs[x]).path == s.path && unchanged(prev, fs[x]);
            if x < k {
                assert(fs[x].path != fs[k].path);
            } else if k < x {
                assert(fs[k].path != fs[x].path);
            }
        }
    }
}

/// The changes lead to the crawled state: what is on record behind them is every
/// crawled file with the metadata it was crawled with, and nothing else. A known
/// file whose content had to be compared and could not be read is left out.
pub proof fn lemma_converges(
    prev: StateView,
    keys: Seq<Seq<char>>,
    fs: Seq<FileView>,
    reads: Seq<Option<Seq<u8>>>,
    s: Spot,
)
    requires
        proper_input(prev, keys, fs),
    ensures
        recorded_after(prev, planned(prev, keys, fs, reads), s) <==> exists|k: int|
            0 <= k < fs.len() && s == spot_of(#[trigger] fs[k]) && !unreadable(
                prev,
                fs[k],
                reads[k],
            ),
{
    let n = fs.len() as int;
    let p = progress(prev, fs, reads, n);
    let rest = leftovers(prev, keys, fs, p.consumed, keys.len() as int);
    let all = planned(prev, keys, fs, reads);
    let m = p.changes.len();
    lemma_spots(prev, fs, reads, n);
    lemma_leftover_spots(prev, keys, fs, p.consumed, keys.len() as int);
    if exists|i: int| 0 <= i < all.len() && spot(#[trigger] all[i]) == Some(s) {
        let i = choose|i: int| 0 <= i < all.len() && spot(#[trigger] all[i]) == Some(s);
        if i < m {
            assert(all[i] == p.changes[i]);
        } else {
            assert(all[i] == rest[i - m]);
        }
    }
    if prev.by_path.contains_key(s.path) {
        lemma_every_document_once(prev, keys, fs, reads, s.path);
        if !touches(all, prev.by_path[s.path].doc_id) && prev.by_path[s.path].inode == s.inode
            && prev.by_path[s.path].mtime_nanos == s.mtime && prev.by_path[s.path].size == s.size {
            let k = choose|k: int|
                0 <= k < fs.len() && (#[trigger] fs[k]).path == s.path && unchanged(prev, fs[k]);
            assert(s == spot_of(fs[k]));
        }
    }
    if exists|k: int|
        0 <= k < fs.len() && s == spot_of(#[trigger] fs[k]) && !unreadable(prev, fs[k], reads[k]) {
        let k = choose|k: int|
            0 <= k < fs.len() && s == spot_of(#[trigger] fs[k]) && !unreadable(
                prev,
                fs[k],
                reads[k],
            );
        if unchanged(prev, fs[k]) {
            assert(fs[k].path == s.path);
        } else {
            let i = choose|i: int|
                0 <= i < p.changes.len() && spot(#[trigger] p.changes[i]) == Some(spot_of(fs[k]));
            assert(all[i] == p.changes[i]);
        }
    }
}

proof fn lemma_leftover_spots(
    prev: StateView,
    keys: Seq<Seq<char>>,
    fs: Seq<FileView>,
    consumed: Set<Seq<char>>,
    n: int,
)
    ensures
        forall|i: int|
            #![trigger leftovers(prev, keys, fs, consumed, n)[i]]
            0 <= i < leftovers(prev, keys, fs, consumed, n).len() ==> spot(
                leftovers(prev, keys, fs, consumed, n)[i],
            ) is None,
    decreases n,
{
    if n > 0 {
        lemma_leftover_spots(prev, keys, fs, consumed, n - 1);
        let before = leftovers(prev, keys, fs, consumed, n - 1);
        let cs = leftovers(prev, keys, fs, consumed, n);
        assert forall|i: int| #![trigger cs[i]] 0 <= i < cs.len() implies spot(cs[i]) is None by {
            if i < before.len() {
                assert(cs[i] == before[i]);
            }
        }
    }
}

} // verus!
