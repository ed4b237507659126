//! What the comparison of recorded and crawled files asks for, file by file.

use vstd::prelude::*;

use super::state::{
    changes_of, consumed_by, crawled_path, decision, leftovers, moved_from, planned, progress,
    ChangeView, FileView, StateView,
};
use super::state_laws::{
    lemma_every_document_once, lemma_one_file_each, lemma_touched_are_on_record, proper_input,
    spot, spot_of, touched, touched_once, unchanged, };
use crate::crawler::FileKind;
use crate::index::builder::xxh3;
use crate::index::DocStatus;

verus! {

/// What a file asks for is in the plan.
proof fn lemma_own_changes(
    prev: StateView,
    fs: Seq<FileView>,
    reads: Seq<Option<Seq<u8>>>,
    n: int,
    k: int,
    x: int,
) -> (i: int)
    requires
        0 <= k < n <= fs.len(),
        ({
            let d = decision(prev, fs, progress(prev, fs, reads, k).consumed, fs[k]);
            0 <= x < changes_of(d, fs[k], reads[k]).len()
        }),
    ensures
        0 <= i < progress(prev, fs, reads, n).changes.len(),
        progress(prev, fs, reads, n).changes[i] == changes_of(
            decision(prev, fs, progress(prev, fs, reads, k).consumed, fs[k]),
            fs[k],
            reads[k],
        )[x],
    decreases n,
{
    let before = progress(prev, fs, reads, n - 1).changes;
    if k < n - 1 {
        let i = lemma_own_changes(prev, fs, reads, n - 1, k, x);
        assert(progress(prev, fs, reads, n).changes[i] == before[i]);
        i
    } else {
        before.len() + x
    }
}

proof fn lemma_own_planned(
    prev: StateView,
    keys: Seq<Seq<char>>,
    fs: Seq<FileView>,
    reads: Seq<Option<Seq<u8>>>,
    k: int,
    x: int,
)
    requires
        0 <= k < fs.len(),
        ({
            let d = decision(prev, fs, progress(prev, fs, reads, k).consumed, fs[k]);
            0 <= x < changes_of(d, fs[k], reads[k]).len()
        }),
    ensures
        planned(prev, keys, fs, reads).contains(
            changes_of(
                decision(prev, fs, progress(prev, fs, reads, k).consumed, fs[k]),
                fs[k],
                reads[k],
            )[x],
        ),
{
    let i = lemma_own_changes(prev, fs, reads, fs.len() as int, k, x);
    let all = planned(prev, keys, fs, reads);
    assert(all[i] == progress(prev, fs, reads, fs.len() as int).changes[i]);
}

/// No document is dealt with twice.
proof fn lemma_once(
    prev: StateView,
    keys: Seq<Seq<char>>,
    fs: Seq<FileView>,
    reads: Seq<Option<Seq<u8>>>,
)
    requires
        proper_input(prev, keys, fs),
    ensures
        touched_once(planned(prev, keys, fs, reads)),
{
    let all = planned(prev, keys, fs, reads);
    if keys.len() > 0 {
        assert(keys.contains(keys[0]));
        lemma_every_document_once(prev, keys, fs, reads, keys[0]);
    } else {
        assert forall|i: int| 0 <= i < all.len() implies touched(#[trigger] all[i]) is None by {
            if touched(all[i]) is Some {
                lemma_touched_are_on_record(prev, keys, fs, reads, i);
                let doc = touched(all[i])->Some_0;
                let p = choose|p: Seq<char>|
                    prev.by_path.contains_key(p) && (#[trigger] prev.by_path[p]).doc_id == doc;
                assert(keys.contains(p));
            }
        }
    }
}

/// The change is in the plan, and no other deals with its document or its path.
pub open spec fn only(plan: Seq<ChangeView>, c: ChangeView) -> bool {
    &&& plan.contains(c)
    &&& forall|i: int|
        #![trigger plan[i]]
        0 <= i < plan.len() ==> match (plan[i], c) {
            (ChangeView::Delete(a), ChangeView::Delete(b)) => true,
            (ChangeView::Delete(a), ChangeView::Patch { doc_id, .. }) => a != doc_id,
            (ChangeView::Patch { doc_id, .. }, ChangeView::Delete(b)) => doc_id != b,
            (
                ChangeView::Patch { doc_id: a, path: p, .. },
                ChangeView::Patch { doc_id: b, path: q, .. },
            ) => plan[i] == c || a != b && p != q,
            (ChangeView::Patch { path: p, .. }, ChangeView::Reindex { path: q, .. }) => p != q,
            (ChangeView::Reindex { path: p, .. }, ChangeView::Patch { path: q, .. }) => p != q,
            (ChangeView::Reindex { path: p, .. }, ChangeView::Reindex { path: q, .. }) => plan[i]
                == c || p != q,
            _ => true,
        }
}

proof fn lemma_only(
    prev: StateView,
    keys: Seq<Seq<char>>,
    fs: Seq<FileView>,
    reads: Seq<Option<Seq<u8>>>,
    c: ChangeView,
)
    requires
        proper_input(prev, keys, fs),
        planned(prev, keys, fs, reads).contains(c),
    ensures
        only(planned(prev, keys, fs, reads), c),
{
    let all = planned(prev, keys, fs, reads);
    let x = choose|x: int| 0 <= x < all.len() && all[x] == c;
    lemma_once(prev, keys, fs, reads);
    if spot(c) is Some {
        lemma_one_file_each(prev, keys, fs, reads, x, spot(c)->Some_0);
    }
    assert forall|i: int| #![trigger all[i]] 0 <= i < all.len() implies match (all[i], c) {
        (ChangeView::Delete(a), ChangeView::Delete(b)) => true,
        (ChangeView::Delete(a), ChangeView::Patch { doc_id, .. }) => a != doc_id,
        (ChangeView::Patch { doc_id, .. }, ChangeView::Delete(b)) => doc_id != b,
        (
            ChangeView::Patch { doc_id: a, path: p, .. },
            ChangeView::Patch { doc_id: b, path: q, .. },
        ) => all[i] == c || a != b && p != q,
        (ChangeView::Patch { path: p, .. }, ChangeView::Reindex { path: q, .. }) => p != q,
        (ChangeView::Reindex { path: p, .. }, ChangeView::Patch { path: q, .. }) => p != q,
        (ChangeView::Reindex { path: p, .. }, ChangeView::Reindex { path: q, .. }) => all[i] == c
            || p != q,
        _ => true,
    } by {
        if i != x {
            if i < x {
                assert(touched(all[i]) is Some ==> touched(all[i]) != touched(all[x]));
            } else {
                assert(touched(all[x]) is Some ==> touched(all[x]) != touched(all[i]));
            }
        }
    }
}

/// A text file on record that was rewritten in place is judged by its bytes alone,
/// whatever their number: where they hash to what is on record, the document is kept
/// and given the new metadata; where they do not, it is deleted and the file indexed
/// anew from these bytes; where the file cannot be read, the document is deleted and
/// nothing takes its place.
pub proof fn lemma_rewritten_file(
    prev: StateView,
    keys: Seq<Seq<char>>,
    fs: Seq<FileView>,
    reads: Seq<Option<Seq<u8>>>,
    k: int,
)
    requires
        proper_input(prev, keys, fs),
        0 <= k < fs.len(),
        prev.by_path.contains_key(fs[k].path),
        ({
            let r = prev.by_path[fs[k].path];
            &&& r.inode != fs[k].inode || r.mtime_nanos != fs[k].mtime || r.size != fs[k].size
            &&& fs[k].kind == FileKind::Text
            &&& r.status == DocStatus::Indexed || r.status == DocStatus::Skipped
        }),
    ensures
        ({
            let f = fs[k];
            let r = prev.by_path[f.path];
            let plan = planned(prev, keys, fs, reads);
            let patch = ChangeView::Patch {
                doc_id: r.doc_id,
                inode: f.inode,
                mtime_nanos: f.mtime,
                size: f.size,
                path: f.path,
            };
            match reads[k] {
                Some(b) => {
                    let reindex = ChangeView::Reindex {
                        path: f.path,
                        kind: f.kind,
                        inode: f.inode,
                        mtime_nanos: f.mtime,
                        size: f.size,
                        bytes: Some(b),
                    };
                    &&& xxh3(b) == r.content_hash ==> only(plan, patch)
                    &&& xxh3(b) != r.content_hash ==> only(
                        plan,
                        ChangeView::Delete(r.doc_id),
                    ) && only(plan, reindex)
                },
                None => only(plan, ChangeView::Delete(r.doc_id)) && forall|i: int|
                    #![trigger plan[i]]
                    0 <= i < plan.len() ==> (spot(plan[i]) matches Some(s) ==> s.path != f.path),
            }
        }),
{
    let f = fs[k];
    let r = prev.by_path[f.path];
    let plan = planned(prev, keys, fs, reads);
    lemma_own_planned(prev, keys, fs, reads, k, 0);
    match reads[k] {
        Some(b) => {
            if xxh3(b) == r.content_hash {
                let patch = ChangeView::Patch {
                    doc_id: r.doc_id,
                    inode: f.inode,
                    mtime_nanos: f.mtime,
                    size: f.size,
                    path: f.path,
                };
                assert(plan.contains(patch));
                lemma_only(prev, keys, fs, reads, patch);
            } else {
                lemma_own_planned(prev, keys, fs, reads, k, 1);
                let reindex = ChangeView::Reindex {
                    path: f.path,
                    kind: f.kind,
                    inode: f.inode,
                    mtime_nanos: f.mtime,
                    size: f.size,
                    bytes: Some(b),
                };
                assert(plan.contains(ChangeView::Delete(r.doc_id)));
                assert(plan.contains(reindex));
                lemma_only(prev, keys, fs, reads, ChangeView::Delete(r.doc_id));
                lemma_only(prev, keys, fs, reads, reindex);
            }
        },
        None => {
            assert(plan.contains(ChangeView::Delete(r.doc_id)));
            lemma_only(prev, keys, fs, reads, ChangeView::Delete(r.doc_id));
            lemma_nothing_at(prev, keys, fs, reads, k);
        },
    }
}

/// Where a file asks for nothing at its path, nothing is put there.
proof fn lemma_nothing_at(
    prev: StateView,
    keys: Seq<Seq<char>>,
    fs: Seq<FileView>,
    reads: Seq<Option<Seq<u8>>>,
    k: int,
)
    requires
        proper_input(prev, keys, fs),
        0 <= k < fs.len(),
        ({
            let d = decision(prev, fs, progress(prev, fs, reads, k).consumed, fs[k]);
            forall|x: int|
                0 <= x < changes_of(d, fs[k], reads[k]).len() ==> spot(
                    #[trigger] changes_of(d, fs[k], reads[k])[x],
                ) is None
        }),
    ensures
        ({
            let plan = planned(prev, keys, fs, reads);
            forall|i: int|
                #![trigger plan[i]]
                0 <= i < plan.len() ==> (spot(plan[i]) matches Some(s) ==> s.path != fs[k].path)
        }),
{
    let plan = planned(prev, keys, fs, reads);
    assert forall|i: int| #![trigger plan[i]] 0 <= i < plan.len() implies (spot(
        plan[i],
    ) matches Some(s) ==> s.path != fs[k].path) by {
        if spot(plan[i]) is Some {
            let j = lemma_asked_by(prev, keys, fs, reads, i);
            if j < k {
                assert(fs[j].path != fs[k].path);
            } else if k < j {
                assert(fs[k].path != fs[j].path);
            }
        }
    }
}

/// The file that a change comes from, and the place among what it asks for.
proof fn lemma_progress_asked(
    prev: StateView,
    fs: Seq<FileView>,
    reads: Seq<Option<Seq<u8>>>,
    n: int,
    i: int,
) -> (r: (int, int))
    requires
        0 <= n <= fs.len(),
        0 <= i < progress(prev, fs, reads, n).changes.len(),
    ensures
        0 <= r.0 < n,
        ({
            let d = decision(prev, fs, progress(prev, fs, reads, r.0).consumed, fs[r.0]);
            &&& 0 <= r.1 < changes_of(d, fs[r.0], reads[r.0]).len()
            &&& progress(prev, fs, reads, n).changes[i] == changes_of(
                d,
                fs[r.0],
                reads[r.0],
            )[r.1]
        }),
    decreases n,
{
    let before = progress(prev, fs, reads, n - 1).changes;
    if i < before.len() {
        assert(progress(prev, fs, reads, n).changes[i] == before[i]);
        lemma_progress_asked(prev, fs, reads, n - 1, i)
    } else {
        (n - 1, i - before.len())
    }
}

proof fn lemma_leftover_is_delete(
    prev: StateView,
    keys: Seq<Seq<char>>,
    fs: Seq<FileView>,
    consumed: Set<Seq<char>>,
    n: int,
    i: int,
)
    requires
        0 <= i < leftovers(prev, keys, fs, consumed, n).len(),
    ensures
        leftovers(prev, keys, fs, consumed, n)[i] is Delete,
    decreases n,
{
    let before = leftovers(prev, keys, fs, consumed, n - 1);
    if i < before.len() {
        lemma_leftover_is_delete(prev, keys, fs, consumed, n - 1, i);
    }
}

/// A change that puts a file somewhere comes from the crawled file at that path.
proof fn lemma_asked_by(
    prev: StateView,
    keys: Seq<Seq<char>>,
    fs: Seq<FileView>,
    reads: Seq<Option<Seq<u8>>>,
    i: int,
) -> (k: int)
    requires
        0 <= i < planned(prev, keys, fs, reads).len(),
        spot(planned(prev, keys, fs, reads)[i]) is Some,
    ensures
        0 <= k < fs.len(),
        spot(planned(prev, keys, fs, reads)[i]) == Some(spot_of(fs[k])),
        ({
            let d = decision(prev, fs, progress(prev, fs, reads, k).consumed, fs[k]);
            exists|x: int|
                0 <= x < changes_of(d, fs[k], reads[k]).len() && planned(prev, keys, fs, reads)[i]
                    == #[trigger] changes_of(d, fs[k], reads[k])[x]
        }),
{
    let n = fs.len() as int;
    let p = progress(prev, fs, reads, n);
    let all = planned(prev, keys, fs, reads);
    if i >= p.changes.len() {
        let j = i - p.changes.len();
        assert(all[i] == leftovers(prev, keys, fs, p.consumed, keys.len() as int)[j]);
        lemma_leftover_is_delete(prev, keys, fs, p.consumed, keys.len() as int, j);
    }
    assert(all[i] == p.changes[i]);
    let (k, x) = lemma_progress_asked(prev, fs, reads, n, i);
    let d = decision(prev, fs, progress(prev, fs, reads, k).consumed, fs[k]);
    assert(changes_of(d, fs[k], reads[k])[x] == all[i]);
    k
}

/// A file on record that cannot be compared by content, because it is no text or was
/// none, and whose metadata changed is deleted and recorded anew.
pub proof fn lemma_replaced_file(
    prev: StateView,
    keys: Seq<Seq<char>>,
    fs: Seq<FileView>,
    reads: Seq<Option<Seq<u8>>>,
    k: int,
)
    requires
        proper_input(prev, keys, fs),
        0 <= k < fs.len(),
        prev.by_path.contains_key(fs[k].path),
        ({
            let r = prev.by_path[fs[k].path];
            &&& r.inode != fs[k].inode || r.mtime_nanos != fs[k].mtime || r.size != fs[k].size
            &&& fs[k].kind != FileKind::Text || (r.status != DocStatus::Indexed && r.status
                != DocStatus::Skipped)
        }),
    ensures
        only(
            planned(prev, keys, fs, reads),
            ChangeView::Delete(prev.by_path[fs[k].path].doc_id),
        ),
        only(
            planned(prev, keys, fs, reads),
            (ChangeView::Reindex {
                path: fs[k].path,
                kind: fs[k].kind,
                inode: fs[k].inode,
                mtime_nanos: fs[k].mtime,
                size: fs[k].size,
                bytes: None,
            }),
        ),
{
    let f = fs[k];
    let d = ChangeView::Delete(prev.by_path[f.path].doc_id);
    let c = ChangeView::Reindex {
        path: f.path,
        kind: f.kind,
        inode: f.inode,
        mtime_nanos: f.mtime,
        size: f.size,
        bytes: None,
    };
    lemma_own_planned(prev, keys, fs, reads, k, 0);
    lemma_own_planned(prev, keys, fs, reads, k, 1);
    lemma_only(prev, keys, fs, reads, d);
    lemma_only(prev, keys, fs, reads, c);
}

/// A file whose metadata is on record is left alone: no change deals with its document,
/// and none puts anything at its path.
pub proof fn lemma_unchanged_file(
    prev: StateView,
    keys: Seq<Seq<char>>,
    fs: Seq<FileView>,
    reads: Seq<Option<Seq<u8>>>,
    k: int,
)
    requires
        proper_input(prev, keys, fs),
        0 <= k < fs.len(),
        prev.by_path.contains_key(fs[k].path),
        prev.by_path[fs[k].path].inode == fs[k].inode,
        prev.by_path[fs[k].path].mtime_nanos == fs[k].mtime,
        prev.by_path[fs[k].path].size == fs[k].size,
    ensures
        ({
            let plan = planned(prev, keys, fs, reads);
            forall|i: int|
                #![trigger plan[i]]
                0 <= i < plan.len() ==> match plan[i] {
                    ChangeView::Delete(d) => d != prev.by_path[fs[k].path].doc_id,
                    ChangeView::Patch { doc_id, path, .. } => doc_id
                        != prev.by_path[fs[k].path].doc_id && path != fs[k].path,
                    ChangeView::Reindex { path, .. } => path != fs[k].path,
                }
        }),
{
    let plan = planned(prev, keys, fs, reads);
    lemma_every_document_once(prev, keys, fs, reads, fs[k].path);
    lemma_nothing_at(prev, keys, fs, reads, k);
    assert(unchanged(prev, fs[k]));
    assert forall|i: int| #![trigger plan[i]] 0 <= i < plan.len() implies match plan[i] {
        ChangeView::Delete(d) => d != prev.by_path[fs[k].path].doc_id,
        ChangeView::Patch { doc_id, path, .. } => doc_id != prev.by_path[fs[k].path].doc_id && path
            != fs[k].path,
        ChangeView::Reindex { path, .. } => path != fs[k].path,
    } by {
        assert(touched(plan[i]) != Some(prev.by_path[fs[k].path].doc_id));
    }
}

/// The paths that files were moved from are those on record for their inodes.
proof fn lemma_consumed(
    prev: StateView,
    fs: Seq<FileView>,
    reads: Seq<Option<Seq<u8>>>,
    n: int,
    q: Seq<char>,
) -> (k: int)
    requires
        0 <= n <= fs.len(),
        progress(prev, fs, reads, n).consumed.contains(q),
    ensures
        0 <= k < n,
        !prev.by_path.contains_key(fs[k].path),
        fs[k].inode != 0,
        prev.by_inode.contains_key(fs[k].inode),
        prev.by_inode[fs[k].inode] == q,
    decreases n,
{
    let p = progress(prev, fs, reads, n - 1);
    if n > 0 && p.consumed.contains(q) {
        lemma_consumed(prev, fs, reads, n - 1, q)
    } else {
        let d = decision(prev, fs, p.consumed, fs[n - 1]);
        assert(consumed_by(d, reads[n - 1]) == Some(q));
        n - 1
    }
}

/// The file at a new path was moved from the path `q` on record for its inode: nothing
/// was crawled there, and no file before it has an inode on record for that path.
pub open spec fn moved(prev: StateView, fs: Seq<FileView>, k: int, q: Seq<char>) -> bool {
    &&& 0 <= k < fs.len()
    &&& !prev.by_path.contains_key(fs[k].path)
    &&& fs[k].inode != 0
    &&& prev.by_inode.contains_key(fs[k].inode)
    &&& prev.by_inode[fs[k].inode] == q
    &&& prev.by_path.contains_key(q)
    &&& forall|i: int| 0 <= i < fs.len() ==> (#[trigger] fs[i]).path != q
    &&& forall|i: int|
        0 <= i < k && prev.by_inode.contains_key((#[trigger] fs[i]).inode) ==> prev.by_inode[fs[i].inode]
            != q
}

/// A moved file keeps its document where its time and size are those on record, or its
/// bytes hash to what is on record; else the document is deleted, and the file indexed
/// anew, from its bytes if they were read for the comparison.
pub proof fn lemma_moved_file(
    prev: StateView,
    keys: Seq<Seq<char>>,
    fs: Seq<FileView>,
    reads: Seq<Option<Seq<u8>>>,
    k: int,
    q: Seq<char>,
)
    requires
        proper_input(prev, keys, fs),
        moved(prev, fs, k, q),
    ensures
        ({
            let f = fs[k];
            let r = prev.by_path[q];
            let plan = planned(prev, keys, fs, reads);
            let read = f.kind == FileKind::Text && (r.status == DocStatus::Indexed || r.status
                == DocStatus::Skipped) && reads[k] is Some;
            if r.mtime_nanos == f.mtime && r.size == f.size || read && xxh3(reads[k]->Some_0)
                == r.content_hash {
                only(
                    plan,
                    ChangeView::Patch {
                        doc_id: r.doc_id,
                        inode: f.inode,
                        mtime_nanos: f.mtime,
                        size: f.size,
                        path: f.path,
                    },
                )
            } else {
                &&& only(
                    plan,
                    ChangeView::Reindex {
                        path: f.path,
                        kind: f.kind,
                        inode: f.inode,
                        mtime_nanos: f.mtime,
                        size: f.size,
                        bytes: if read {
                            reads[k]
                        } else {
                            None
                        },
                    },
                )
                &&& read || f.kind != FileKind::Text || (r.status != DocStatus::Indexed
                    && r.status != DocStatus::Skipped) ==> only(plan, ChangeView::Delete(r.doc_id))
            }
        }),
{
    let f = fs[k];
    let r = prev.by_path[q];
    let plan = planned(prev, keys, fs, reads);
    let before = progress(prev, fs, reads, k).consumed;
    if before.contains(q) {
        let j = lemma_consumed(prev, fs, reads, k, q);
        assert(prev.by_inode[fs[j].inode] != q);
    }
    assert(moved_from(prev, fs, before, f) == Some(q));
    lemma_own_planned(prev, keys, fs, reads, k, 0);
    let d = decision(prev, fs, before, f);
    let own = changes_of(d, f, reads[k]);
    lemma_only(prev, keys, fs, reads, own[0]);
    if own.len() > 1 {
        lemma_own_planned(prev, keys, fs, reads, k, 1);
        lemma_only(prev, keys, fs, reads, own[1]);
    }
}

/// A file at a new path whose inode is on record for no path, for one that is not on
/// record, or for one that was crawled again, is new: it is indexed.
pub proof fn lemma_new_file(
    prev: StateView,
    keys: Seq<Seq<char>>,
    fs: Seq<FileView>,
    reads: Seq<Option<Seq<u8>>>,
    k: int,
)
    requires
        proper_input(prev, keys, fs),
        0 <= k < fs.len(),
        !prev.by_path.contains_key(fs[k].path),
        fs[k].inode == 0 || !prev.by_inode.contains_key(fs[k].inode) || !prev.by_path.contains_key(
            prev.by_inode[fs[k].inode],
        ) || exists|i: int|
            0 <= i < fs.len() && (#[trigger] fs[i]).path == prev.by_inode[fs[k].inode],
    ensures
        only(
            planned(prev, keys, fs, reads),
            (ChangeView::Reindex {
                path: fs[k].path,
                kind: fs[k].kind,
                inode: fs[k].inode,
                mtime_nanos: fs[k].mtime,
                size: fs[k].size,
                bytes: None,
            }),
        ),
{
    let f = fs[k];
    lemma_own_planned(prev, keys, fs, reads, k, 0);
    lemma_only(
        prev,
        keys,
        fs,
        reads,
        ChangeView::Reindex {
            path: f.path,
            kind: f.kind,
            inode: f.inode,
            mtime_nanos: f.mtime,
            size: f.size,
            bytes: None,
        },
    );
}

/// A file on record that was not crawled, and whose path is on record for the inode of no
/// crawled file at a new path, is gone: its document is deleted.
pub proof fn lemma_gone_file(
    prev: StateView,
    keys: Seq<Seq<char>>,
    fs: Seq<FileView>,
    reads: Seq<Option<Seq<u8>>>,
    q: Seq<char>,
)
    requires
        proper_input(prev, keys, fs),
        prev.by_path.contains_key(q),
        forall|i: int| 0 <= i < fs.len() ==> (#[trigger] fs[i]).path != q,
        forall|i: int|
            0 <= i < fs.len() && !prev.by_path.contains_key((#[trigger] fs[i]).path) && fs[i].inode
                != 0 && prev.by_inode.contains_key(fs[i].inode) ==> prev.by_inode[fs[i].inode] != q,
    ensures
        only(planned(prev, keys, fs, reads), ChangeView::Delete(prev.by_path[q].doc_id)),
{
    let n = fs.len() as int;
    let p = progress(prev, fs, reads, n);
    let all = planned(prev, keys, fs, reads);
    let rest = leftovers(prev, keys, fs, p.consumed, keys.len() as int);
    assert(keys.contains(q));
    let x = choose|x: int| 0 <= x < keys.len() && keys[x] == q;
    if p.consumed.contains(q) {
        let j = lemma_consumed(prev, fs, reads, n, q);
    }
    let i = lemma_left_over(prev, keys, fs, p.consumed, keys.len() as int, x);
    assert(all[p.changes.len() + i] == rest[i]);
    lemma_only(prev, keys, fs, reads, ChangeView::Delete(prev.by_path[q].doc_id));
}

proof fn lemma_left_over(
    prev: StateView,
    keys: Seq<Seq<char>>,
    fs: Seq<FileView>,
    consumed: Set<Seq<char>>,
    n: int,
    x: int,
) -> (i: int)
    requires
        0 <= x < n <= keys.len(),
        !crawled_path(fs, keys[x]),
        !consumed.contains(keys[x]),
    ensures
        0 <= i < leftovers(prev, keys, fs, consumed, n).len(),
        leftovers(prev, keys, fs, consumed, n)[i] == ChangeView::Delete(
            prev.by_path[keys[x]].doc_id,
        ),
    decreases n,
{
    let before = leftovers(prev, keys, fs, consumed, n - 1);
    if x < n - 1 {
        let i = lemma_left_over(prev, keys, fs, consumed, n - 1, x);
        assert(leftovers(prev, keys, fs, consumed, n)[i] == before[i]);
        i
    } else {
        before.len() as int
    }
}

/// Why a document is kept for a file: it is on record at the path of the file, or at the
/// one on record for its inode, which was not crawled; and the time and size of a moved
/// file are those on record, or the bytes that were read hash to what is on record.
pub open spec fn kept_rightly(
    prev: StateView,
    fs: Seq<FileView>,
    reads: Seq<Option<Seq<u8>>>,
    k: int,
    q: Seq<char>,
    doc: u32,
) -> bool {
    let f = fs[k];
    let r = prev.by_path[q];
    &&& 0 <= k < fs.len()
    &&& prev.by_path.contains_key(q)
    &&& r.doc_id == doc
    &&& q == f.path || (f.inode != 0 && prev.by_inode.contains_key(f.inode)
        && prev.by_inode[f.inode] == q && !prev.by_path.contains_key(f.path) && forall|i: int|
        0 <= i < fs.len() ==> (#[trigger] fs[i]).path != q)
    &&& q != f.path && r.mtime_nanos == f.mtime && r.size == f.size || (reads[k] matches Some(b)
        && xxh3(b) == r.content_hash && f.kind == FileKind::Text && (r.status == DocStatus::Indexed
        || r.status == DocStatus::Skipped))
}

/// A document is kept by a patch only for a file that was moved with the recorded time and
/// size, or whose bytes hash to what is on record.
pub proof fn lemma_patched_rightly(
    prev: StateView,
    keys: Seq<Seq<char>>,
    fs: Seq<FileView>,
    reads: Seq<Option<Seq<u8>>>,
    i: int,
)
    requires
        0 <= i < planned(prev, keys, fs, reads).len(),
        planned(prev, keys, fs, reads)[i] is Patch,
    ensures
        planned(prev, keys, fs, reads)[i] matches ChangeView::Patch {
            doc_id,
            inode,
            mtime_nanos,
            size,
            path,
        } && exists|k: int, q: Seq<char>| #[trigger]
            kept_rightly(prev, fs, reads, k, q, doc_id) && fs[k].path == path && fs[k].inode
                == inode && fs[k].mtime == mtime_nanos && fs[k].size == size,
{
    let c = planned(prev, keys, fs, reads)[i];
    let k = lemma_asked_by(prev, keys, fs, reads, i);
    let f = fs[k];
    let before = progress(prev, fs, reads, k).consumed;
    if prev.by_path.contains_key(f.path) {
        assert(kept_rightly(prev, fs, reads, k, f.path, c->Patch_doc_id));
    } else {
        let q = moved_from(prev, fs, before, f)->Some_0;
        assert(kept_rightly(prev, fs, reads, k, q, c->Patch_doc_id));
    }
}

/// A file is indexed anew only where it has to be: it is at a path that is not on record,
/// or its metadata is not that on record, and bytes that were read do not hash to what is
/// on record.
pub proof fn lemma_reindexed_rightly(
    prev: StateView,
    keys: Seq<Seq<char>>,
    fs: Seq<FileView>,
    reads: Seq<Option<Seq<u8>>>,
    i: int,
)
    requires
        0 <= i < planned(prev, keys, fs, reads).len(),
        planned(prev, keys, fs, reads)[i] is Reindex,
    ensures
        planned(prev, keys, fs, reads)[i] matches ChangeView::Reindex {
            path,
            kind,
            inode,
            mtime_nanos,
            size,
            bytes,
        } && exists|k: int| 0 <= k < fs.len() && (#[trigger] fs[k]).path == path && fs[k].kind
            == kind && fs[k].inode == inode && fs[k].mtime == mtime_nanos && fs[k].size == size && (
        bytes is Some ==> bytes == reads[k]) && (prev.by_path.contains_key(path) ==> {
            let r = prev.by_path[path];
            &&& r.inode != inode || r.mtime_nanos != mtime_nanos || r.size != size
            &&& kind == FileKind::Text && (r.status == DocStatus::Indexed || r.status
                == DocStatus::Skipped) ==> (bytes matches Some(b) && xxh3(b) != r.content_hash)
        }),
{
    let k = lemma_asked_by(prev, keys, fs, reads, i);
    assert(fs[k].path == fs[k].path);
}

/// The bytes that have to be read of a file: those of a text file whose metadata changed
/// and whose document was read before.
pub open spec fn bytes_wanted(
    prev: StateView,
    fs: Seq<FileView>,
    reads: Seq<Option<Seq<u8>>>,
    k: int,
) -> nat {
    let f = fs[k];
    let r = if prev.by_path.contains_key(f.path) {
        prev.by_path[f.path]
    } else {
        prev.by_path[prev.by_inode[f.inode]]
    };
    let known = prev.by_path.contains_key(f.path) && (r.inode != f.inode || r.mtime_nanos
        != f.mtime || r.size != f.size);
    let moved_here = (exists|q: Seq<char>| moved(prev, fs, k, q)) && (r.mtime_nanos != f.mtime
        || r.size != f.size);
    if (known || moved_here) && f.kind == FileKind::Text && (r.status == DocStatus::Indexed
        || r.status == DocStatus::Skipped) {
        match reads[k] {
            Some(b) => b.len(),
            None => 0,
        }
    } else {
        0
    }
}

/// The sum over the first `n` files.
pub open spec fn wanted_upto(
    prev: StateView,
    fs: Seq<FileView>,
    reads: Seq<Option<Seq<u8>>>,
    n: int,
) -> nat
    decreases n,
{
    if n <= 0 {
        0
    } else {
        wanted_upto(prev, fs, reads, n - 1) + bytes_wanted(prev, fs, reads, n - 1)
    }
}

/// No two crawled files have an inode that is on record for the same path.
pub open spec fn inodes_apart(prev: StateView, fs: Seq<FileView>) -> bool {
    forall|i: int, j: int|
        #![trigger fs[i], fs[j]]
        0 <= i < j < fs.len() && prev.by_inode.contains_key(fs[i].inode)
            && prev.by_inode.contains_key(fs[j].inode) ==> prev.by_inode[fs[i].inode]
            != prev.by_inode[fs[j].inode]
}

/// What is counted as read is what had to be read, each file once.
pub proof fn lemma_bytes_read(
    prev: StateView,
    fs: Seq<FileView>,
    reads: Seq<Option<Seq<u8>>>,
    n: int,
)
    requires
        0 <= n <= fs.len(),
        inodes_apart(prev, fs),
    ensures
        progress(prev, fs, reads, n).bytes_read == wanted_upto(prev, fs, reads, n),
    decreases n,
{
    if n > 0 {
        lemma_bytes_read(prev, fs, reads, n - 1);
        let k = n - 1;
        let f = fs[k];
        let before = progress(prev, fs, reads, k).consumed;
        let d = decision(prev, fs, before, f);
        if !prev.by_path.contains_key(f.path) && f.inode != 0 && prev.by_inode.contains_key(f.inode) {
            let q = prev.by_inode[f.inode];
            if before.contains(q) {
                let j = lemma_consumed(prev, fs, reads, k, q);
                assert(fs[j].path == fs[j].path && fs[k].path == fs[k].path);
                assert(false);
            }
            if d is Compare || d is Move || d is Replace {
                assert(moved(prev, fs, k, q)) by {
                    assert forall|i: int|
                        0 <= i < k && prev.by_inode.contains_key(
                            (#[trigger] fs[i]).inode,
                        ) implies prev.by_inode[fs[i].inode] != q by {
                        assert(fs[k].path == fs[k].path);
                    }
                }
            }
        }
    }
}

} // verus!
