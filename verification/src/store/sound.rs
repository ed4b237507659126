//! Every commit is safe against crashes.
//!
//! What the four kinds of commit write and remove fits together with the
//! manifests before and behind them, so that [`super::disk`] applies to each.

use vstd::prelude::*;

use super::commit::{affected, tombstoned, NewFile};
use super::disk::{is_new, refers, sound};
use super::flush::Flushed;
use super::merge::{seg_index, PreparedMerge};
use super::merge_commit::{
    all_finished, all_parts, dropped_files, finished, first_absent, merge_base, merges_hold,
    replaced, retained,
};
use super::merge_plan::ids_unique;
use super::names::{is_transient, lemma_name_is_plain, lemma_names_differ, name_of, IndexFile};
use super::protocol::Plan;
use super::reader::{IndexView, PatchView};
use super::update::{
    all_files, entries_of, file_views, manifest_files, overlay_after, overlay_next,
    segment_file_list, starts_at, update_holds,
};
use super::{
    del_file, doc_file, files_of, idx_file, in_segments, overlay_file, referenced, MANIFEST,
};
use crate::format::manifest::{encoded, lemma_entry, valid, ManifestView, SegmentEntry};
use crate::store::commit::Commit;
use crate::text::views;

verus! {

/// A segment has this id.
pub open spec fn has_id(es: Seq<SegmentEntry>, id: u32) -> bool {
    exists|i: int| 0 <= i < es.len() && (#[trigger] es[i]).segment_id == id
}

/// A segment has this id and this generation of deletions.
pub open spec fn has_gen(es: Seq<SegmentEntry>, id: u32, gen: u32) -> bool {
    exists|i: int|
        0 <= i < es.len() && (#[trigger] es[i]).segment_id == id && es[i].del_gen == gen
}

/// The manifest refers to the file.
pub open spec fn file_of(m: ManifestView, f: IndexFile) -> bool {
    match f {
        IndexFile::Idx(id) => has_id(m.segments, id),
        IndexFile::Doc(id) => has_id(m.segments, id),
        IndexFile::Del(id, gen) => gen > 0 && has_gen(m.segments, id, gen),
        IndexFile::Overlay(gen) => gen > 0 && m.state_gen == gen,
    }
}

/// The manifest, if there is one, refers to the file.
pub open spec fn file_before(old: Option<ManifestView>, f: IndexFile) -> bool {
    old matches Some(m) && file_of(m, f)
}

/// A name that a manifest refers to is that of one of its files.
proof fn lemma_named(m: ManifestView, n: Seq<char>) -> (f: IndexFile)
    requires
        referenced(m, n),
    ensures
        file_of(m, f),
        name_of(f) == n,
{
    if in_segments(m.segments, m.segments.len() as int, n) {
        let i = choose|i: int|
            0 <= i < m.segments.len() && files_of(#[trigger] m.segments[i]).contains(n);
        let e = m.segments[i];
        let own = files_of(e);
        let k = choose|k: int| 0 <= k < own.len() && own[k] == n;
        if k == 0 {
            IndexFile::Idx(e.segment_id)
        } else if k == 1 {
            IndexFile::Doc(e.segment_id)
        } else {
            IndexFile::Del(e.segment_id, e.del_gen)
        }
    } else {
        IndexFile::Overlay(m.state_gen)
    }
}

/// A manifest refers to the name of a file exactly where the file is its own.
pub(crate) proof fn lemma_file_named(m: ManifestView, f: IndexFile)
    ensures
        referenced(m, name_of(f)) <==> file_of(m, f),
{
    let total = m.segments.len() as int;
    if file_of(m, f) {
        match f {
            IndexFile::Idx(id) => {
                let i = choose|i: int|
                    0 <= i < m.segments.len() && (#[trigger] m.segments[i]).segment_id == id;
                assert(files_of(m.segments[i])[0] == name_of(f));
                assert(files_of(m.segments[i]).contains(name_of(f)));
            },
            IndexFile::Doc(id) => {
                let i = choose|i: int|
                    0 <= i < m.segments.len() && (#[trigger] m.segments[i]).segment_id == id;
                assert(files_of(m.segments[i])[1] == name_of(f));
                assert(files_of(m.segments[i]).contains(name_of(f)));
            },
            IndexFile::Del(id, gen) => {
                let i = choose|i: int|
                    0 <= i < m.segments.len() && (#[trigger] m.segments[i]).segment_id == id
                        && m.segments[i].del_gen == gen;
                assert(files_of(m.segments[i])[2] == name_of(f));
                assert(files_of(m.segments[i]).contains(name_of(f)));
            },
            IndexFile::Overlay(_) => {},
        }
    }
    if referenced(m, name_of(f)) {
        let g = lemma_named(m, name_of(f));
        lemma_names_differ(f, g);
    }
}

/// A commit is safe where it writes files that are new, and that the manifest
/// behind it refers to, where that manifest refers to these and to files from
/// before alone, and where it removes only what that manifest does not refer to.
proof fn lemma_sound(
    old: Option<ManifestView>,
    next: ManifestView,
    plan: Plan,
    written: Seq<IndexFile>,
    removed: Seq<IndexFile>,
)
    requires
        plan.files.len() == written.len(),
        plan.retired.len() == removed.len(),
        forall|j: int|
            #![trigger written[j]]
            0 <= j < written.len() ==> plan.files[j].0 == name_of(written[j]) && file_of(
                next,
                written[j],
            ) && !file_before(old, written[j]),
        forall|i: int, j: int|
            0 <= i < j < written.len() ==> #[trigger] written[i] != #[trigger] written[j],
        forall|f: IndexFile| #[trigger]
            file_of(next, f) ==> written.contains(f) || file_before(old, f),
        forall|j: int|
            #![trigger removed[j]]
            0 <= j < removed.len() ==> plan.retired[j] == name_of(removed[j]) && !file_of(
                next,
                removed[j],
            ),
    ensures
        sound(old, next, plan),
{
    assert forall|j: int| #![trigger plan.files[j]] 0 <= j < plan.files.len() implies {
        let n = plan.files[j].0;
        !refers(old, n) && referenced(next, n) && !is_transient(n) && n != MANIFEST@
    } by {
        let f = written[j];
        lemma_name_is_plain(f);
        lemma_file_named(next, f);
        if let Some(m) = old {
            lemma_file_named(m, f);
        }
    }
    assert forall|i: int, j: int| 0 <= i < j < plan.files.len() implies (#[trigger] plan.files[i]).0
        != (#[trigger] plan.files[j]).0 by {
        assert(written[i] != written[j]);
        if name_of(written[i]) == name_of(written[j]) {
            lemma_names_differ(written[i], written[j]);
        }
    }
    assert forall|n: Seq<char>| #[trigger] referenced(next, n) implies is_new(plan, n) || refers(
        old,
        n,
    ) by {
        let f = lemma_named(next, n);
        if written.contains(f) {
            let j = choose|j: int| 0 <= j < written.len() && written[j] == f;
            assert(plan.files[j].0 == n);
        } else if let Some(m) = old {
            lemma_file_named(m, f);
        }
    }
    assert forall|n: Seq<char>| #[trigger] refers(old, n) implies !is_transient(n) && n
        != MANIFEST@ by {
        if let Some(m) = old {
            let f = lemma_named(m, n);
            lemma_name_is_plain(f);
        }
    }
    assert forall|j: int| #![trigger plan.retired[j]] 0 <= j < plan.retired.len() implies !referenced(
        next,
        plan.retired[j],
    ) && plan.retired[j] != MANIFEST@ by {
        lemma_name_is_plain(removed[j]);
        lemma_file_named(next, removed[j]);
    }
}

/// The plan of a commit.
pub open spec fn plan_of(c: Commit) -> Plan {
    Plan {
        files: file_views(c.files@),
        manifest: encoded(c.manifest@),
        retired: views(c.retired@),
    }
}

/// The files that deleting ids writes, of the first `n` segments.
spec fn del_writes(v: IndexView, ids: Seq<u32>, n: int) -> Seq<IndexFile>
    decreases n,
{
    if n <= 0 {
        Seq::empty()
    } else if affected(v, ids, n - 1) {
        let e = v.manifest.segments[n - 1];
        del_writes(v, ids, n - 1).push(IndexFile::Del(e.segment_id, (e.del_gen + 1) as u32))
    } else {
        del_writes(v, ids, n - 1)
    }
}

/// The files that deleting ids removes, of the first `n` segments.
spec fn del_drops(v: IndexView, ids: Seq<u32>, n: int) -> Seq<IndexFile>
    decreases n,
{
    if n <= 0 {
        Seq::empty()
    } else if affected(v, ids, n - 1) && v.manifest.segments[n - 1].del_gen > 0 {
        let e = v.manifest.segments[n - 1];
        del_drops(v, ids, n - 1).push(IndexFile::Del(e.segment_id, e.del_gen))
    } else {
        del_drops(v, ids, n - 1)
    }
}

/// The entry of a segment once ids are deleted.
spec fn entry_after(v: IndexView, ids: Seq<u32>, e: SegmentEntry, i: int) -> bool {
    let was = v.manifest.segments[i];
    &&& e.segment_id == was.segment_id
    &&& affected(v, ids, i) ==> was.del_gen < u32::MAX && e.del_gen == was.del_gen + 1
    &&& !affected(v, ids, i) ==> e == was
}

proof fn lemma_deletions_listed(
    v: IndexView,
    ids: Seq<u32>,
    entries: Seq<SegmentEntry>,
    files: Seq<NewFile>,
    retired: Seq<Seq<char>>,
    n: int,
)
    requires
        tombstoned(v, ids, entries, files, retired, n),
        0 <= n <= v.manifest.segments.len(),
    ensures
        entries.len() == n,
        files.len() == del_writes(v, ids, n).len(),
        retired.len() == del_drops(v, ids, n).len(),
        forall|j: int|
            #![trigger files[j]]
            0 <= j < files.len() ==> files[j].name@ == name_of(del_writes(v, ids, n)[j]),
        forall|j: int|
            #![trigger retired[j]]
            0 <= j < retired.len() ==> retired[j] == name_of(del_drops(v, ids, n)[j]),
        forall|i: int| 0 <= i < n ==> entry_after(v, ids, #[trigger] entries[i], i),
    decreases n,
{
    if n > 0 {
        let e = v.manifest.segments[n - 1];
        let hit = affected(v, ids, n - 1);
        let es = entries.drop_last();
        let fs = if hit {
            files.drop_last()
        } else {
            files
        };
        let rs = if hit && e.del_gen > 0 {
            retired.drop_last()
        } else {
            retired
        };
        lemma_deletions_listed(v, ids, es, fs, rs, n - 1);
        assert forall|j: int| #![trigger files[j]] 0 <= j < files.len() implies files[j].name@
            == name_of(del_writes(v, ids, n)[j]) by {
            if j < fs.len() {
                assert(files[j] == fs[j]);
            }
        }
        assert forall|j: int| #![trigger retired[j]] 0 <= j < retired.len() implies retired[j]
            == name_of(del_drops(v, ids, n)[j]) by {
            if j < rs.len() {
                assert(retired[j] == rs[j]);
            }
        }
        assert forall|i: int| 0 <= i < n implies entry_after(v, ids, #[trigger] entries[i], i) by {
            if i < n - 1 {
                assert(entries[i] == es[i]);
            } else {
                assert(entries[i] == entries.last());
            }
        }
    }
}

/// Which files deleting ids writes and removes.
proof fn lemma_deletions_are(v: IndexView, ids: Seq<u32>, n: int)
    requires
        0 <= n <= v.manifest.segments.len(),
        ids_unique(v.manifest.segments),
    ensures
        forall|j: int|
            #![trigger del_writes(v, ids, n)[j]]
            0 <= j < del_writes(v, ids, n).len() ==> exists|i: int|
                0 <= i < n && #[trigger] affected(v, ids, i) && del_writes(v, ids, n)[j]
                    == IndexFile::Del(
                    v.manifest.segments[i].segment_id,
                    (v.manifest.segments[i].del_gen + 1) as u32,
                ),
        forall|i: int, j: int|
            0 <= i < j < del_writes(v, ids, n).len() ==> #[trigger] del_writes(v, ids, n)[i]
                != #[trigger] del_writes(v, ids, n)[j],
        forall|i: int|
            0 <= i < n && #[trigger] affected(v, ids, i) ==> del_writes(v, ids, n).contains(
                IndexFile::Del(
                    v.manifest.segments[i].segment_id,
                    (v.manifest.segments[i].del_gen + 1) as u32,
                ),
            ),
        forall|j: int|
            #![trigger del_drops(v, ids, n)[j]]
            0 <= j < del_drops(v, ids, n).len() ==> exists|i: int|
                0 <= i < n && #[trigger] affected(v, ids, i) && v.manifest.segments[i].del_gen > 0
                    && del_drops(v, ids, n)[j] == IndexFile::Del(
                    v.manifest.segments[i].segment_id,
                    v.manifest.segments[i].del_gen,
                ),
    decreases n,
{
    if n > 0 {
        lemma_deletions_are(v, ids, n - 1);
        let es = v.manifest.segments;
        let (w, w0) = (del_writes(v, ids, n), del_writes(v, ids, n - 1));
        let (x, x0) = (del_drops(v, ids, n), del_drops(v, ids, n - 1));
        assert forall|j: int| #![trigger w[j]] 0 <= j < w.len() implies exists|i: int|
            0 <= i < n && #[trigger] affected(v, ids, i) && w[j] == IndexFile::Del(
                es[i].segment_id,
                (es[i].del_gen + 1) as u32,
            ) by {
            if j < w0.len() {
                assert(w[j] == w0[j]);
            } else {
                assert(affected(v, ids, n - 1));
            }
        }
        assert forall|i: int, j: int| 0 <= i < j < w.len() implies #[trigger] w[i]
            != #[trigger] w[j] by {
            assert(w[i] == w0[i]);
            if j < w0.len() {
                assert(w[j] == w0[j]);
            } else {
                let k = choose|k: int|
                    0 <= k < n - 1 && #[trigger] affected(v, ids, k) && w0[i] == IndexFile::Del(
                        es[k].segment_id,
                        (es[k].del_gen + 1) as u32,
                    );
                assert(es[k].segment_id != es[n - 1].segment_id);
            }
        }
        assert forall|i: int| 0 <= i < n && #[trigger] affected(v, ids, i) implies w.contains(
            IndexFile::Del(es[i].segment_id, (es[i].del_gen + 1) as u32),
        ) by {
            let f = IndexFile::Del(es[i].segment_id, (es[i].del_gen + 1) as u32);
            if i < n - 1 {
                assert(w0.contains(f));
                let k = choose|k: int| 0 <= k < w0.len() && w0[k] == f;
                assert(w[k] == f);
            } else {
                assert(w[w.len() - 1] == f);
            }
        }
        assert forall|j: int| #![trigger x[j]] 0 <= j < x.len() implies exists|i: int|
            0 <= i < n && #[trigger] affected(v, ids, i) && es[i].del_gen > 0 && x[j]
                == IndexFile::Del(es[i].segment_id, es[i].del_gen) by {
            if j < x0.len() {
                assert(x[j] == x0[j]);
            } else {
                assert(affected(v, ids, n - 1));
            }
        }
    }
}

proof fn lemma_unique(es: Seq<SegmentEntry>, i: int, j: int)
    requires
        ids_unique(es),
        0 <= i < es.len(),
        0 <= j < es.len(),
        es[i].segment_id == es[j].segment_id,
    ensures
        i == j,
{
    if i < j {
        assert(es[i].segment_id != es[j].segment_id);
    }
    if j < i {
        assert(es[j].segment_id != es[i].segment_id);
    }
}

/// A deletion keeps the ids of the segments apart.
proof fn lemma_same_ids(v: IndexView, ids: Seq<u32>, entries: Seq<SegmentEntry>)
    requires
        ids_unique(v.manifest.segments),
        entries.len() == v.manifest.segments.len(),
        forall|i: int| 0 <= i < entries.len() ==> entry_after(v, ids, #[trigger] entries[i], i),
    ensures
        ids_unique(entries),
{
    assert forall|i: int, j: int| 0 <= i < j < entries.len() implies (
    #[trigger] entries[i]).segment_id != (#[trigger] entries[j]).segment_id by {
        assert(entry_after(v, ids, entries[i], i));
        assert(entry_after(v, ids, entries[j], j));
        assert(v.manifest.segments[i].segment_id != v.manifest.segments[j].segment_id);
    }
}

/// What ids a deletion's files have in the manifests before and behind it.
proof fn lemma_deletion_files(v: IndexView, ids: Seq<u32>, entries: Seq<SegmentEntry>, f: IndexFile)
    requires
        ids_unique(v.manifest.segments),
        entries.len() == v.manifest.segments.len(),
        forall|i: int| 0 <= i < entries.len() ==> entry_after(v, ids, #[trigger] entries[i], i),
    ensures
        match f {
            IndexFile::Idx(id) | IndexFile::Doc(id) => has_id(entries, id) == has_id(
                v.manifest.segments,
                id,
            ),
            IndexFile::Del(id, gen) => {
                let n = entries.len() as int;
                &&& has_gen(entries, id, gen) ==> del_writes(v, ids, n).contains(f) || has_gen(
                    v.manifest.segments,
                    id,
                    gen,
                )
                &&& del_writes(v, ids, n).contains(f) ==> gen > 0 && has_gen(entries, id, gen)
                    && !has_gen(v.manifest.segments, id, gen)
                &&& del_drops(v, ids, n).contains(f) ==> !has_gen(entries, id, gen)
            },
            IndexFile::Overlay(_) => !del_writes(v, ids, entries.len() as int).contains(f)
                && !del_drops(v, ids, entries.len() as int).contains(f),
        },
{
    let es = v.manifest.segments;
    let n = entries.len() as int;
    lemma_deletions_are(v, ids, n);
    let w = del_writes(v, ids, n);
    let x = del_drops(v, ids, n);
    match f {
        IndexFile::Idx(id) | IndexFile::Doc(id) => {
            if has_id(entries, id) {
                let i = choose|i: int|
                    0 <= i < entries.len() && (#[trigger] entries[i]).segment_id == id;
                assert(entry_after(v, ids, entries[i], i));
                assert(es[i].segment_id == id);
            }
            if has_id(es, id) {
                let i = choose|i: int| 0 <= i < es.len() && (#[trigger] es[i]).segment_id == id;
                assert(entry_after(v, ids, entries[i], i));
                assert(entries[i].segment_id == id);
            }
        },
        IndexFile::Del(id, gen) => {
            if has_gen(entries, id, gen) {
                let i = choose|i: int|
                    0 <= i < entries.len() && (#[trigger] entries[i]).segment_id == id
                        && entries[i].del_gen == gen;
                assert(entry_after(v, ids, entries[i], i));
                if affected(v, ids, i) {
                    assert(w.contains(IndexFile::Del(es[i].segment_id, (es[i].del_gen + 1) as u32)));
                } else {
                    assert(es[i].segment_id == id && es[i].del_gen == gen);
                }
            }
            if w.contains(f) {
                let j = choose|j: int| 0 <= j < w.len() && w[j] == f;
                let i = choose|i: int|
                    0 <= i < n && #[trigger] affected(v, ids, i) && w[j] == IndexFile::Del(
                        es[i].segment_id,
                        (es[i].del_gen + 1) as u32,
                    );
                assert(entry_after(v, ids, entries[i], i));
                assert(entries[i].segment_id == id && entries[i].del_gen == gen);
                if has_gen(es, id, gen) {
                    let k = choose|k: int|
                        0 <= k < es.len() && (#[trigger] es[k]).segment_id == id && es[k].del_gen
                            == gen;
                    lemma_unique(es, i, k);
                }
            }
            if x.contains(f) {
                let j = choose|j: int| 0 <= j < x.len() && x[j] == f;
                let i = choose|i: int|
                    0 <= i < n && #[trigger] affected(v, ids, i) && es[i].del_gen > 0 && x[j]
                        == IndexFile::Del(es[i].segment_id, es[i].del_gen);
                if has_gen(entries, id, gen) {
                    let k = choose|k: int|
                        0 <= k < entries.len() && (#[trigger] entries[k]).segment_id == id
                            && entries[k].del_gen == gen;
                    assert(entry_after(v, ids, entries[k], k));
                    lemma_unique(es, i, k);
                }
            }
        },
        IndexFile::Overlay(_) => {
            if w.contains(f) {
                let j = choose|j: int| 0 <= j < w.len() && w[j] == f;
                assert(w[j] == f);
            }
            if x.contains(f) {
                let j = choose|j: int| 0 <= j < x.len() && x[j] == f;
                assert(x[j] == f);
            }
        },
    }
}

/// A deletion is a safe commit, and keeps the ids of the segments apart.
pub proof fn lemma_deletion_is_sound(v: IndexView, ids: Seq<u32>, c: Commit)
    requires
        valid(v.manifest),
        ids_unique(v.manifest.segments),
        tombstoned(
            v,
            ids,
            c.manifest@.segments,
            c.files@,
            views(c.retired@),
            v.manifest.segments.len() as int,
        ),
        c.manifest@.state_gen == v.manifest.state_gen,
    ensures
        sound(Some(v.manifest), c.manifest@, plan_of(c)),
        ids_unique(c.manifest@.segments),
{
    let n = v.manifest.segments.len() as int;
    let entries = c.manifest@.segments;
    let plan = plan_of(c);
    let w = del_writes(v, ids, n);
    let x = del_drops(v, ids, n);
    lemma_deletions_listed(v, ids, entries, c.files@, views(c.retired@), n);
    lemma_deletions_are(v, ids, n);
    lemma_same_ids(v, ids, entries);
    assert forall|j: int| #![trigger w[j]] 0 <= j < w.len() implies plan.files[j].0 == name_of(w[j])
        && file_of(c.manifest@, w[j]) && !file_before(Some(v.manifest), w[j]) by {
        assert(c.files@[j].name@ == name_of(w[j]));
        lemma_deletion_files(v, ids, entries, w[j]);
        assert(w.contains(w[j]));
    }
    assert forall|f: IndexFile| #[trigger] file_of(c.manifest@, f) implies w.contains(f)
        || file_before(Some(v.manifest), f) by {
        lemma_deletion_files(v, ids, entries, f);
    }
    assert forall|j: int| #![trigger x[j]] 0 <= j < x.len() implies plan.retired[j] == name_of(x[j])
        && !file_of(c.manifest@, x[j]) by {
        assert(views(c.retired@)[j] == name_of(x[j]));
        lemma_deletion_files(v, ids, entries, x[j]);
        assert(x.contains(x[j]));
    }
    lemma_sound(Some(v.manifest), c.manifest@, plan, w, x);
}

/// What a deletion writes is a generation of a segment's deletions.
pub proof fn lemma_deletion_writes(v: IndexView, ids: Seq<u32>, c: Commit, j: int)
    requires
        ids_unique(v.manifest.segments),
        tombstoned(
            v,
            ids,
            c.manifest@.segments,
            c.files@,
            views(c.retired@),
            v.manifest.segments.len() as int,
        ),
        0 <= j < c.files@.len(),
    ensures
        exists|id: u32, gen: u32| c.files@[j].name@ == #[trigger] del_file(id, gen),
{
    let n = v.manifest.segments.len() as int;
    lemma_deletions_listed(v, ids, c.manifest@.segments, c.files@, views(c.retired@), n);
    lemma_deletions_are(v, ids, n);
    let w = del_writes(v, ids, n);
    assert(c.files@[j].name@ == name_of(w[j]));
    let i = choose|i: int|
        0 <= i < n && #[trigger] affected(v, ids, i) && w[j] == IndexFile::Del(
            v.manifest.segments[i].segment_id,
            (v.manifest.segments[i].del_gen + 1) as u32,
        );
    let e = v.manifest.segments[i];
    assert(c.files@[j].name@ == del_file(e.segment_id, (e.del_gen + 1) as u32));
}

/// A manifest refers to the deletions of a segment that has any.
pub proof fn lemma_is_referenced(m: ManifestView, i: int)
    requires
        0 <= i < m.segments.len(),
        m.segments[i].del_gen > 0,
    ensures
        referenced(m, del_file(m.segments[i].segment_id, m.segments[i].del_gen)),
{
    let f = IndexFile::Del(m.segments[i].segment_id, m.segments[i].del_gen);
    assert(file_of(m, f));
    lemma_file_named(m, f);
}

/// The segments have the ids from `first` on, and no deletions.
pub open spec fn fresh_ids(fs: Seq<Flushed>, first: u32) -> bool {
    forall|k: int|
        #![trigger fs[k]]
        0 <= k < fs.len() ==> fs[k].entry.segment_id == first + k && fs[k].entry.del_gen == 0
}

/// The files of `n` new segments, from the id `first` on.
spec fn fresh_files(first: u32, n: nat) -> Seq<IndexFile> {
    Seq::new(
        2 * n,
        |j: int|
            if j % 2 == 0 {
                IndexFile::Idx((first + j / 2) as u32)
            } else {
                IndexFile::Doc((first + j / 2) as u32)
            },
    )
}

proof fn lemma_fresh_listed(fs: Seq<Flushed>, first: u32, n: int)
    requires
        fresh_ids(fs, first),
        0 <= n <= fs.len(),
    ensures
        segment_file_list(fs, n).len() == 2 * n,
        forall|j: int|
            #![trigger segment_file_list(fs, n)[j]]
            0 <= j < 2 * n ==> segment_file_list(fs, n)[j].0 == name_of(
                fresh_files(first, fs.len())[j],
            ),
    decreases n,
{
    if n > 0 {
        lemma_fresh_listed(fs, first, n - 1);
        let l = segment_file_list(fs, n);
        let l0 = segment_file_list(fs, n - 1);
        assert(fs[n - 1].entry.segment_id == first + (n - 1));
        assert forall|j: int| #![trigger l[j]] 0 <= j < 2 * n implies l[j].0 == name_of(
            fresh_files(first, fs.len())[j],
        ) by {
            if j < 2 * (n - 1) {
                assert(l[j] == l0[j]);
            } else if j == 2 * (n - 1) {
                assert(j % 2 == 0 && j / 2 == n - 1);
            } else {
                assert(j == 2 * (n - 1) + 1);
                assert(j % 2 == 1 && j / 2 == n - 1);
            }
        }
    }
}

proof fn lemma_fresh_are(first: u32, n: nat, f: IndexFile)
    requires
        first + n <= u32::MAX,
    ensures
        fresh_files(first, n).contains(f) <==> match f {
            IndexFile::Idx(id) | IndexFile::Doc(id) => first <= id < first + n,
            _ => false,
        },
        forall|i: int, j: int|
            0 <= i < j < fresh_files(first, n).len() ==> #[trigger] fresh_files(first, n)[i]
                != #[trigger] fresh_files(first, n)[j],
{
    let w = fresh_files(first, n);
    match f {
        IndexFile::Idx(id) => {
            if first <= id < first + n {
                let j = 2 * (id - first);
                assert(j % 2 == 0 && j / 2 == id - first);
                assert(w[j] == f);
            }
        },
        IndexFile::Doc(id) => {
            if first <= id < first + n {
                let j = 2 * (id - first) + 1;
                assert(j % 2 == 1 && j / 2 == id - first);
                assert(w[j] == f);
            }
        },
        _ => {},
    }
    if w.contains(f) {
        let j = choose|j: int| 0 <= j < w.len() && w[j] == f;
        assert(0 <= j / 2 < n);
    }
    assert forall|i: int, j: int| 0 <= i < j < w.len() implies #[trigger] w[i]
        != #[trigger] w[j] by {
        assert(i / 2 < n && j / 2 < n);
        if i % 2 == j % 2 {
            assert(i / 2 != j / 2);
        }
    }
}

/// The ids of the entries and of fresh segments behind them.
proof fn lemma_appended_ids(entries: Seq<SegmentEntry>, fs: Seq<Flushed>, first: u32)
    requires
        fresh_ids(fs, first),
        first + fs.len() <= u32::MAX,
        ids_unique(entries),
        forall|i: int| 0 <= i < entries.len() ==> (#[trigger] entries[i]).segment_id < first,
    ensures
        ids_unique(entries + entries_of(fs)),
        forall|id: u32| #[trigger]
            has_id(entries + entries_of(fs), id) <==> has_id(entries, id) || first <= id < first
                + fs.len(),
        forall|id: u32, gen: u32|
            gen > 0 ==> (#[trigger] has_gen(entries + entries_of(fs), id, gen) <==> has_gen(
                entries,
                id,
                gen,
            )),
{
    let all = entries + entries_of(fs);
    let n = entries.len() as int;
    assert forall|i: int| n <= i < all.len() implies (#[trigger] all[i]).segment_id == first + (i
        - n) && all[i].del_gen == 0 by {
        assert(all[i] == fs[i - n].entry);
    }
    assert forall|i: int, j: int| 0 <= i < j < all.len() implies (#[trigger] all[i]).segment_id != (
    #[trigger] all[j]).segment_id by {
        if j < n {
            assert(all[i] == entries[i] && all[j] == entries[j]);
            assert(entries[i].segment_id != entries[j].segment_id);
        } else if i < n {
            assert(all[i] == entries[i]);
            assert(entries[i].segment_id < first);
        }
    }
    assert forall|id: u32| #[trigger] has_id(all, id) <==> has_id(entries, id) || first <= id
        < first + fs.len() by {
        if has_id(all, id) {
            let i = choose|i: int| 0 <= i < all.len() && (#[trigger] all[i]).segment_id == id;
            if i < n {
                assert(entries[i].segment_id == id);
            }
        }
        if has_id(entries, id) {
            let i = choose|i: int|
                0 <= i < entries.len() && (#[trigger] entries[i]).segment_id == id;
            assert(all[i].segment_id == id);
        }
        if first <= id < first + fs.len() {
            assert(all[n + (id - first)].segment_id == id);
        }
    }
    assert forall|id: u32, gen: u32| gen > 0 implies (#[trigger] has_gen(all, id, gen) <==> has_gen(
        entries,
        id,
        gen,
    )) by {
        if has_gen(all, id, gen) {
            let i = choose|i: int|
                0 <= i < all.len() && (#[trigger] all[i]).segment_id == id && all[i].del_gen == gen;
            if i < n {
                assert(entries[i].segment_id == id && entries[i].del_gen == gen);
            }
        }
        if has_gen(entries, id, gen) {
            let i = choose|i: int|
                0 <= i < entries.len() && (#[trigger] entries[i]).segment_id == id
                    && entries[i].del_gen == gen;
            assert(all[i].segment_id == id && all[i].del_gen == gen);
        }
    }
}

/// The ids in a valid manifest are below the next one.
proof fn lemma_ids_below(m: ManifestView, f: IndexFile)
    requires
        valid(m),
        file_of(m, f),
    ensures
        match f {
            IndexFile::Idx(id) | IndexFile::Doc(id) | IndexFile::Del(id, _) => id
                < m.next_segment_id,
            _ => true,
        },
{
    match f {
        IndexFile::Idx(id) | IndexFile::Doc(id) => {
            let i = choose|i: int|
                0 <= i < m.segments.len() && (#[trigger] m.segments[i]).segment_id == id;
            lemma_entry(m, i);
        },
        IndexFile::Del(id, gen) => {
            let i = choose|i: int|
                0 <= i < m.segments.len() && (#[trigger] m.segments[i]).segment_id == id
                    && m.segments[i].del_gen == gen;
            lemma_entry(m, i);
        },
        _ => {},
    }
}

/// An update is a safe commit, and keeps the ids of the segments apart.
pub proof fn lemma_update_is_sound(
    v: IndexView,
    deletes: Seq<u32>,
    new: Seq<PatchView>,
    fs: Seq<Flushed>,
    now: i64,
    c: Commit,
)
    requires
        valid(v.manifest),
        ids_unique(v.manifest.segments),
        fresh_ids(fs, v.manifest.next_segment_id),
        v.manifest.next_segment_id + fs.len() <= u32::MAX,
        update_holds(v, deletes, new, fs, now, c),
    ensures
        sound(Some(v.manifest), c.manifest@, plan_of(c)),
        ids_unique(c.manifest@.segments),
{
    reveal(update_holds);
    let (entries, dels, dropped, ps, ovl) = choose|
        entries: Seq<SegmentEntry>,
        dels: Seq<NewFile>,
        dropped: Seq<Seq<char>>,
        ps: Seq<PatchView>,
        ovl: Option<(Seq<char>, Seq<u8>)>,
    |
        {
            &&& #[trigger] tombstoned(
                v,
                deletes,
                entries,
                dels,
                dropped,
                v.manifest.segments.len() as int,
            )
            &&& #[trigger] overlay_after(v.overlay, new, deletes, ps)
            &&& #[trigger] overlay_next(v.manifest, c.manifest@, ps, ovl)
            &&& c.manifest@.segments == entries + entries_of(fs)
            &&& c.manifest@.next_segment_id == v.manifest.next_segment_id + fs.len()
            &&& c.manifest@.generation == v.manifest.generation + 1
            &&& c.manifest@.committed_unix_nanos == now
            &&& file_views(c.files@) == segment_file_list(fs, fs.len() as int) + file_views(dels)
                + match ovl {
                Some(f) => seq![f],
                None => Seq::empty(),
            }
            &&& views(c.retired@) == dropped + if v.manifest.state_gen > 0
                && v.manifest.state_gen != c.manifest@.state_gen {
                seq![overlay_file(v.manifest.state_gen)]
            } else {
                Seq::empty()
            }
        };
    lemma_update_files(v, deletes, fs, c, entries, dels, dropped, ovl);
}

/// The parts of [`lemma_update_is_sound`].
#[verifier::rlimit(30)]
proof fn lemma_update_files(
    v: IndexView,
    deletes: Seq<u32>,
    fs: Seq<Flushed>,
    c: Commit,
    entries: Seq<SegmentEntry>,
    dels: Seq<NewFile>,
    dropped: Seq<Seq<char>>,
    ovl: Option<(Seq<char>, Seq<u8>)>,
)
    requires
        valid(v.manifest),
        ids_unique(v.manifest.segments),
        fresh_ids(fs, v.manifest.next_segment_id),
        v.manifest.next_segment_id + fs.len() <= u32::MAX,
        tombstoned(v, deletes, entries, dels, dropped, v.manifest.segments.len() as int),
        match ovl {
            Some(f) => c.manifest@.state_gen > 0 && c.manifest@.state_gen != v.manifest.state_gen
                && f.0 == overlay_file(c.manifest@.state_gen),
            None => c.manifest@.state_gen == 0,
        },
        c.manifest@.segments == entries + entries_of(fs),
        file_views(c.files@) == segment_file_list(fs, fs.len() as int) + file_views(dels)
            + match ovl {
            Some(f) => seq![f],
            None => Seq::empty(),
        },
        views(c.retired@) == dropped + if v.manifest.state_gen > 0 && v.manifest.state_gen
            != c.manifest@.state_gen {
            seq![overlay_file(v.manifest.state_gen)]
        } else {
            Seq::empty()
        },
    ensures
        sound(Some(v.manifest), c.manifest@, plan_of(c)),
        ids_unique(c.manifest@.segments),
{
    let m = v.manifest;
    let next = c.manifest@;
    let n = m.segments.len() as int;
    let first = m.next_segment_id;
    let a = fresh_files(first, fs.len());
    let b = del_writes(v, deletes, n);
    let o = match ovl {
        Some(_) => seq![IndexFile::Overlay(next.state_gen)],
        None => Seq::empty(),
    };
    let w = a + b + o;
    let x = del_drops(v, deletes, n) + if m.state_gen > 0 && m.state_gen != next.state_gen {
        seq![IndexFile::Overlay(m.state_gen)]
    } else {
        Seq::empty()
    };
    let plan = plan_of(c);
    lemma_deletions_listed(v, deletes, entries, dels, dropped, n);
    lemma_deletions_are(v, deletes, n);
    lemma_same_ids(v, deletes, entries);
    lemma_fresh_listed(fs, first, fs.len() as int);
    assert forall|i: int| 0 <= i < entries.len() implies (#[trigger] entries[i]).segment_id
        < first by {
        assert(entry_after(v, deletes, entries[i], i));
        lemma_entry(m, i);
    }
    lemma_appended_ids(entries, fs, first);
    assert forall|j: int| #![trigger w[j]] 0 <= j < w.len() implies plan.files[j].0 == name_of(w[j])
        && file_of(next, w[j]) && !file_before(Some(m), w[j]) by {
        let f = w[j];
        if j < a.len() {
            assert(w[j] == a[j]);
            assert(plan.files[j] == segment_file_list(fs, fs.len() as int)[j]);
            assert(a.contains(f));
            lemma_fresh_are(first, fs.len(), f);
            if file_of(m, f) {
                lemma_ids_below(m, f);
            }
        } else if j < a.len() + b.len() {
            let k = j - a.len();
            assert(w[j] == b[k]);
            assert(plan.files[j] == file_views(dels)[k]);
            assert(dels[k].name@ == name_of(b[k]));
            assert(b.contains(f));
            lemma_deletion_files(v, deletes, entries, f);
        } else {
            assert(w[j] == o[j - a.len() - b.len()]);
        }
    }
    assert forall|i: int, j: int| 0 <= i < j < w.len() implies #[trigger] w[i]
        != #[trigger] w[j] by {
        lemma_fresh_are(first, fs.len(), w[i]);
        if j < a.len() {
            assert(w[i] == a[i] && w[j] == a[j]);
        } else if j < a.len() + b.len() {
            assert(w[j] == b[j - a.len()]);
            if i < a.len() {
                assert(w[i] == a[i]);
                assert(a.contains(a[i]));
            } else {
                assert(w[i] == b[i - a.len()]);
            }
        } else {
            assert(w[j] == o[0]);
            if i < a.len() {
                assert(w[i] == a[i]);
                assert(a.contains(a[i]));
            } else {
                assert(w[i] == b[i - a.len()]);
            }
        }
    }
    assert forall|f: IndexFile| #[trigger] file_of(next, f) implies w.contains(f) || file_before(
        Some(m),
        f,
    ) by {
        lemma_fresh_are(first, fs.len(), f);
        lemma_deletion_files(v, deletes, entries, f);
        if a.contains(f) {
            let j = choose|j: int| 0 <= j < a.len() && a[j] == f;
            assert(w[j] == f);
        } else if b.contains(f) {
            let j = choose|j: int| 0 <= j < b.len() && b[j] == f;
            assert(w[a.len() + j] == f);
        } else if f is Overlay {
            assert(o[0] == f);
            assert(w[(a.len() + b.len()) as int] == f);
        }
    }
    assert forall|j: int| #![trigger x[j]] 0 <= j < x.len() implies plan.retired[j] == name_of(x[j])
        && !file_of(next, x[j]) by {
        let d = del_drops(v, deletes, n);
        if j < d.len() {
            assert(x[j] == d[j]);
            assert(dropped[j] == name_of(d[j]));
            assert(plan.retired[j] == dropped[j]);
            assert(d.contains(d[j]));
            lemma_deletion_files(v, deletes, entries, d[j]);
        } else {
            assert(x[j] == IndexFile::Overlay(m.state_gen));
            assert(plan.retired[j] == overlay_file(m.state_gen));
        }
    }
    lemma_sound(Some(m), next, plan, w, x);
}

/// The files of an entry.
spec fn entry_files(e: SegmentEntry) -> Seq<IndexFile> {
    if e.del_gen > 0 {
        seq![
            IndexFile::Idx(e.segment_id),
            IndexFile::Doc(e.segment_id),
            IndexFile::Del(e.segment_id, e.del_gen),
        ]
    } else {
        seq![IndexFile::Idx(e.segment_id), IndexFile::Doc(e.segment_id)]
    }
}

proof fn lemma_entry_files(e: SegmentEntry)
    ensures
        files_of(e).len() == entry_files(e).len(),
        forall|j: int|
            #![trigger files_of(e)[j]]
            0 <= j < files_of(e).len() ==> files_of(e)[j] == name_of(entry_files(e)[j]),
{
}

/// The files of the first `n` segments.
spec fn manifest_list(m: ManifestView, n: int) -> Seq<IndexFile>
    decreases n,
{
    if n <= 0 {
        Seq::empty()
    } else {
        manifest_list(m, n - 1) + entry_files(m.segments[n - 1])
    }
}

proof fn lemma_manifest_list(m: ManifestView, n: int)
    requires
        0 <= n <= m.segments.len(),
    ensures
        manifest_files(m, n).len() == manifest_list(m, n).len(),
        forall|j: int|
            #![trigger manifest_list(m, n)[j]]
            0 <= j < manifest_list(m, n).len() ==> manifest_files(m, n)[j] == name_of(
                manifest_list(m, n)[j],
            ) && file_of(m, manifest_list(m, n)[j]),
    decreases n,
{
    if n > 0 {
        lemma_manifest_list(m, n - 1);
        let e = m.segments[n - 1];
        lemma_entry_files(e);
        let l = manifest_list(m, n);
        let l0 = manifest_list(m, n - 1);
        assert forall|j: int| #![trigger l[j]] 0 <= j < l.len() implies manifest_files(m, n)[j]
            == name_of(l[j]) && file_of(m, l[j]) by {
            if j < l0.len() {
                assert(l[j] == l0[j]);
            } else {
                let k = j - l0.len();
                assert(l[j] == entry_files(e)[k]);
                assert(manifest_files(m, n)[j] == files_of(e)[k]);
                assert(m.segments[n - 1].segment_id == e.segment_id);
            }
        }
    }
}

/// A full build is a safe commit, and gives its segments ids of their own.
pub proof fn lemma_build_is_sound(prev: Option<ManifestView>, fs: Seq<Flushed>, c: Commit)
    requires
        prev matches Some(m) ==> valid(m),
        fresh_ids(fs, starts_at(prev).1),
        starts_at(prev).1 + fs.len() <= u32::MAX,
        c.manifest@.segments == entries_of(fs),
        c.manifest@.state_gen == 0,
        file_views(c.files@) == segment_file_list(fs, fs.len() as int),
        views(c.retired@) == match prev {
            Some(m) => all_files(m),
            None => Seq::empty(),
        },
    ensures
        sound(prev, c.manifest@, plan_of(c)),
        ids_unique(c.manifest@.segments),
{
    let next = c.manifest@;
    let first = starts_at(prev).1;
    let plan = plan_of(c);
    let w = fresh_files(first, fs.len());
    lemma_fresh_listed(fs, first, fs.len() as int);
    lemma_appended_ids(Seq::empty(), fs, first);
    assert(Seq::<SegmentEntry>::empty() + entries_of(fs) =~= entries_of(fs));
    let x = match prev {
        Some(m) => manifest_list(m, m.segments.len() as int) + if m.state_gen > 0 {
            seq![IndexFile::Overlay(m.state_gen)]
        } else {
            Seq::empty()
        },
        None => Seq::empty(),
    };
    assert forall|j: int| #![trigger w[j]] 0 <= j < w.len() implies plan.files[j].0 == name_of(w[j])
        && file_of(next, w[j]) && !file_before(prev, w[j]) by {
        assert(plan.files[j] == segment_file_list(fs, fs.len() as int)[j]);
        assert(w.contains(w[j]));
        lemma_fresh_are(first, fs.len(), w[j]);
        if let Some(m) = prev {
            if file_of(m, w[j]) {
                lemma_ids_below(m, w[j]);
            }
        }
    }
    lemma_fresh_are(first, fs.len(), IndexFile::Overlay(0));
    assert forall|f: IndexFile| #[trigger] file_of(next, f) implies w.contains(f) || file_before(
        prev,
        f,
    ) by {
        lemma_fresh_are(first, fs.len(), f);
        match f {
            IndexFile::Del(id, gen) => {
                let i = choose|i: int|
                    0 <= i < next.segments.len() && (#[trigger] next.segments[i]).segment_id == id
                        && next.segments[i].del_gen == gen;
                assert(next.segments[i] == fs[i].entry);
            },
            IndexFile::Idx(id) | IndexFile::Doc(id) => {
                let i = choose|i: int|
                    0 <= i < next.segments.len() && (#[trigger] next.segments[i]).segment_id == id;
                assert(next.segments[i] == fs[i].entry);
            },
            _ => {},
        }
    }
    if let Some(m) = prev {
        lemma_manifest_list(m, m.segments.len() as int);
    }
    assert forall|j: int| #![trigger x[j]] 0 <= j < x.len() implies plan.retired[j] == name_of(x[j])
        && !file_of(next, x[j]) by {
        if let Some(m) = prev {
            let l = manifest_list(m, m.segments.len() as int);
            if j < l.len() {
                assert(x[j] == l[j]);
                lemma_ids_below(m, l[j]);
                if file_of(next, l[j]) {
                    lemma_fresh_are(first, fs.len(), l[j]);
                    match l[j] {
                        IndexFile::Del(id, gen) => {
                            let i = choose|i: int|
                                0 <= i < next.segments.len() && (
                                #[trigger] next.segments[i]).segment_id == id
                                    && next.segments[i].del_gen == gen;
                            assert(next.segments[i] == fs[i].entry);
                        },
                        IndexFile::Idx(id) | IndexFile::Doc(id) => {
                            let i = choose|i: int|
                                0 <= i < next.segments.len() && (
                                #[trigger] next.segments[i]).segment_id == id;
                            assert(next.segments[i] == fs[i].entry);
                        },
                        _ => {},
                    }
                }
            }
        }
    }
    lemma_sound(prev, next, plan, w, x);
}

proof fn lemma_kept_entries(es: Seq<SegmentEntry>, ids: Seq<u32>, n: int)
    requires
        0 <= n <= es.len(),
        ids_unique(es),
    ensures
        forall|a: int|
            #![trigger retained(es, ids, n)[a]]
            0 <= a < retained(es, ids, n).len() ==> !ids.contains(
                retained(es, ids, n)[a].segment_id,
            ) && exists|i: int| 0 <= i < n && #[trigger] es[i] == retained(es, ids, n)[a],
        ids_unique(retained(es, ids, n)),
    decreases n,
{
    if n > 0 {
        lemma_kept_entries(es, ids, n - 1);
        let r = retained(es, ids, n);
        let q = retained(es, ids, n - 1);
        assert forall|a: int| #![trigger r[a]] 0 <= a < r.len() implies !ids.contains(
            r[a].segment_id,
        ) && exists|i: int| 0 <= i < n && #[trigger] es[i] == r[a] by {
            if a < q.len() {
                assert(r[a] == q[a]);
                let i = choose|i: int| 0 <= i < n - 1 && #[trigger] es[i] == q[a];
                assert(es[i] == r[a]);
            } else {
                assert(es[n - 1] == r[a]);
            }
        }
        assert forall|a: int, b: int| 0 <= a < b < r.len() implies (#[trigger] r[a]).segment_id != (
        #[trigger] r[b]).segment_id by {
            assert(r[a] == q[a]);
            if b < q.len() {
                assert(r[b] == q[b]);
                assert(q[a].segment_id != q[b].segment_id);
            } else {
                let i = choose|i: int| 0 <= i < n - 1 && #[trigger] es[i] == q[a];
                assert(es[i].segment_id != es[n - 1].segment_id);
            }
        }
    }
}

/// The files of a merged segment, with deletions or without.
spec fn part_files(id: u32, deletions: bool) -> Seq<IndexFile> {
    if deletions {
        seq![IndexFile::Idx(id), IndexFile::Doc(id), IndexFile::Del(id, 1)]
    } else {
        seq![IndexFile::Idx(id), IndexFile::Doc(id)]
    }
}

/// The files of the first `n` merged segments.
spec fn merge_writes(parts: Seq<Seq<NewFile>>, first: u32, n: int) -> Seq<IndexFile>
    decreases n,
{
    if n <= 0 {
        Seq::empty()
    } else {
        merge_writes(parts, first, n - 1) + part_files(
            (first + n - 1) as u32,
            parts[n - 1].len() == 3,
        )
    }
}

/// A merged segment and its files.
spec fn part_fits(entry: SegmentEntry, files: Seq<NewFile>, id: u32) -> bool {
    &&& entry.segment_id == id
    &&& files.len() == 2 || files.len() == 3
    &&& entry.del_gen == if files.len() == 3 {
        1int
    } else {
        0int
    }
    &&& forall|j: int|
        #![trigger files[j]]
        0 <= j < files.len() ==> files[j].name@ == name_of(part_files(id, files.len() == 3)[j])
}

proof fn lemma_finished_fits(
    v: IndexView,
    p: PreparedMerge,
    id: u32,
    base: u32,
    entry: SegmentEntry,
    files: Seq<NewFile>,
)
    requires
        finished(v, p, id, base, entry, files),
    ensures
        part_fits(entry, files, id),
{
    reveal(finished);
    let d = files.len() == 3;
    assert forall|j: int| #![trigger files[j]] 0 <= j < files.len() implies files[j].name@
        == name_of(part_files(id, d)[j]) by {
        if j == 0 {
            assert(files[0].name@ == idx_file(id));
        } else if j == 1 {
            assert(files[1].name@ == doc_file(id));
        } else {
            assert(files[2].name@ == del_file(id, 1));
        }
    }
}

proof fn lemma_merge_listed(
    entries: Seq<SegmentEntry>,
    parts: Seq<Seq<NewFile>>,
    first: u32,
    n: int,
)
    requires
        0 <= n <= parts.len(),
        entries.len() == parts.len(),
        first + parts.len() <= u32::MAX,
        forall|k: int|
            #![trigger parts[k]]
            0 <= k < parts.len() ==> part_fits(entries[k], parts[k], (first + k) as u32),
    ensures
        all_parts(parts, n).len() == merge_writes(parts, first, n).len(),
        forall|j: int|
            #![trigger all_parts(parts, n)[j]]
            0 <= j < all_parts(parts, n).len() ==> all_parts(parts, n)[j].name@ == name_of(
                merge_writes(parts, first, n)[j],
            ),
    decreases n,
{
    if n > 0 {
        lemma_merge_listed(entries, parts, first, n - 1);
        let l = all_parts(parts, n);
        let l0 = all_parts(parts, n - 1);
        let w = merge_writes(parts, first, n);
        let own = part_files((first + n - 1) as u32, parts[n - 1].len() == 3);
        assert(part_fits(entries[n - 1], parts[n - 1], (first + n - 1) as u32));
        assert(own.len() == parts[n - 1].len());
        assert forall|j: int| #![trigger l[j]] 0 <= j < l.len() implies l[j].name@ == name_of(
            w[j],
        ) by {
            if j < l0.len() {
                assert(l[j] == l0[j]);
            } else {
                assert(l[j] == parts[n - 1][j - l0.len()]);
                assert(w[j] == own[j - l0.len()]);
            }
        }
    }
}

/// The id of a segment's file.
spec fn id_of(f: IndexFile) -> int {
    match f {
        IndexFile::Idx(id) | IndexFile::Doc(id) | IndexFile::Del(id, _) => id as int,
        IndexFile::Overlay(_) => -1,
    }
}

/// The file is one of a merged segment.
spec fn is_merged(parts: Seq<Seq<NewFile>>, first: u32, n: int, f: IndexFile) -> bool {
    let k = id_of(f) - first;
    0 <= k < n && match f {
        IndexFile::Del(_, gen) => gen == 1 && parts[k].len() == 3,
        IndexFile::Overlay(_) => false,
        _ => true,
    }
}

proof fn lemma_merge_are(parts: Seq<Seq<NewFile>>, first: u32, n: int)
    requires
        0 <= n <= parts.len(),
        first + parts.len() <= u32::MAX,
    ensures
        forall|j: int|
            #![trigger merge_writes(parts, first, n)[j]]
            0 <= j < merge_writes(parts, first, n).len() ==> is_merged(
                parts,
                first,
                n,
                merge_writes(parts, first, n)[j],
            ),
        forall|f: IndexFile|
            #![trigger is_merged(parts, first, n, f)]
            is_merged(parts, first, n, f) ==> merge_writes(parts, first, n).contains(f),
        forall|i: int, j: int|
            0 <= i < j < merge_writes(parts, first, n).len() ==> #[trigger] merge_writes(
                parts,
                first,
                n,
            )[i] != #[trigger] merge_writes(parts, first, n)[j],
    decreases n,
{
    if n > 0 {
        lemma_merge_are(parts, first, n - 1);
        let w = merge_writes(parts, first, n);
        let w0 = merge_writes(parts, first, n - 1);
        let id = (first + n - 1) as u32;
        let own = part_files(id, parts[n - 1].len() == 3);
        assert forall|j: int| #![trigger w[j]] 0 <= j < w.len() implies is_merged(
            parts,
            first,
            n,
            w[j],
        ) by {
            if j < w0.len() {
                assert(w[j] == w0[j]);
            } else {
                assert(w[j] == own[j - w0.len()]);
            }
        }
        assert forall|f: IndexFile|
            #![trigger is_merged(parts, first, n, f)]
            is_merged(parts, first, n, f) implies w.contains(f) by {
            if id_of(f) < id {
                assert(is_merged(parts, first, n - 1, f));
                let k = choose|k: int| 0 <= k < w0.len() && w0[k] == f;
                assert(w[k] == f);
            } else {
                match f {
                    IndexFile::Idx(_) => {
                        assert(own[0] == f);
                        assert(w[w0.len() as int] == f);
                    },
                    IndexFile::Doc(_) => {
                        assert(own[1] == f);
                        assert(w[w0.len() as int + 1] == f);
                    },
                    _ => {
                        assert(own[2] == f);
                        assert(w[w0.len() as int + 2] == f);
                    },
                }
            }
        }
        assert forall|i: int, j: int| 0 <= i < j < w.len() implies #[trigger] w[i]
            != #[trigger] w[j] by {
            if j < w0.len() {
                assert(w[i] == w0[i] && w[j] == w0[j]);
            } else {
                assert(w[j] == own[j - w0.len()]);
                assert(id_of(w[j]) == id);
                if i < w0.len() {
                    assert(w[i] == w0[i]);
                    assert(is_merged(parts, first, n - 1, w0[i]));
                } else {
                    assert(w[i] == own[i - w0.len()]);
                }
            }
        }
    }
}

/// The files of the segments with the first `n` ids.
spec fn drop_list(es: Seq<SegmentEntry>, ids: Seq<u32>, n: int) -> Seq<IndexFile>
    decreases n,
{
    if n <= 0 {
        Seq::empty()
    } else {
        drop_list(es, ids, n - 1) + entry_files(es[seg_index(es, ids[n - 1], 0)])
    }
}

proof fn lemma_seg_found(es: Seq<SegmentEntry>, id: u32, i: int)
    requires
        0 <= i <= es.len(),
    ensures
        i <= seg_index(es, id, i) <= es.len(),
        seg_index(es, id, i) < es.len() ==> es[seg_index(es, id, i)].segment_id == id,
    decreases es.len() - i,
{
    if i < es.len() && es[i].segment_id != id {
        lemma_seg_found(es, id, i + 1);
    }
}

proof fn lemma_none_absent(es: Seq<SegmentEntry>, ids: Seq<u32>, i: int, k: int)
    requires
        first_absent(es, ids, i) is None,
        0 <= i <= k < ids.len(),
    ensures
        seg_index(es, ids[k], 0) < es.len(),
    decreases k - i,
{
    if i < k {
        lemma_none_absent(es, ids, i + 1, k);
    }
}

proof fn lemma_drop_list(es: Seq<SegmentEntry>, ids: Seq<u32>, n: int)
    requires
        0 <= n <= ids.len(),
        first_absent(es, ids, 0) is None,
    ensures
        dropped_files(es, ids, n).len() == drop_list(es, ids, n).len(),
        forall|j: int|
            #![trigger drop_list(es, ids, n)[j]]
            0 <= j < drop_list(es, ids, n).len() ==> dropped_files(es, ids, n)[j] == name_of(
                drop_list(es, ids, n)[j],
            ) && !(drop_list(es, ids, n)[j] is Overlay) && exists|k: int|
                0 <= k < n && id_of(drop_list(es, ids, n)[j]) == #[trigger] ids[k] && has_id(
                    es,
                    ids[k],
                ),
    decreases n,
{
    if n > 0 {
        lemma_drop_list(es, ids, n - 1);
        let l = drop_list(es, ids, n);
        let l0 = drop_list(es, ids, n - 1);
        let at = seg_index(es, ids[n - 1], 0);
        lemma_none_absent(es, ids, 0, n - 1);
        lemma_seg_found(es, ids[n - 1], 0);
        let e = es[at];
        lemma_entry_files(e);
        assert forall|j: int| #![trigger l[j]] 0 <= j < l.len() implies dropped_files(es, ids, n)[j]
            == name_of(l[j]) && !(l[j] is Overlay) && exists|k: int|
            0 <= k < n && id_of(l[j]) == #[trigger] ids[k] && has_id(es, ids[k]) by {
            if j < l0.len() {
                assert(l[j] == l0[j]);
                let k = choose|k: int|
                    0 <= k < n - 1 && id_of(l0[j]) == #[trigger] ids[k] && has_id(es, ids[k]);
                assert(id_of(l[j]) == ids[k]);
            } else {
                let i = j - l0.len();
                assert(l[j] == entry_files(e)[i]);
                assert(dropped_files(es, ids, n)[j] == files_of(e)[i]);
                assert(es[at].segment_id == ids[n - 1]);
                assert(id_of(l[j]) == ids[n - 1]);
            }
        }
    }
}

/// A commit of merges is safe, and keeps the ids of the segments apart.
pub proof fn lemma_merges_are_sound(v: IndexView, ps: Seq<PreparedMerge>, now: i64, c: Commit)
    requires
        valid(v.manifest),
        ids_unique(v.manifest.segments),
        v.manifest.next_segment_id + ps.len() <= u32::MAX,
        first_absent(v.manifest.segments, replaced(ps, ps.len() as int), 0) is None,
        merges_hold(v, ps, now, c),
    ensures
        sound(Some(v.manifest), c.manifest@, plan_of(c)),
        ids_unique(c.manifest@.segments),
{
    reveal(merges_hold);
    let n = ps.len() as int;
    let es = v.manifest.segments;
    let ids = replaced(ps, n);
    let (entries, parts) = choose|entries: Seq<SegmentEntry>, parts: Seq<Seq<NewFile>>|
        {
            &&& #[trigger] all_finished(v, ps, entries, parts, n)
            &&& c.files@ == all_parts(parts, n)
            &&& c.manifest@ == (ManifestView {
                generation: (v.manifest.generation + 1) as u64,
                next_segment_id: (v.manifest.next_segment_id + n) as u32,
                committed_unix_nanos: now,
                segments: retained(es, ids, es.len() as int) + entries,
                ..v.manifest
            })
            &&& views(c.retired@) == dropped_files(es, ids, ids.len() as int)
        };
    assert forall|k: int| #![trigger parts[k]] 0 <= k < parts.len() implies part_fits(
        entries[k],
        parts[k],
        (v.manifest.next_segment_id + k) as u32,
    ) by {
        assert(finished(
            v,
            ps[k],
            (v.manifest.next_segment_id + k) as u32,
            merge_base(v, ps, k) as u32,
            entries[k],
            parts[k],
        ));
        lemma_finished_fits(
            v,
            ps[k],
            (v.manifest.next_segment_id + k) as u32,
            merge_base(v, ps, k) as u32,
            entries[k],
            parts[k],
        );
    }
    lemma_merge_files(v.manifest, ids, entries, parts, c);
}

/// The ids and generations of what stays and of what is merged.
proof fn lemma_merged_ids(
    kept: Seq<SegmentEntry>,
    entries: Seq<SegmentEntry>,
    parts: Seq<Seq<NewFile>>,
    first: u32,
)
    requires
        entries.len() == parts.len(),
        first + parts.len() <= u32::MAX,
        ids_unique(kept),
        forall|i: int| 0 <= i < kept.len() ==> (#[trigger] kept[i]).segment_id < first,
        forall|k: int|
            #![trigger parts[k]]
            0 <= k < parts.len() ==> part_fits(entries[k], parts[k], (first + k) as u32),
    ensures
        ids_unique(kept + entries),
        forall|id: u32| #[trigger]
            has_id(kept + entries, id) <==> has_id(kept, id) || first <= id < first + parts.len(),
        forall|id: u32, gen: u32|
            gen > 0 ==> (#[trigger] has_gen(kept + entries, id, gen) <==> has_gen(kept, id, gen) || (
            first <= id < first + parts.len() && gen == 1 && parts[id - first].len() == 3)),
{
    let all = kept + entries;
    let n = kept.len() as int;
    assert forall|i: int| n <= i < all.len() implies (#[trigger] all[i]).segment_id == first + (i
        - n) && all[i].del_gen == (if parts[i - n].len() == 3 {
        1int
    } else {
        0int
    }) by {
        assert(all[i] == entries[i - n]);
        assert(part_fits(entries[i - n], parts[i - n], (first + (i - n)) as u32));
    }
    assert forall|i: int, j: int| 0 <= i < j < all.len() implies (#[trigger] all[i]).segment_id != (
    #[trigger] all[j]).segment_id by {
        if j < n {
            assert(all[i] == kept[i] && all[j] == kept[j]);
            assert(kept[i].segment_id != kept[j].segment_id);
        } else if i < n {
            assert(all[i] == kept[i]);
            assert(kept[i].segment_id < first);
        }
    }
    assert forall|id: u32| #[trigger] has_id(all, id) <==> has_id(kept, id) || first <= id < first
        + parts.len() by {
        if has_id(all, id) {
            let i = choose|i: int| 0 <= i < all.len() && (#[trigger] all[i]).segment_id == id;
            if i < n {
                assert(kept[i].segment_id == id);
            }
        }
        if has_id(kept, id) {
            let i = choose|i: int| 0 <= i < kept.len() && (#[trigger] kept[i]).segment_id == id;
            assert(all[i].segment_id == id);
        }
        if first <= id < first + parts.len() {
            assert(all[n + (id - first)].segment_id == id);
        }
    }
    assert forall|id: u32, gen: u32| gen > 0 implies (#[trigger] has_gen(all, id, gen) <==> has_gen(
        kept,
        id,
        gen,
    ) || (first <= id < first + parts.len() && gen == 1 && parts[id - first].len() == 3)) by {
        if has_gen(all, id, gen) {
            let i = choose|i: int|
                0 <= i < all.len() && (#[trigger] all[i]).segment_id == id && all[i].del_gen == gen;
            if i < n {
                assert(kept[i].segment_id == id && kept[i].del_gen == gen);
            }
        }
        if has_gen(kept, id, gen) {
            let i = choose|i: int|
                0 <= i < kept.len() && (#[trigger] kept[i]).segment_id == id && kept[i].del_gen
                    == gen;
            assert(all[i].segment_id == id && all[i].del_gen == gen);
        }
        if first <= id < first + parts.len() && gen == 1 && parts[id - first].len() == 3 {
            let i = n + (id - first);
            assert(all[i].segment_id == id && all[i].del_gen == gen);
        }
    }
}

proof fn lemma_merge_files(
    m: ManifestView,
    ids: Seq<u32>,
    entries: Seq<SegmentEntry>,
    parts: Seq<Seq<NewFile>>,
    c: Commit,
)
    requires
        valid(m),
        ids_unique(m.segments),
        entries.len() == parts.len(),
        m.next_segment_id + parts.len() <= u32::MAX,
        first_absent(m.segments, ids, 0) is None,
        forall|k: int|
            #![trigger parts[k]]
            0 <= k < parts.len() ==> part_fits(
                entries[k],
                parts[k],
                (m.next_segment_id + k) as u32,
            ),
        c.files@ == all_parts(parts, parts.len() as int),
        c.manifest@.segments == retained(m.segments, ids, m.segments.len() as int) + entries,
        c.manifest@.state_gen == m.state_gen,
        views(c.retired@) == dropped_files(m.segments, ids, ids.len() as int),
    ensures
        sound(Some(m), c.manifest@, plan_of(c)),
        ids_unique(c.manifest@.segments),
{
    let next = c.manifest@;
    let first = m.next_segment_id;
    let n = parts.len() as int;
    let es = m.segments;
    let kept = retained(es, ids, es.len() as int);
    let w = merge_writes(parts, first, n);
    let x = drop_list(es, ids, ids.len() as int);
    let plan = plan_of(c);
    lemma_kept_entries(es, ids, es.len() as int);
    assert forall|i: int| 0 <= i < kept.len() implies (#[trigger] kept[i]).segment_id < first by {
        let k = choose|k: int| 0 <= k < es.len() && #[trigger] es[k] == kept[i];
        lemma_entry(m, k);
    }
    lemma_merged_ids(kept, entries, parts, first);
    lemma_merge_listed(entries, parts, first, n);
    lemma_merge_are(parts, first, n);
    assert forall|j: int| #![trigger w[j]] 0 <= j < w.len() implies plan.files[j].0 == name_of(w[j])
        && file_of(next, w[j]) && !file_before(Some(m), w[j]) by {
        assert(c.files@[j].name@ == name_of(w[j]));
        assert(is_merged(parts, first, n, w[j]));
        if file_of(m, w[j]) {
            lemma_ids_below(m, w[j]);
        }
    }
    assert forall|f: IndexFile| #[trigger] file_of(next, f) implies w.contains(f) || file_before(
        Some(m),
        f,
    ) by {
        if is_merged(parts, first, n, f) {
        } else {
            match f {
                IndexFile::Idx(id) | IndexFile::Doc(id) => {
                    assert(has_id(kept, id));
                    let i = choose|i: int|
                        0 <= i < kept.len() && (#[trigger] kept[i]).segment_id == id;
                    let k = choose|k: int| 0 <= k < es.len() && #[trigger] es[k] == kept[i];
                    assert(es[k].segment_id == id);
                },
                IndexFile::Del(id, gen) => {
                    assert(has_gen(kept, id, gen));
                    let i = choose|i: int|
                        0 <= i < kept.len() && (#[trigger] kept[i]).segment_id == id
                            && kept[i].del_gen == gen;
                    let k = choose|k: int| 0 <= k < es.len() && #[trigger] es[k] == kept[i];
                    assert(es[k].segment_id == id && es[k].del_gen == gen);
                },
                IndexFile::Overlay(_) => {},
            }
        }
    }
    lemma_drop_list(es, ids, ids.len() as int);
    assert forall|j: int| #![trigger x[j]] 0 <= j < x.len() implies plan.retired[j] == name_of(x[j])
        && !file_of(next, x[j]) by {
        let f = x[j];
        let k = choose|k: int|
            0 <= k < ids.len() && id_of(f) == #[trigger] ids[k] && has_id(es, ids[k]);
        let id = ids[k];
        let at = choose|i: int| 0 <= i < es.len() && (#[trigger] es[i]).segment_id == id;
        lemma_entry(m, at);
        assert(ids.contains(id));
        if has_id(kept, id) {
            let i = choose|i: int| 0 <= i < kept.len() && (#[trigger] kept[i]).segment_id == id;
            assert(!ids.contains(kept[i].segment_id));
        }
        if let IndexFile::Del(_, gen) = f {
            if has_gen(kept, id, gen) {
                let i = choose|i: int|
                    0 <= i < kept.len() && (#[trigger] kept[i]).segment_id == id
                        && kept[i].del_gen == gen;
                assert(!ids.contains(kept[i].segment_id));
            }
        }
    }
    lemma_sound(Some(m), next, plan, w, x);
}

} // verus!
