//! What is live behind a commit of merges: what was live before it, and nothing else.

use vstd::prelude::*;

use super::commit::{affected, bits_after, tombstoned, Commit, NewFile};
use super::commit_laws::segment_after;
use super::flush::{lemma_flushed_entry, Lists};
use super::flush_laws::{lemma_docs_read_back, lemma_flushed_opens, storable};
use super::merge::{
    global_id, lemma_kept_docs, merged_docs, new_ids, seg_index, sources_of, PreparedMerge,
};
use super::merge_commit::{
    all_finished, all_parts, carry_bits, dropped_files, finished, first_absent,
    lemma_bases_grow, lemma_never_resurrects, lost, merge_base, merges_fit, merges_hold, replaced,
    retained, source_at, stale,
};
use super::merge_laws::{is_kept, lemma_number, number_of, source};
use super::reader::{doc_of, lemma_ends_ascend, lemma_place, IndexView};
use super::segment::{doc_in, gone, opened, FileView, SegmentView};
use crate::error::ErrorView;
use crate::format::del::count_set;
use crate::format::manifest::{lemma_entry, valid, ManifestView, SegmentEntry};
use crate::index::builder::all_from;
use crate::index::doc_table::DocView;
use crate::index::memory::all_sorted;
use crate::text::views;

verus! {

/// A merged segment as it is read: what was prepared, without the documents that
/// were deleted since.
pub open spec fn merged_view(now: IndexView, p: PreparedMerge, entry: SegmentEntry) -> SegmentView {
    SegmentView {
        entry,
        idx: p.segment.idx@,
        doc: p.segment.doc@,
        del: if count_set(carry_bits(now, p)) > 0 {
            Some(carry_bits(now, p))
        } else {
            None
        },
    }
}

/// The files of a merged segment open as the merged segment, with a full check or
/// without.
pub proof fn lemma_merged_opens(
    now: IndexView,
    p: PreparedMerge,
    id: u32,
    base: u32,
    entry: SegmentEntry,
    files: Seq<NewFile>,
    m: Lists,
    docs: Seq<DocView>,
    root: Seq<char>,
    dir: Seq<char>,
    verify: bool,
)
    requires
        finished(now, p, id, base, entry, files),
        p.segment.is_of(0, 0, m, docs, root),
        p.num_docs == docs.len(),
        all_sorted(m),
        storable(m, 0),
    ensures
        opened(
            dir,
            entry,
            FileView::Bytes(files[0].bytes@),
            FileView::Bytes(files[1].bytes@),
            if files.len() > 2 {
                FileView::Bytes(files[2].bytes@)
            } else {
                FileView::Missing
            },
            verify,
        ) == Ok::<_, ErrorView>(merged_view(now, p, entry)),
{
    reveal(finished);
    reveal(opened);
    assert(all_from(m, 0));
    assert(p.segment.idx@.len() == p.segment.idx.len());
    assert(p.segment.doc@.len() == p.segment.doc.len());
    lemma_flushed_entry(p.segment, 0, 0, m, docs, root);
    lemma_flushed_opens(
        p.segment,
        0,
        0,
        m,
        docs,
        root,
        dir,
        FileView::Missing,
        verify,
    );
    if files.len() > 2 {
        assert(files[2].bytes@.len() == files[2].bytes.len());
    }
}

/// A segment at a later time: nothing of it changes but its deletions, which only grow,
/// and not within a generation.
pub open spec fn follows(was: SegmentView, now: SegmentView) -> bool {
    &&& now.idx == was.idx
    &&& now.doc == was.doc
    &&& now.entry.num_docs == was.entry.num_docs
    &&& was.entry.del_gen <= now.entry.del_gen
    &&& forall|l: int| #[trigger] gone(was, l) ==> gone(now, l)
    &&& now.entry.del_gen == was.entry.del_gen ==> now.del == was.del
}

/// What follows is kept over any number of commits.
pub proof fn lemma_follows(a: SegmentView, b: SegmentView, c: SegmentView)
    ensures
        follows(a, a),
        follows(a, b) && follows(b, c) ==> follows(a, c),
{
}

/// Behind a commit that deletes documents, alone or as part of an update, each segment
/// follows what it was.
pub proof fn lemma_deleted_follows(
    v: IndexView,
    ids: Seq<u32>,
    entries: Seq<SegmentEntry>,
    files: Seq<NewFile>,
    retired: Seq<Seq<char>>,
    n: int,
    i: int,
)
    requires
        tombstoned(v, ids, entries, files, retired, n),
        0 <= i < n <= v.segments.len(),
        v.segments[i].entry == v.manifest.segments[i],
        v.segments[i].del matches Some(bits) ==> bits.len() == v.segments[i].entry.num_docs,
    ensures
        entries.len() == n,
        follows(v.segments[i], segment_after(v, ids, i, entries[i])),
    decreases n,
{
    lemma_tombstoned_len(v, ids, entries, files, retired, n);
    if i < n - 1 {
        let front = entries.drop_last();
        assert(front[i] == entries[i]);
        if !affected(v, ids, n - 1) {
            lemma_deleted_follows(v, ids, front, files, retired, n - 1, i);
        } else if v.manifest.segments[n - 1].del_gen > 0 {
            lemma_deleted_follows(
                v,
                ids,
                front,
                files.drop_last(),
                retired.drop_last(),
                n - 1,
                i,
            );
        } else {
            lemma_deleted_follows(v, ids, front, files.drop_last(), retired, n - 1, i);
        }
    } else {
        let s = v.segments[i];
        let t = segment_after(v, ids, i, entries[i]);
        assert(entries.last() == entries[i]);
        if affected(v, ids, i) {
            let bits = bits_after(v, ids, ids.len() as int, i);
            assert forall|l: int| #[trigger] gone(s, l) implies gone(t, l) by {
                assert(bits[l]);
            }
        }
    }
}

proof fn lemma_tombstoned_len(
    v: IndexView,
    ids: Seq<u32>,
    entries: Seq<SegmentEntry>,
    files: Seq<NewFile>,
    retired: Seq<Seq<char>>,
    n: int,
)
    requires
        tombstoned(v, ids, entries, files, retired, n),
        0 <= n,
    ensures
        entries.len() == n,
    decreases n,
{
    if n > 0 {
        let front = entries.drop_last();
        if !affected(v, ids, n - 1) {
            lemma_tombstoned_len(v, ids, front, files, retired, n - 1);
        } else if v.manifest.segments[n - 1].del_gen > 0 {
            lemma_tombstoned_len(v, ids, front, files.drop_last(), retired.drop_last(), n - 1);
        } else {
            lemma_tombstoned_len(v, ids, front, files.drop_last(), retired, n - 1);
        }
    }
}

/// A merge that was prepared from an earlier state of the index, which the sources
/// follow.
pub open spec fn prepared_from(
    was: IndexView,
    ids: Seq<u32>,
    now: IndexView,
    p: PreparedMerge,
    m: Lists,
) -> bool {
    &&& valid(was.manifest)
    &&& was.segments.len() == was.manifest.segments.len()
    &&& forall|i: int|
        0 <= i < was.segments.len() ==> (#[trigger] was.segments[i]).entry
            == was.manifest.segments[i]
    &&& p.sources@.len() == ids.len()
    &&& sources_of(p.sources@, was, ids, ids.len() as int)
    &&& p.num_docs == merged_docs(was, ids, ids.len() as int).len()
    &&& p.segment.is_of(0, 0, m, merged_docs(was, ids, ids.len() as int), was.root)
    &&& forall|j: int|
        0 <= j < ids.len() ==> {
            let at = source_at(now, #[trigger] p.sources@[j]);
            &&& 0 <= source(was, ids, j) < was.segments.len()
            &&& now.segments[at].entry == now.manifest.segments[at]
            &&& follows(was.segments[source(was, ids, j)], now.segments[at])
        }
}

/// No two documents of a merge have the same number.
pub(crate) proof fn lemma_numbers_differ(was: IndexView, ids: Seq<u32>, j: int, l: int, k: int, x: int)
    requires
        is_kept(was, ids, j, l),
        is_kept(was, ids, k, x),
        number_of(was, ids, j, l) == number_of(was, ids, k, x),
    ensures
        j == k && l == x,
{
    if j < k {
        lemma_number(was, ids, j, l, k);
    } else if k < j {
        lemma_number(was, ids, k, x, j);
    } else if l < x {
        lemma_kept_docs(was, source(was, ids, j), l, x);
    } else if x < l {
        lemma_kept_docs(was, source(was, ids, j), x, l);
    }
}

/// A document is carried over as deleted exactly where it is deleted by now.
pub(crate) proof fn lemma_carried_exactly(
    was: IndexView,
    ids: Seq<u32>,
    now: IndexView,
    p: PreparedMerge,
    m: Lists,
    j: int,
    l: int,
    d: u32,
)
    requires
        prepared_from(was, ids, now, p, m),
        0 <= j < ids.len(),
        0 <= l < p.sources@[j].new_ids@.len(),
        p.sources@[j].new_ids@[l] == Some(d),
    ensures
        is_kept(was, ids, j, l),
        d == number_of(was, ids, j, l),
        d < p.num_docs,
        carry_bits(now, p)[d as int] <==> gone(now.segments[source_at(now, p.sources@[j])], l),
{
    let n = ids.len() as int;
    let ss = p.sources@;
    let s = ss[j];
    let i = source(was, ids, j);
    assert(s.new_ids@ == new_ids(was, i, merged_docs(was, ids, j).len() as int));
    assert(is_kept(was, ids, j, l));
    lemma_number(was, ids, j, l, n);
    assert(d == number_of(was, ids, j, l));
    let here = now.segments[source_at(now, s)];
    assert(follows(was.segments[i], here) && here.entry.del_gen == now.manifest.segments[source_at(
        now,
        s,
    )].del_gen);
    if gone(now.segments[source_at(now, s)], l) {
        lemma_never_resurrects(was, ids, now, p, j, l, d);
    }
    if carry_bits(now, p)[d as int] {
        let k = choose|k: int|
            0 <= k < ss.len() && stale(now, #[trigger] ss[k]) && lost(
                now,
                ss[k],
                d,
                ss[k].new_ids@.len() as int,
            );
        let x = choose|x: int|
            0 <= x < ss[k].new_ids@.len() && #[trigger] ss[k].new_ids@[x] == Some(d) && gone(
                now.segments[source_at(now, ss[k])],
                x,
            );
        assert(ss[k].new_ids@ == new_ids(
            was,
            source(was, ids, k),
            merged_docs(was, ids, k).len() as int,
        ));
        assert(is_kept(was, ids, k, x));
        lemma_number(was, ids, k, x, n);
        lemma_numbers_differ(was, ids, j, l, k, x);
    }
}

/// Behind a commit of merges a document of a source is live, under its new number,
/// exactly where it is live in the index at the time of the commit: none that was
/// deleted since the merge was prepared comes back, and none is lost. A document
/// without a new number was not live.
pub proof fn lemma_live_after_merge(
    was: IndexView,
    ids: Seq<u32>,
    now: IndexView,
    p: PreparedMerge,
    m: Lists,
    id: u32,
    base: u32,
    entry: SegmentEntry,
    files: Seq<NewFile>,
    at: Seq<char>,
    j: int,
    l: u32,
)
    requires
        prepared_from(was, ids, now, p, m),
        finished(now, p, id, base, entry, files),
        0 <= j < ids.len(),
        l < p.sources@[j].new_ids@.len(),
    ensures
        match p.sources@[j].new_ids@[l as int] {
            Some(d) => doc_in(merged_view(now, p, entry), d, at) is Some <==> doc_in(
                now.segments[source_at(now, p.sources@[j])],
                l,
                at,
            ) is Some,
            None => doc_in(now.segments[source_at(now, p.sources@[j])], l, at) is None,
        },
{
    reveal(finished);
    let n = ids.len() as int;
    let s = p.sources@[j];
    let i = source(was, ids, j);
    let docs = merged_docs(was, ids, n);
    let here = now.segments[source_at(now, s)];
    let there = was.segments[i];
    let bits = carry_bits(now, p);
    assert(follows(there, here));
    assert(s.new_ids@ == new_ids(was, i, merged_docs(was, ids, j).len() as int));
    lemma_entry(was.manifest, i);
    lemma_place(was.manifest, global_id(was, i, l as int), i, l);
    assert(doc_of(was, global_id(was, i, l as int)) is Some <==> doc_in(
        there,
        l,
        was.root,
    ) is Some);
    match s.new_ids@[l as int] {
        Some(d) => {
            lemma_carried_exactly(was, ids, now, p, m, j, l as int, d);
            assert(p.segment.doc@.len() == p.segment.doc.len());
            lemma_flushed_entry(p.segment, 0, 0, m, docs, was.root);
            lemma_docs_read_back(p.segment, 0, 0, m, docs, was.root, at, d);
            let merged = merged_view(now, p, entry);
            assert(gone(merged, d as int) <==> bits[d as int]) by {
                if count_set(bits) == 0 {
                    lemma_none_set(bits, d as int);
                }
            }
        },
        None => {},
    }
}

/// Nothing is set where none is counted.
pub(crate) proof fn lemma_none_set(bits: Seq<bool>, d: int)
    requires
        count_set(bits) == 0,
        0 <= d < bits.len(),
    ensures
        !bits[d],
    decreases bits.len(),
{
    if d < bits.len() - 1 {
        lemma_none_set(bits.drop_last(), d);
    }
}

/// A commit of merges is the next generation: no source remains, every other segment
/// stays as it was, with its documents and their numbers, and merged documents get
/// numbers behind all that there were.
pub proof fn lemma_merges_replace_sources(
    now: IndexView,
    ps: Seq<PreparedMerge>,
    time: i64,
    c: Commit,
)
    requires
        valid(now.manifest),
        now.manifest.generation < u64::MAX,
        now.manifest.next_segment_id + ps.len() <= u32::MAX,
        now.manifest.segments.len() > 0 ==> now.manifest.segments.last().end() <= u32::MAX,
        merge_base(now, ps, ps.len() as int) <= u32::MAX,
        first_absent(now.manifest.segments, replaced(ps, ps.len() as int), 0) is None,
        merges_hold(now, ps, time, c),
    ensures
        c.manifest@.generation == now.manifest.generation + 1,
        forall|x: int|
            #![trigger c.manifest@.segments[x]]
            0 <= x < c.manifest@.segments.len() ==> {
                let e = c.manifest@.segments[x];
                let ids = replaced(ps, ps.len() as int);
                ||| now.manifest.segments.contains(e) && !ids.contains(e.segment_id)
                ||| e.segment_id >= now.manifest.next_segment_id && !ids.contains(e.segment_id)
                    && forall|y: int|
                    0 <= y < now.manifest.segments.len() ==> (#[trigger] now.manifest.segments[y]).end()
                        <= e.base_doc
            },
        forall|y: int|
            #![trigger now.manifest.segments[y]]
            0 <= y < now.manifest.segments.len() && !replaced(ps, ps.len() as int).contains(
                now.manifest.segments[y].segment_id,
            ) ==> c.manifest@.segments.contains(now.manifest.segments[y]),
{
    reveal(merges_hold);
    reveal(finished);
    let n = ps.len() as int;
    let es = now.manifest.segments;
    let ids = replaced(ps, n);
    let (entries, parts) = choose|entries: Seq<SegmentEntry>, parts: Seq<Seq<NewFile>>|
        {
            &&& #[trigger] all_finished(now, ps, entries, parts, n)
            &&& c.files@ == all_parts(parts, n)
            &&& c.manifest@ == (ManifestView {
                generation: (now.manifest.generation + 1) as u64,
                next_segment_id: (now.manifest.next_segment_id + n) as u32,
                committed_unix_nanos: time,
                segments: retained(es, ids, es.len() as int) + entries,
                ..now.manifest
            })
            &&& views(c.retired@) == dropped_files(es, ids, ids.len() as int)
        };
    let q = retained(es, ids, es.len() as int);
    let all = c.manifest@.segments;
    lemma_retained_exactly(es, ids, es.len() as int);
    assert forall|id: u32| ids.contains(id) implies id < now.manifest.next_segment_id by {
        let k = choose|k: int| 0 <= k < ids.len() && ids[k] == id;
        lemma_source_is_there(now.manifest, ids, 0, k);
    }
    assert forall|x: int| #![trigger all[x]] 0 <= x < all.len() implies {
        ||| es.contains(all[x]) && !ids.contains(all[x].segment_id)
        ||| all[x].segment_id >= now.manifest.next_segment_id && !ids.contains(all[x].segment_id)
            && forall|y: int| 0 <= y < es.len() ==> (#[trigger] es[y]).end() <= all[x].base_doc
    } by {
        if x < q.len() {
            assert(all[x] == q[x]);
        } else {
            let k = x - q.len();
            assert(all[x] == entries[k]);
            assert(finished(
                now,
                ps[k],
                (now.manifest.next_segment_id + k) as u32,
                merge_base(now, ps, k) as u32,
                entries[k],
                parts[k],
            ));
            lemma_bases_grow(now, ps, 0, k);
            lemma_bases_grow(now, ps, k, n);
            assert(entries[k].base_doc == merge_base(now, ps, k));
            assert forall|y: int| 0 <= y < es.len() implies (#[trigger] es[y]).end()
                <= all[x].base_doc by {
                lemma_ends_ascend(now.manifest, y, es.len() - 1);
                assert(es.last() == es[es.len() - 1]);
            }
        }
    }
    assert forall|y: int|
        #![trigger es[y]]
        0 <= y < es.len() && !ids.contains(es[y].segment_id) implies all.contains(es[y]) by {
        let a = choose|a: int| 0 <= a < q.len() && #[trigger] q[a] == es[y];
        assert(all[a] == es[y]);
    }
}

/// What a merge was prepared from: an earlier state of the index, the ids of the
/// sources, and the postings.
pub ghost struct Origin {
    pub was: IndexView,
    pub ids: Seq<u32>,
    pub lists: Lists,
}

/// The entry of merge `k` of a commit, behind those that stay.
pub open spec fn entry_of(c: Commit, ps: Seq<PreparedMerge>, k: int) -> SegmentEntry {
    c.manifest@.segments[c.manifest@.segments.len() - ps.len() + k]
}

/// The files of a commit that are those of merge `k`.
pub(crate) proof fn lemma_merge_at(
    now: IndexView,
    ps: Seq<PreparedMerge>,
    time: i64,
    c: Commit,
    k: int,
) -> (files: Seq<NewFile>)
    requires
        merges_hold(now, ps, time, c),
        0 <= k < ps.len(),
    ensures
        c.manifest@.segments.len() >= ps.len(),
        finished(
            now,
            ps[k],
            (now.manifest.next_segment_id + k) as u32,
            merge_base(now, ps, k) as u32,
            entry_of(c, ps, k),
            files,
        ),
        forall|f: NewFile| #[trigger] files.contains(f) ==> c.files@.contains(f),
{
    reveal(merges_hold);
    let n = ps.len() as int;
    let es = now.manifest.segments;
    let ids = replaced(ps, n);
    let (entries, parts) = choose|entries: Seq<SegmentEntry>, parts: Seq<Seq<NewFile>>|
        {
            &&& #[trigger] all_finished(now, ps, entries, parts, n)
            &&& c.files@ == all_parts(parts, n)
            &&& c.manifest@ == (ManifestView {
                generation: (now.manifest.generation + 1) as u64,
                next_segment_id: (now.manifest.next_segment_id + n) as u32,
                committed_unix_nanos: time,
                segments: retained(es, ids, es.len() as int) + entries,
                ..now.manifest
            })
            &&& views(c.retired@) == dropped_files(es, ids, ids.len() as int)
        };
    assert(entry_of(c, ps, k) == entries[k]);
    assert(finished(
        now,
        ps[k],
        (now.manifest.next_segment_id + k) as u32,
        merge_base(now, ps, k) as u32,
        entries[k],
        parts[k],
    ));
    lemma_part_of_all(parts, n, k);
    parts[k]
}

/// These files of a commit open as the segment of a merge.
pub open spec fn opens_as_merged(
    now: IndexView,
    p: PreparedMerge,
    c: Commit,
    e: SegmentEntry,
    files: Seq<NewFile>,
    verify: bool,
) -> bool {
    &&& files.len() >= 2
    &&& forall|f: NewFile| #[trigger] files.contains(f) ==> c.files@.contains(f)
    &&& opened(
        now.dir(),
        e,
        FileView::Bytes(files[0].bytes@),
        FileView::Bytes(files[1].bytes@),
        if files.len() > 2 {
            FileView::Bytes(files[2].bytes@)
        } else {
            FileView::Missing
        },
        verify,
    ) == Ok::<_, ErrorView>(merged_view(now, p, e))
}

/// Behind a commit of merges, each prepared from an earlier state, a document of a source
/// is live exactly where it is live in the index at the time of the commit. The segment of
/// merge `k` has the next free id and numbers behind all that there were, and its files
/// open as it.
pub proof fn lemma_merges_keep_what_is_live(
    now: IndexView,
    ps: Seq<PreparedMerge>,
    time: i64,
    c: Commit,
    k: int,
    from: Origin,
    j: int,
    l: u32,
    at: Seq<char>,
    verify: bool,
)
    requires
        valid(now.manifest),
        merges_fit(now, ps),
        merges_hold(now, ps, time, c),
        0 <= k < ps.len(),
        prepared_from(from.was, from.ids, now, ps[k], from.lists),
        all_sorted(from.lists),
        storable(from.lists, 0),
        0 <= j < ps[k].sources@.len(),
        l < ps[k].sources@[j].new_ids@.len(),
    ensures
        entry_of(c, ps, k).segment_id == now.manifest.next_segment_id + k,
        forall|y: int|
            0 <= y < now.manifest.segments.len() ==> (#[trigger] now.manifest.segments[y]).end()
                <= entry_of(c, ps, k).base_doc,
        exists|files: Seq<NewFile>| #[trigger]
            opens_as_merged(now, ps[k], c, entry_of(c, ps, k), files, verify),
        match ps[k].sources@[j].new_ids@[l as int] {
            Some(d) => doc_in(merged_view(now, ps[k], entry_of(c, ps, k)), d, at) is Some
                <==> doc_in(now.segments[source_at(now, ps[k].sources@[j])], l, at) is Some,
            None => doc_in(now.segments[source_at(now, ps[k].sources@[j])], l, at) is None,
        },
{
    let p = ps[k];
    let e = entry_of(c, ps, k);
    let id = (now.manifest.next_segment_id + k) as u32;
    let base = merge_base(now, ps, k) as u32;
    let files = lemma_merge_at(now, ps, time, c, k);
    lemma_live_after_merge(
        from.was,
        from.ids,
        now,
        p,
        from.lists,
        id,
        base,
        e,
        files,
        at,
        j,
        l,
    );
    lemma_merged_opens(
        now,
        p,
        id,
        base,
        e,
        files,
        from.lists,
        merged_docs(from.was, from.ids, from.ids.len() as int),
        from.was.root,
        now.dir(),
        verify,
    );
    lemma_placed_behind(now, ps, k, p, e, files);
    assert(opens_as_merged(now, p, c, e, files, verify));
}

/// A merged segment is numbered behind every segment that there was.
pub(crate) proof fn lemma_placed_behind(
    now: IndexView,
    ps: Seq<PreparedMerge>,
    k: int,
    p: PreparedMerge,
    e: SegmentEntry,
    files: Seq<NewFile>,
)
    requires
        valid(now.manifest),
        merges_fit(now, ps),
        0 <= k < ps.len(),
        finished(
            now,
            p,
            (now.manifest.next_segment_id + k) as u32,
            merge_base(now, ps, k) as u32,
            e,
            files,
        ),
    ensures
        files.len() >= 2,
        e.segment_id == now.manifest.next_segment_id + k,
        forall|y: int|
            0 <= y < now.manifest.segments.len() ==> (#[trigger] now.manifest.segments[y]).end()
                <= e.base_doc,
{
    reveal(finished);
    let es = now.manifest.segments;
    lemma_bases_grow(now, ps, 0, k);
    lemma_bases_grow(now, ps, k, ps.len() as int);
    assert forall|y: int| 0 <= y < es.len() implies (#[trigger] es[y]).end() <= e.base_doc by {
        lemma_ends_ascend(now.manifest, y, es.len() - 1);
        assert(es.last() == es[es.len() - 1]);
    }
}

/// The files of one merge are among those of all.
proof fn lemma_part_of_all(parts: Seq<Seq<NewFile>>, n: int, k: int)
    requires
        0 <= k < n <= parts.len(),
    ensures
        forall|f: NewFile| #[trigger] parts[k].contains(f) ==> all_parts(parts, n).contains(f),
    decreases n,
{
    if k < n - 1 {
        lemma_part_of_all(parts, n - 1, k);
    }
    let a = all_parts(parts, n - 1);
    let all = all_parts(parts, n);
    assert forall|f: NewFile| #[trigger] parts[k].contains(f) implies all.contains(f) by {
        if k < n - 1 {
            let x = choose|x: int| 0 <= x < a.len() && a[x] == f;
            assert(all[x] == f);
        } else {
            let x = choose|x: int| 0 <= x < parts[k].len() && parts[k][x] == f;
            assert(all[a.len() + x] == f);
        }
    }
}

/// The entries that stay are those whose ids are not replaced.
proof fn lemma_retained_exactly(es: Seq<SegmentEntry>, ids: Seq<u32>, n: int)
    requires
        0 <= n <= es.len(),
    ensures
        forall|a: int|
            #![trigger retained(es, ids, n)[a]]
            0 <= a < retained(es, ids, n).len() ==> es.contains(retained(es, ids, n)[a])
                && !ids.contains(retained(es, ids, n)[a].segment_id),
        forall|y: int|
            #![trigger es[y]]
            0 <= y < n && !ids.contains(es[y].segment_id) ==> exists|a: int|
                0 <= a < retained(es, ids, n).len() && #[trigger] retained(es, ids, n)[a] == es[y],
    decreases n,
{
    if n > 0 {
        lemma_retained_exactly(es, ids, n - 1);
        let q = retained(es, ids, n - 1);
        let r = retained(es, ids, n);
        let e = es[n - 1];
        assert forall|a: int| #![trigger r[a]] 0 <= a < r.len() implies es.contains(r[a])
            && !ids.contains(r[a].segment_id) by {
            if a < q.len() {
                assert(r[a] == q[a]);
            } else {
                assert(r[a] == e);
            }
        }
        assert forall|y: int|
            #![trigger es[y]]
            0 <= y < n && !ids.contains(es[y].segment_id) implies exists|a: int|
            0 <= a < r.len() && #[trigger] r[a] == es[y] by {
            if y < n - 1 {
                let a = choose|a: int| 0 <= a < q.len() && #[trigger] q[a] == es[y];
                assert(r[a] == es[y]);
            } else {
                assert(r[q.len() as int] == es[y]);
            }
        }
    }
}

/// A source that is not absent has the id of a segment.
proof fn lemma_source_is_there(m: ManifestView, ids: Seq<u32>, i: int, k: int)
    requires
        valid(m),
        0 <= i <= k < ids.len(),
        first_absent(m.segments, ids, i) is None,
    ensures
        ids[k] < m.next_segment_id,
    decreases k - i,
{
    if i < k {
        lemma_source_is_there(m, ids, i + 1, k);
    } else {
        lemma_seg_at(m.segments, ids[k], 0);
        lemma_entry(m, seg_index(m.segments, ids[k], 0));
    }
}

/// The segment that is found by its id has it.
pub(crate) proof fn lemma_seg_at(es: Seq<SegmentEntry>, id: u32, i: int)
    requires
        0 <= i,
        seg_index(es, id, i) < es.len(),
    ensures
        i <= seg_index(es, id, i),
        es[seg_index(es, id, i)].segment_id == id,
    decreases es.len() - i,
{
    if i < es.len() && es[i].segment_id != id {
        lemma_seg_at(es, id, i + 1);
    }
}

/// Merged segments are numbered on from the last document of the index, one behind the other.
pub proof fn lemma_merge_base(v: IndexView, ps: Seq<PreparedMerge>, k: int)
    requires
        0 <= k <= ps.len(),
        v.manifest.segments.len() > 0,
        v.manifest.segments.last().base_doc + v.manifest.segments.last().num_docs <= u32::MAX,
    ensures
        merge_base(v, ps, k) == v.manifest.segments.last().base_doc
            + v.manifest.segments.last().num_docs + ps.take(k).fold_left(
            0int,
            |a: int, p: PreparedMerge| a + p.num_docs,
        ),
    decreases k,
{
    if k > 0 {
        lemma_merge_base(v, ps, k - 1);
        assert(ps.take(k).drop_last() =~= ps.take(k - 1));
        assert(ps.take(k).last() == ps[k - 1]);
    } else {
        assert(ps.take(k) =~= Seq::empty());
    }
}

} // verus!
