//! What an index knows and answers behind a commit of merges: what it knew and
//! answered before.

use vstd::prelude::*;

use super::answer_laws::{has_dictionary, indexed_from, told};
use super::commit::Commit;
use super::converge_laws::{in_index, knows, overlay_within, paths_differ};
use super::flush::{lemma_flushed_entry, Lists};
use super::flush_laws::{lemma_docs_read_back, lemma_flushed_dictionary, read_back, storable};
use super::live_laws::{
    entry_of, follows, lemma_carried_exactly, lemma_merge_at, lemma_none_set, lemma_numbers_differ,
    lemma_placed_behind, lemma_seg_at, merged_view, prepared_from, Origin,
};
use super::merge::{
    docs_in, global_id, kept_docs, merged_docs, merged_lists, new_ids, PreparedMerge,
};
use super::merge_commit::{
    carry_bits, finished, merge_base, merges_fit, merges_hold, replaced, retained, source_at,
};
use super::merge_laws::{
    is_kept, lemma_merged_lists, lemma_number, lemma_same_term, mergeable, number_of, source,
    written,
};
use super::merge_plan::ids_unique;
use super::open_laws::{kept_segments, lemma_kept_segments, merged_index};
use super::path_laws::{lemma_relative_is_of_names, lemma_relative_under};
use super::reader::{doc_of, lemma_place, patch_for, place_of, IndexView};
use super::recovery_laws::consistent;
use super::search_laws::{lists_as, tells};
use super::segment::{doc_in, gone, status_of, SegmentView};
use super::state_laws::Spot;
use super::writer::relative;
use crate::error::ErrorView;
use crate::format::del::count_set;
use crate::format::doc::{lemma_kind_bytes, record_in, DocKind};
use crate::format::idx::TermView;
use crate::format::manifest::{lemma_entry, valid, SegmentEntry};
use crate::index::builder::{all_from, ContentView};
use crate::index::memory::{all_sorted, list_at, sorted_list};

verus! {

/// The merge was prepared from an earlier state of the index, with the postings of
/// its sources.
pub open spec fn well_prepared(v: IndexView, p: PreparedMerge, o: Origin) -> bool {
    &&& prepared_from(o.was, o.ids, v, p, o.lists)
    &&& docs_in(o.was, o.ids, o.ids.len() as int) <= u32::MAX
    &&& merged_lists(o.was, o.ids, o.ids.len() as int) == Ok::<Lists, ErrorView>(o.lists)
    &&& storable(o.lists, 0)
    &&& forall|j: int|
        0 <= j < p.sources@.len() ==> 0 <= source_at(v, #[trigger] p.sources@[j])
            < v.segments.len()
}

/// Document `l` of source `j` has the number `d` in the merge.
pub open spec fn numbered(p: PreparedMerge, j: int, l: int, d: u32) -> bool {
    &&& 0 <= j < p.sources@.len()
    &&& 0 <= l < p.sources@[j].new_ids@.len()
    &&& p.sources@[j].new_ids@[l] == Some(d)
}

/// The id of document `l` of source `j`.
pub open spec fn source_id(v: IndexView, p: PreparedMerge, j: int, l: int) -> u32 {
    (v.manifest.segments[source_at(v, p.sources@[j])].base_doc + l) as u32
}

/// The id that the document with the number `d` in the merge had.
pub open spec fn id_before(v: IndexView, p: PreparedMerge, d: u32) -> u32 {
    let (j, l) = choose|j: int, l: int| #[trigger] numbered(p, j, l, d);
    source_id(v, p, j, l)
}

/// The segment of merge `k` holds the id.
pub open spec fn holds_id(c: Commit, ps: Seq<PreparedMerge>, k: int, g: u32) -> bool {
    &&& 0 <= k < ps.len()
    &&& entry_of(c, ps, k).base_doc <= g < entry_of(c, ps, k).base_doc + entry_of(c, ps, k).num_docs
}

/// The contents of an index once merges are in it: under its new id a document has
/// the content it had.
pub open spec fn contents_merged(
    v: IndexView,
    ps: Seq<PreparedMerge>,
    c: Commit,
    of: Map<u32, ContentView>,
) -> Map<u32, ContentView> {
    Map::new(
        |g: u32| true,
        |g: u32|
            if exists|k: int| #[trigger] holds_id(c, ps, k, g) {
                let k = choose|k: int| #[trigger] holds_id(c, ps, k, g);
                of[id_before(v, ps[k], (g - entry_of(c, ps, k).base_doc) as u32)]
            } else {
                of[g]
            },
    )
}

proof fn lemma_kept_from(v: IndexView, i: int, n: int, d: int) -> (l: int)
    requires
        0 <= d < kept_docs(v, i, n).len(),
    ensures
        0 <= l < n,
        doc_of(v, global_id(v, i, l)) is Some,
        kept_docs(v, i, l).len() == d,
    decreases n,
{
    if d < kept_docs(v, i, n - 1).len() {
        lemma_kept_from(v, i, n - 1, d)
    } else {
        n - 1
    }
}

/// Every number of a merge is that of a document that is kept.
proof fn lemma_number_from(v: IndexView, ids: Seq<u32>, k: int, d: int) -> (r: (int, int))
    requires
        0 <= k <= ids.len(),
        0 <= d < merged_docs(v, ids, k).len(),
    ensures
        is_kept(v, ids, r.0, r.1),
        number_of(v, ids, r.0, r.1) == d,
    decreases k,
{
    let before = merged_docs(v, ids, k - 1).len() as int;
    if d < before {
        lemma_number_from(v, ids, k - 1, d)
    } else {
        let i = source(v, ids, k - 1);
        let l = lemma_kept_from(v, i, v.manifest.segments[i].num_docs as int, d - before);
        (k - 1, l)
    }
}

/// Every number of a merge is given.
proof fn lemma_numbered_from(v: IndexView, p: PreparedMerge, o: Origin, d: u32) -> (r: (int, int))
    requires
        well_prepared(v, p, o),
        d < p.num_docs,
    ensures
        numbered(p, r.0, r.1, d),
{
    let (j, l) = lemma_number_from(o.was, o.ids, o.ids.len() as int, d as int);
    let i = source(o.was, o.ids, j);
    assert(p.sources@[j].new_ids@ == new_ids(o.was, i, merged_docs(o.was, o.ids, j).len() as int));
    (j, l)
}

/// What is known of a document that a merge has given a number.
proof fn lemma_numbered(v: IndexView, p: PreparedMerge, o: Origin, j: int, l: int, d: u32)
    requires
        well_prepared(v, p, o),
        numbered(p, j, l, d),
    ensures
        is_kept(o.was, o.ids, j, l),
        d == number_of(o.was, o.ids, j, l),
        d < p.num_docs,
        carry_bits(v, p)[d as int] <==> gone(v.segments[source_at(v, p.sources@[j])], l),
        l < v.segments[source_at(v, p.sources@[j])].entry.num_docs,
{
    lemma_carried_exactly(o.was, o.ids, v, p, o.lists, j, l, d);
    let i = source(o.was, o.ids, j);
    assert(follows(o.was.segments[i], v.segments[source_at(v, p.sources@[j])]));
    assert(o.was.segments[i].entry == o.was.manifest.segments[i]);
}

/// A document has one number, and a number is that of one document.
proof fn lemma_same_number(
    v: IndexView,
    p: PreparedMerge,
    o: Origin,
    d: u32,
    j: int,
    l: int,
    k: int,
    x: int,
)
    requires
        well_prepared(v, p, o),
        numbered(p, j, l, d),
        numbered(p, k, x, d),
    ensures
        j == k && l == x,
{
    lemma_numbered(v, p, o, j, l, d);
    lemma_numbered(v, p, o, k, x, d);
    lemma_numbers_differ(o.was, o.ids, j, l, k, x);
}

/// The document that has the number had the id of its place in its source.
pub proof fn lemma_id_before(v: IndexView, p: PreparedMerge, o: Origin, j: int, l: int, d: u32)
    requires
        well_prepared(v, p, o),
        numbered(p, j, l, d),
    ensures
        id_before(v, p, d) == source_id(v, p, j, l),
{
    let (k, x) = choose|k: int, x: int| #[trigger] numbered(p, k, x, d);
    lemma_same_number(v, p, o, d, j, l, k, x);
}

/// The postings of a prepared merge are sorted.
proof fn lemma_prepared_sorted(
    v: IndexView,
    p: PreparedMerge,
    o: Origin,
    dicts: Seq<Seq<TermView>>,
)
    requires
        well_prepared(v, p, o),
        mergeable(o.was, o.ids, dicts),
    ensures
        all_sorted(o.lists),
{
    let m = o.lists;
    assert forall|t: Seq<char>| #[trigger] m.contains_key(t) implies sorted_list(m[t]) by {
        lemma_merged_lists(o.was, o.ids, dicts, o.ids.len() as int, t);
        assert(list_at(m, t) == m[t]);
    }
}

/// The dictionaries of the sources, which are those the index still has.
proof fn lemma_dictionaries(
    v: IndexView,
    of: Map<u32, ContentView>,
    p: PreparedMerge,
    o: Origin,
) -> (dicts: Seq<Seq<TermView>>)
    requires
        indexed_from(v, of),
        well_prepared(v, p, o),
    ensures
        mergeable(o.was, o.ids, dicts),
{
    let dicts = Seq::new(
        o.ids.len(),
        |j: int|
            choose|ks: Seq<TermView>| #[trigger]
                written(o.was.segments[source(o.was, o.ids, j)].idx, ks),
    );
    assert forall|j: int| 0 <= j < o.ids.len() implies written(
        o.was.segments[source(o.was, o.ids, j)].idx,
        #[trigger] dicts[j],
    ) by {
        let at = source_at(v, p.sources@[j]);
        assert(follows(o.was.segments[source(o.was, o.ids, j)], v.segments[at]));
        assert(has_dictionary(v.segments[at]));
        let ks = choose|ks: Seq<TermView>| #[trigger] written(v.segments[at].idx, ks);
        assert(written(o.was.segments[source(o.was, o.ids, j)].idx, ks));
    }
    dicts
}

/// What is listed of a document is listed of it behind the merge.
proof fn lemma_merged_lists_as(
    v: IndexView,
    p: PreparedMerge,
    o: Origin,
    dicts: Seq<Seq<TermView>>,
    j: int,
    l: u32,
    d: u32,
    c: ContentView,
    t: Seq<char>,
)
    requires
        well_prepared(v, p, o),
        mergeable(o.was, o.ids, dicts),
        all_sorted(o.lists),
        numbered(p, j, l as int, d),
        lists_as(v.segments[source_at(v, p.sources@[j])].idx, t, l, c),
    ensures
        lists_as(p.segment.idx@, t, d, c),
{
    lemma_numbered(v, p, o, j, l as int, d);
    let docs = merged_docs(o.was, o.ids, o.ids.len() as int);
    assert(written(o.was.segments[source(o.was, o.ids, j)].idx, dicts[j]));
    assert(follows(
        o.was.segments[source(o.was, o.ids, j)],
        v.segments[source_at(v, p.sources@[j])],
    ));
    lemma_same_term(o.was, o.ids, dicts, p.segment, o.lists, docs, j, l, t);
}

/// A merged segment tells of a document what its source told.
proof fn lemma_merged_tells(
    v: IndexView,
    p: PreparedMerge,
    o: Origin,
    dicts: Seq<Seq<TermView>>,
    entry: SegmentEntry,
    j: int,
    l: u32,
    d: u32,
    c: ContentView,
)
    requires
        well_prepared(v, p, o),
        mergeable(o.was, o.ids, dicts),
        entry.num_docs == p.num_docs,
        numbered(p, j, l as int, d),
        tells(v.segments[source_at(v, p.sources@[j])], l, c),
    ensures
        tells(merged_view(v, p, entry), d, c),
{
    let n = o.ids.len() as int;
    let docs = merged_docs(o.was, o.ids, n);
    let i = source(o.was, o.ids, j);
    let s = merged_view(v, p, entry);
    let old = v.segments[source_at(v, p.sources@[j])];
    lemma_numbered(v, p, o, j, l as int, d);
    lemma_number(o.was, o.ids, j, l as int, n);
    lemma_flushed_entry(p.segment, 0, 0, o.lists, docs, o.was.root);
    assert(p.segment.doc@.len() == p.segment.doc.len());
    lemma_docs_read_back(p.segment, 0, 0, o.lists, docs, o.was.root, o.was.root, d);
    lemma_entry(o.was.manifest, i);
    lemma_place(o.was.manifest, global_id(o.was, i, l as int), i, l);
    assert(follows(o.was.segments[i], old));
    assert(o.was.segments[i].entry == o.was.manifest.segments[i]);
    assert(docs[d as int].status == status_of(record_in(old.doc, l as int).status));
    lemma_kind_bytes(DocKind::Indexed, record_in(old.doc, l as int).status);
    assert(!gone(read_back(p.segment), d as int));
    lemma_prepared_sorted(v, p, o, dicts);
    assert forall|t: Seq<char>| #[trigger] lists_as(s.idx, t, d, c) by {
        assert(lists_as(old.idx, t, l, c));
        lemma_merged_lists_as(v, p, o, dicts, j, l, d, c, t);
    }
}

/// Every merge of a commit was prepared from an earlier state.
pub open spec fn all_well_prepared(
    v: IndexView,
    ps: Seq<PreparedMerge>,
    from: Seq<Origin>,
) -> bool {
    &&& from.len() == ps.len()
    &&& forall|k: int|
        #![trigger from[k]]
        0 <= k < ps.len() ==> well_prepared(v, ps[k], from[k])
}

/// The entry of merge `k`.
proof fn lemma_merge_entry(
    v: IndexView,
    ps: Seq<PreparedMerge>,
    now: i64,
    c: Commit,
    k: int,
)
    requires
        merges_hold(v, ps, now, c),
        0 <= k < ps.len(),
    ensures
        entry_of(c, ps, k).num_docs == ps[k].num_docs,
        entry_of(c, ps, k).base_doc == merge_base(v, ps, k) as u32,
{
    let files = lemma_merge_at(v, ps, now, c, k);
    reveal(finished);
}

/// The entries behind a commit of merges: those that stay, and behind them the merged
/// ones.
proof fn lemma_merged_layout(v: IndexView, ps: Seq<PreparedMerge>, now: i64, c: Commit)
    requires
        consistent(v),
        merges_hold(v, ps, now, c),
    ensures
        ({
            let m = c.manifest@;
            let ids = replaced(ps, ps.len() as int);
            let stay = kept_segments(v.segments, ids, v.segments.len() as int);
            let w = merged_index(v, ps, c);
            &&& m.segments.len() == stay.len() + ps.len() == w.segments.len()
            &&& forall|i: int|
                #![trigger m.segments[i]]
                0 <= i < m.segments.len() ==> if i < stay.len() {
                    m.segments[i] == stay[i].entry && w.segments[i] == stay[i]
                } else {
                    m.segments[i] == entry_of(c, ps, i - stay.len()) && w.segments[i]
                        == merged_view(v, ps[i - stay.len()], m.segments[i])
                }
        }),
{
    let ids = replaced(ps, ps.len() as int);
    let es = v.manifest.segments;
    lemma_kept_segments(es, v.segments, ids, es.len() as int);
    let stay = kept_segments(v.segments, ids, es.len() as int);
    let m = c.manifest@;
    assert(m.segments.len() == stay.len() + ps.len() && forall|x: int|
        0 <= x < stay.len() ==> #[trigger] m.segments[x] == retained(es, ids, es.len() as int)[x]) by {
        reveal(merges_hold);
    }
    assert forall|i: int| #![trigger m.segments[i]] 0 <= i < m.segments.len() implies if i
        < stay.len() {
        m.segments[i] == stay[i].entry && merged_index(v, ps, c).segments[i] == stay[i]
    } else {
        m.segments[i] == entry_of(c, ps, i - stay.len()) && merged_index(v, ps, c).segments[i]
            == merged_view(v, ps[i - stay.len()], m.segments[i])
    } by {
        if i < stay.len() {
            assert(stay[i].entry == retained(es, ids, es.len() as int)[i]);
        }
    }
}

/// The segment of a merge has a dictionary.
proof fn lemma_merged_dictionary(
    v: IndexView,
    of: Map<u32, ContentView>,
    p: PreparedMerge,
    o: Origin,
    entry: SegmentEntry,
)
    requires
        indexed_from(v, of),
        well_prepared(v, p, o),
    ensures
        has_dictionary(merged_view(v, p, entry)),
{
    let docs = merged_docs(o.was, o.ids, o.ids.len() as int);
    let dicts = lemma_dictionaries(v, of, p, o);
    lemma_prepared_sorted(v, p, o, dicts);
    assert(all_from(o.lists, 0));
    let ks = lemma_flushed_dictionary(p.segment, 0, 0, o.lists, docs, o.was.root);
    assert(written(merged_view(v, p, entry).idx, ks));
}

/// A merged document that is not deleted is told of as it was.
proof fn lemma_merged_told(
    v: IndexView,
    of: Map<u32, ContentView>,
    p: PreparedMerge,
    o: Origin,
    entry: SegmentEntry,
    d: u32,
)
    requires
        valid(v.manifest),
        indexed_from(v, of),
        well_prepared(v, p, o),
        entry.num_docs == p.num_docs,
        d < p.num_docs,
    ensures
        gone(merged_view(v, p, entry), d as int) || tells(
            merged_view(v, p, entry),
            d,
            of[id_before(v, p, d)],
        ),
{
    let s = merged_view(v, p, entry);
    if !gone(s, d as int) {
        let (j, l) = lemma_numbered_from(v, p, o, d);
        lemma_numbered(v, p, o, j, l, d);
        lemma_id_before(v, p, o, j, l, d);
        let at = source_at(v, p.sources@[j]);
        let g = source_id(v, p, j, l);
        if count_set(carry_bits(v, p)) == 0 {
            lemma_none_set(carry_bits(v, p), d as int);
        }
        assert(v.segments[at].entry == v.manifest.segments[at]);
        lemma_entry(v.manifest, at);
        lemma_place(v.manifest, g, at, l as u32);
        assert(told(v, of, g));
        let dicts = lemma_dictionaries(v, of, p, o);
        lemma_merged_tells(v, p, o, dicts, entry, j, l as u32, d, of[g]);
    }
}

/// Behind a commit of merges every document is indexed from the content that it was
/// indexed from before.
pub proof fn lemma_merged_contents(
    v: IndexView,
    of: Map<u32, ContentView>,
    ps: Seq<PreparedMerge>,
    from: Seq<Origin>,
    now: i64,
    c: Commit,
)
    requires
        valid(v.manifest),
        indexed_from(v, of),
        all_well_prepared(v, ps, from),
        merges_hold(v, ps, now, c),
        valid(c.manifest@),
    ensures
        indexed_from(merged_index(v, ps, c), contents_merged(v, ps, c, of)),
{
    let w = merged_index(v, ps, c);
    let m = c.manifest@;
    let es = v.manifest.segments;
    let ids = replaced(ps, ps.len() as int);
    let stay = kept_segments(v.segments, ids, v.segments.len() as int);
    let after = contents_merged(v, ps, c, of);
    lemma_merged_layout(v, ps, now, c);
    lemma_kept_segments(es, v.segments, ids, es.len() as int);
    assert forall|i: int| #![trigger w.segments[i]] 0 <= i < w.segments.len() implies has_dictionary(
        w.segments[i],
    ) && w.segments[i].entry == m.segments[i] && (w.segments[i].del matches Some(bits)
        ==> bits.len() == w.segments[i].entry.num_docs) by {
        assert(m.segments[i] == m.segments[i]);
        if i < stay.len() {
            let y = choose|y: int| 0 <= y < es.len() && #[trigger] v.segments[y] == stay[i];
            assert(has_dictionary(v.segments[y]));
        } else {
            let k = i - stay.len();
            assert(well_prepared(v, ps[k], from[k]));
            lemma_merged_dictionary(v, of, ps[k], from[k], m.segments[i]);
            lemma_merge_entry(v, ps, now, c, k);
        }
    }
    assert forall|g: u32| #[trigger] told(w, after, g) by {
        if place_of(m.segments, g) is Some {
            let (i, l) = place_of(m.segments, g)->Some_0;
            lemma_place(m, g, i, l);
            if i < stay.len() {
                let y = choose|y: int| 0 <= y < es.len() && #[trigger] v.segments[y] == stay[i];
                assert(v.segments[y].entry == es[y]);
                lemma_place(v.manifest, g, y, l);
                assert(told(v, of, g));
                if exists|k: int| #[trigger] holds_id(c, ps, k, g) {
                    let k = choose|k: int| #[trigger] holds_id(c, ps, k, g);
                    assert(m.segments[stay.len() + k] == entry_of(c, ps, k));
                    lemma_place(m, g, stay.len() + k, (g - entry_of(c, ps, k).base_doc) as u32);
                }
            } else {
                let k = i - stay.len();
                assert(holds_id(c, ps, k, g));
                let x = choose|x: int| #[trigger] holds_id(c, ps, x, g);
                assert(m.segments[stay.len() + x] == entry_of(c, ps, x));
                lemma_place(m, g, stay.len() + x, (g - entry_of(c, ps, x).base_doc) as u32);
                assert(x == k);
                lemma_merge_entry(v, ps, now, c, k);
                assert(well_prepared(v, ps[k], from[k]));
                lemma_merged_told(v, of, ps[k], from[k], m.segments[i], l);
            }
        }
    }
}

/// Nothing of the sources was patched since the merge was prepared: a document that is
/// still there is known as it was.
pub open spec fn unpatched(v: IndexView, p: PreparedMerge, o: Origin) -> bool {
    &&& o.was.root == v.root
    &&& forall|j: int, l: int|
        0 <= j < p.sources@.len() && 0 <= l < p.sources@[j].new_ids@.len() && doc_of(
            v,
            #[trigger] source_id(v, p, j, l),
        ) is Some ==> doc_of(o.was, global_id(o.was, source(o.was, o.ids, j), l)) == doc_of(
            v,
            source_id(v, p, j, l),
        )
}

/// A document that a merge has given a number is known behind it exactly as it was.
proof fn lemma_moved(
    v: IndexView,
    ps: Seq<PreparedMerge>,
    o: Origin,
    now: i64,
    c: Commit,
    k: int,
    j: int,
    l: int,
    d: u32,
    s: Spot,
)
    requires
        valid(v.manifest),
        consistent(v),
        overlay_within(v),
        merges_fit(v, ps),
        merges_hold(v, ps, now, c),
        valid(c.manifest@),
        0 <= k < ps.len(),
        well_prepared(v, ps[k], o),
        unpatched(v, ps[k], o),
        numbered(ps[k], j, l, d),
    ensures
        knows(merged_index(v, ps, c), (entry_of(c, ps, k).base_doc + d) as u32, s) <==> knows(
            v,
            source_id(v, ps[k], j, l),
            s,
        ),
{
    let p = ps[k];
    let m = c.manifest@;
    let e = entry_of(c, ps, k);
    let w = merged_index(v, ps, c);
    let g = (e.base_doc + d) as u32;
    let x = (m.segments.len() - ps.len() + k) as int;
    let at = source_at(v, p.sources@[j]);
    let id = source_id(v, p, j, l);
    let i = source(o.was, o.ids, j);
    let gid = global_id(o.was, i, l);
    let n = o.ids.len() as int;
    let docs = merged_docs(o.was, o.ids, n);
    let merged = merged_view(v, p, e);
    let files = lemma_merge_at(v, ps, now, c, k);
    lemma_merge_entry(v, ps, now, c, k);
    lemma_merged_layout(v, ps, now, c);
    assert(m.segments[x] == e && w.segments[x] == merged);
    lemma_numbered(v, p, o, j, l, d);
    lemma_number(o.was, o.ids, j, l, n);
    lemma_entry(m, x);
    lemma_place(m, g, x, d);
    lemma_placed_behind(v, ps, k, p, e, files);
    assert(patch_for(v.overlay, g, 0) is None);
    lemma_entry(v.manifest, at);
    assert(v.segments[at].entry == v.manifest.segments[at]);
    lemma_place(v.manifest, id, at, l as u32);
    lemma_entry(o.was.manifest, i);
    lemma_place(o.was.manifest, gid, i, l as u32);
    assert(follows(o.was.segments[i], v.segments[at]));
    assert(o.was.segments[i].entry == o.was.manifest.segments[i]);
    if count_set(carry_bits(v, p)) == 0 {
        lemma_none_set(carry_bits(v, p), d as int);
    }
    assert(gone(merged, d as int) <==> gone(v.segments[at], l));
    lemma_flushed_entry(p.segment, 0, 0, o.lists, docs, o.was.root);
    assert(p.segment.doc@.len() == p.segment.doc.len());
    lemma_docs_read_back(p.segment, 0, 0, o.lists, docs, o.was.root, v.root, d);
    assert(doc_in(o.was.segments[i], l as u32, o.was.root) is Some);
    assert(doc_of(v, id) is Some <==> !gone(v.segments[at], l));
    if doc_of(v, id) is Some {
        let was = doc_of(v, id)->Some_0;
        assert(docs[d as int] == was);
        lemma_relative_is_of_names(v.root, was.path);
        lemma_relative_under(v.root, relative(v.root, was.path));
        assert(doc_in(merged, d, v.root) == doc_in(read_back(p.segment), d, v.root));
    }
}

/// A document of a segment that stays is known as it was.
proof fn lemma_stayed(
    v: IndexView,
    ps: Seq<PreparedMerge>,
    now: i64,
    c: Commit,
    x: int,
    l: u32,
    g: u32,
)
    requires
        valid(v.manifest),
        consistent(v),
        merges_hold(v, ps, now, c),
        valid(c.manifest@),
        place_of(c.manifest@.segments, g) == Some((x, l)),
        x < c.manifest@.segments.len() - ps.len(),
    ensures
        doc_of(merged_index(v, ps, c), g) == doc_of(v, g),
        place_of(v.manifest.segments, g) matches Some((y, m)) && !replaced(
            ps,
            ps.len() as int,
        ).contains(v.manifest.segments[y].segment_id),
{
    let es = v.manifest.segments;
    let ids = replaced(ps, ps.len() as int);
    let stay = kept_segments(v.segments, ids, es.len() as int);
    lemma_merged_layout(v, ps, now, c);
    lemma_kept_segments(es, v.segments, ids, es.len() as int);
    lemma_place(c.manifest@, g, x, l);
    assert(c.manifest@.segments[x] == stay[x].entry);
    let y = choose|y: int| 0 <= y < es.len() && #[trigger] v.segments[y] == stay[x];
    assert(v.segments[y].entry == es[y]);
    lemma_place(v.manifest, g, y, l);
}

/// One of the merges has a source with the id.
proof fn lemma_replaced_by(ps: Seq<PreparedMerge>, n: int, id: u32) -> (r: (int, int))
    requires
        0 <= n <= ps.len(),
        replaced(ps, n).contains(id),
    ensures
        0 <= r.0 < n,
        0 <= r.1 < ps[r.0].sources@.len(),
        ps[r.0].sources@[r.1].segment_id == id,
    decreases n,
{
    let all = replaced(ps, n);
    let before = replaced(ps, n - 1);
    let x = choose|x: int| 0 <= x < all.len() && all[x] == id;
    if x < before.len() {
        assert(before[x] == id);
        lemma_replaced_by(ps, n - 1, id)
    } else {
        (n - 1, x - before.len())
    }
}

/// Where the source of a merge stands among those of all.
proof fn lemma_replaced_at(ps: Seq<PreparedMerge>, n: int, k: int, j: int) -> (x: int)
    requires
        0 <= k < n <= ps.len(),
        0 <= j < ps[k].sources@.len(),
    ensures
        x == replaced(ps, k).len() + j,
        x < replaced(ps, k + 1).len() <= replaced(ps, n).len(),
        replaced(ps, n)[x] == ps[k].sources@[j].segment_id,
    decreases n,
{
    if k < n - 1 {
        let x = lemma_replaced_at(ps, n - 1, k, j);
        assert(replaced(ps, n)[x] == replaced(ps, n - 1)[x]);
        x
    } else {
        replaced(ps, k).len() + j
    }
}

proof fn lemma_replaced_grows(ps: Seq<PreparedMerge>, a: int, b: int)
    requires
        0 <= a <= b,
    ensures
        replaced(ps, a).len() <= replaced(ps, b).len(),
    decreases b - a,
{
    if a < b {
        lemma_replaced_grows(ps, a, b - 1);
    }
}

/// No segment is a source of two merges, nor twice of one.
proof fn lemma_one_merge_each(ps: Seq<PreparedMerge>, k: int, j: int, a: int, b: int)
    requires
        replaced(ps, ps.len() as int).no_duplicates(),
        0 <= k < ps.len(),
        0 <= a < ps.len(),
        0 <= j < ps[k].sources@.len(),
        0 <= b < ps[a].sources@.len(),
        ps[k].sources@[j].segment_id == ps[a].sources@[b].segment_id,
    ensures
        k == a && j == b,
{
    let n = ps.len() as int;
    let x = lemma_replaced_at(ps, n, k, j);
    let y = lemma_replaced_at(ps, n, a, b);
    assert(x == y);
    if k < a {
        lemma_replaced_grows(ps, k + 1, a);
    } else if a < k {
        lemma_replaced_grows(ps, a + 1, k);
    }
}

/// Merges that can be committed: each prepared from an earlier state of the index, of
/// which nothing was patched since, and no segment a source of two.
pub open spec fn can_merge(v: IndexView, ps: Seq<PreparedMerge>, from: Seq<Origin>) -> bool {
    &&& merges_fit(v, ps)
    &&& all_well_prepared(v, ps, from)
    &&& forall|k: int| #![trigger from[k]] 0 <= k < ps.len() ==> unpatched(v, ps[k], from[k])
    &&& replaced(ps, ps.len() as int).no_duplicates()
}

/// The id that a document had before merges were committed.
proof fn lemma_had(
    v: IndexView,
    ps: Seq<PreparedMerge>,
    from: Seq<Origin>,
    now: i64,
    c: Commit,
    g: u32,
    s: Spot,
) -> (r: (int, int, int))
    requires
        valid(v.manifest),
        consistent(v),
        overlay_within(v),
        can_merge(v, ps, from),
        merges_hold(v, ps, now, c),
        valid(c.manifest@),
        knows(merged_index(v, ps, c), g, s),
    ensures
        place_of(c.manifest@.segments, g) is Some,
        ({
            let (x, l) = place_of(c.manifest@.segments, g)->Some_0;
            let stay = c.manifest@.segments.len() - ps.len();
            if x < stay {
                r.0 < 0 && knows(v, g, s)
            } else {
                &&& r.0 == x - stay
                &&& 0 <= r.0 < ps.len()
                &&& numbered(ps[r.0], r.1, r.2, l)
                &&& g == entry_of(c, ps, r.0).base_doc + l
                &&& knows(v, source_id(v, ps[r.0], r.1, r.2), s)
            }
        }),
{
    let m = c.manifest@;
    let stay = m.segments.len() - ps.len();
    let (x, l) = place_of(m.segments, g)->Some_0;
    lemma_place(m, g, x, l);
    if x < stay {
        lemma_stayed(v, ps, now, c, x, l, g);
        (-1, 0, 0)
    } else {
        let k = x - stay;
        lemma_merged_layout(v, ps, now, c);
        lemma_merge_entry(v, ps, now, c, k);
        assert(well_prepared(v, ps[k], from[k]) && unpatched(v, ps[k], from[k]));
        let (j, y) = lemma_numbered_from(v, ps[k], from[k], l);
        lemma_moved(v, ps, from[k], now, c, k, j, y, l, s);
        (k, j, y)
    }
}

/// Merges change nothing that is known: each document is at its path with its
/// metadata, under its old id or a new one.
pub proof fn lemma_merges_know_the_same(
    v: IndexView,
    ps: Seq<PreparedMerge>,
    from: Seq<Origin>,
    now: i64,
    c: Commit,
    s: Spot,
)
    requires
        valid(v.manifest),
        ids_unique(v.manifest.segments),
        consistent(v),
        overlay_within(v),
        can_merge(v, ps, from),
        merges_hold(v, ps, now, c),
        valid(c.manifest@),
    ensures
        in_index(merged_index(v, ps, c), s) <==> in_index(v, s),
{
    let w = merged_index(v, ps, c);
    let m = c.manifest@;
    let es = v.manifest.segments;
    let ids = replaced(ps, ps.len() as int);
    if in_index(w, s) {
        let g = choose|g: u32| #[trigger] knows(w, g, s);
        let r = lemma_had(v, ps, from, now, c, g, s);
    }
    if in_index(v, s) {
        let g = choose|g: u32| #[trigger] knows(v, g, s);
        let (y, l) = place_of(es, g)->Some_0;
        lemma_place(v.manifest, g, y, l);
        assert(v.segments[y].entry == es[y]);
        if ids.contains(es[y].segment_id) {
            let (k, j) = lemma_replaced_by(ps, ps.len() as int, es[y].segment_id);
            let p = ps[k];
            let o = from[k];
            assert(well_prepared(v, p, o) && unpatched(v, p, o));
            let at = source_at(v, p.sources@[j]);
            lemma_seg_at(es, es[y].segment_id, 0);
            assert(at == y);
            let i = source(o.was, o.ids, j);
            assert(follows(o.was.segments[i], v.segments[y]));
            assert(o.was.segments[i].entry == o.was.manifest.segments[i]);
            assert(p.sources@[j].new_ids@ == new_ids(
                o.was,
                i,
                merged_docs(o.was, o.ids, j).len() as int,
            ));
            lemma_entry(v.manifest, y);
            assert(source_id(v, p, j, l as int) == g);
            assert(is_kept(o.was, o.ids, j, l as int));
            let d = p.sources@[j].new_ids@[l as int]->Some_0;
            assert(numbered(p, j, l as int, d));
            lemma_moved(v, ps, o, now, c, k, j, l as int, d, s);
            assert(knows(w, (entry_of(c, ps, k).base_doc + d) as u32, s));
        } else {
            lemma_kept_segments(es, v.segments, ids, es.len() as int);
            let stay = kept_segments(v.segments, ids, es.len() as int);
            assert(stay.contains(v.segments[y]));
            let x = choose|x: int| 0 <= x < stay.len() && stay[x] == v.segments[y];
            lemma_merged_layout(v, ps, now, c);
            assert(m.segments[x] == stay[x].entry);
            lemma_place(m, g, x, l);
            lemma_stayed(v, ps, now, c, x, l, g);
            assert(knows(w, g, s));
        }
    }
}

/// Behind merges no two documents are at the same path, and every patch is of a number
/// that was given.
pub proof fn lemma_merges_keep_paths_apart(
    v: IndexView,
    ps: Seq<PreparedMerge>,
    from: Seq<Origin>,
    now: i64,
    c: Commit,
)
    requires
        valid(v.manifest),
        consistent(v),
        paths_differ(v),
        overlay_within(v),
        can_merge(v, ps, from),
        merges_hold(v, ps, now, c),
        valid(c.manifest@),
    ensures
        paths_differ(merged_index(v, ps, c)),
        overlay_within(merged_index(v, ps, c)),
{
    let w = merged_index(v, ps, c);
    let m = c.manifest@;
    let es = v.manifest.segments;
    let stay = m.segments.len() - ps.len();
    lemma_merged_layout(v, ps, now, c);
    assert forall|g: u32, h: u32, s: Spot, t: Spot|
        #![trigger knows(w, g, s), knows(w, h, t)]
        knows(w, g, s) && knows(w, h, t) && s.path == t.path implies g == h by {
        let a = lemma_had(v, ps, from, now, c, g, s);
        let b = lemma_had(v, ps, from, now, c, h, t);
        let (x, l) = place_of(m.segments, g)->Some_0;
        let (y, n) = place_of(m.segments, h)->Some_0;
        lemma_place(m, g, x, l);
        lemma_place(m, h, y, n);
        if x >= stay {
            lemma_source_of(v, ps, from, a.0, a.1, a.2, l);
        } else {
            lemma_stayed(v, ps, now, c, x, l, g);
        }
        if y >= stay {
            lemma_source_of(v, ps, from, b.0, b.1, b.2, n);
        } else {
            lemma_stayed(v, ps, now, c, y, n, h);
        }
        if x >= stay && y >= stay {
            lemma_one_merge_each(ps, a.0, a.1, b.0, b.1);
            assert(a.2 == b.2);
        }
    }
    assert forall|g: u32| (#[trigger] patch_for(w.overlay, g, 0)) is Some implies m.segments.len()
        > 0 && g < m.segments.last().end() by {
        lemma_last_number(v, ps, now, c);
    }
}

/// The place of a document of a source, and the id of its segment.
proof fn lemma_source_of(
    v: IndexView,
    ps: Seq<PreparedMerge>,
    from: Seq<Origin>,
    k: int,
    j: int,
    l: int,
    d: u32,
)
    requires
        valid(v.manifest),
        consistent(v),
        can_merge(v, ps, from),
        0 <= k < ps.len(),
        numbered(ps[k], j, l, d),
    ensures
        ({
            let at = source_at(v, ps[k].sources@[j]);
            &&& place_of(v.manifest.segments, source_id(v, ps[k], j, l)) == Some((at, l as u32))
            &&& v.manifest.segments[at].segment_id == ps[k].sources@[j].segment_id
            &&& replaced(ps, ps.len() as int).contains(v.manifest.segments[at].segment_id)
            &&& 0 <= l <= u32::MAX
        }),
{
    let p = ps[k];
    let at = source_at(v, p.sources@[j]);
    assert(well_prepared(v, p, from[k]));
    lemma_numbered(v, p, from[k], j, l, d);
    assert(v.segments[at].entry == v.manifest.segments[at]);
    lemma_entry(v.manifest, at);
    lemma_place(v.manifest, source_id(v, p, j, l), at, l as u32);
    lemma_seg_at(v.manifest.segments, p.sources@[j].segment_id, 0);
    let x = lemma_replaced_at(ps, ps.len() as int, k, j);
    assert(replaced(ps, ps.len() as int)[x] == p.sources@[j].segment_id);
}

/// No number that was given lies behind the last segment.
proof fn lemma_last_number(v: IndexView, ps: Seq<PreparedMerge>, now: i64, c: Commit)
    requires
        valid(v.manifest),
        consistent(v),
        merges_fit(v, ps),
        merges_hold(v, ps, now, c),
        valid(c.manifest@),
        v.manifest.segments.len() > 0,
    ensures
        c.manifest@.segments.len() > 0,
        v.manifest.segments.last().end() <= c.manifest@.segments.last().end(),
{
    let es = v.manifest.segments;
    let m = c.manifest@;
    lemma_merged_layout(v, ps, now, c);
    if ps.len() > 0 {
        let k = ps.len() - 1;
        let files = lemma_merge_at(v, ps, now, c, k);
        lemma_placed_behind(v, ps, k, ps[k], entry_of(c, ps, k), files);
        assert(m.segments[m.segments.len() - 1] == entry_of(c, ps, k));
        assert(es[es.len() - 1] == es.last());
    } else {
        let n = es.len() as int;
        lemma_nothing_replaced(v.segments, n);
        lemma_kept_segments(es, v.segments, Seq::empty(), n);
        assert(replaced(ps, 0) =~= Seq::empty());
        let stay = kept_segments(v.segments, Seq::empty(), n);
        assert(m.segments[n - 1] == stay[n - 1].entry);
        assert(v.segments[n - 1].entry == es[n - 1]);
    }
}

proof fn lemma_nothing_replaced(ss: Seq<SegmentView>, n: int)
    requires
        0 <= n <= ss.len(),
    ensures
        kept_segments(ss, Seq::empty(), n) == ss.take(n),
    decreases n,
{
    if n > 0 {
        lemma_nothing_replaced(ss, n - 1);
        assert(ss.take(n) =~= ss.take(n - 1).push(ss[n - 1]));
    } else {
        assert(ss.take(n) =~= Seq::empty());
    }
}

} // verus!
