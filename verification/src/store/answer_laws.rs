//! What an index answers: exactly what the contents say that its documents were
//! indexed from, through builds, updates and merges.

use vstd::prelude::*;

use super::commit::{bits_after, keeps_ranges, same_range};
use super::commit_laws::{index_after, segment_after};
use super::flush::{cover, indexed_docs, Flushed};
use super::flush_laws::{lemma_flushed_dictionary, read_back};
use super::merge_laws::{has_key, lemma_looked_up, list_in, written};
use super::open_laws::{built_index, is_updated, same_documents};
use super::reader::{
    bound_of, doc_of, lemma_ends_ascend, lemma_place, place_of, IndexView, PatchView,
};
use super::recovery_laws::consistent;
use super::search_laws::{
    all_storable, atoms_fit, lemma_made_of, lemma_matches_text, lemma_sorted, lemma_tells, lists_as,
    made_of, own_contents, own_files, tells, text_matches,
};
use super::segment::{gone, postings_in, Segment, SegmentView};
use super::update;
use crate::crawler::FileEntry;
use crate::format::idx::TermView;
use crate::format::manifest::{lemma_segments_disjoint, valid, ManifestView, SegmentEntry};
use crate::format::postings::{entries_of, fits, position_bytes};
use crate::index::builder::{
    content_tokens, lemma_shard_bounds, outcomes_of, shard_terms, ContentView,
};
use crate::index::postings::docs_ascend;
use crate::index::SegmentReader;
use crate::query::exec::index_hits;
use crate::query::hits::hit;
use crate::query::laws::{
    lemma_index_hits, lemma_matches_live, matches_doc, matches_global, ranges_ascend, readable,
    sound,
};
use crate::query::parser::Node;

verus! {

/// The terms of the segment were written as a dictionary.
pub open spec fn has_dictionary(s: SegmentView) -> bool {
    exists|ks: Seq<TermView>| #[trigger] written(s.idx, ks)
}

/// Where the id is that of a document that is not deleted, its segment tells of it
/// what was read from its content.
pub open spec fn told(v: IndexView, of: Map<u32, ContentView>, g: u32) -> bool {
    place_of(v.manifest.segments, g) matches Some((i, l)) ==> gone(v.segments[i], l as int) || (
    of.contains_key(g) && tells(v.segments[i], l, of[g]))
}

/// The documents of the index were indexed from these contents, by their ids.
pub open spec fn indexed_from(v: IndexView, of: Map<u32, ContentView>) -> bool {
    &&& consistent(v)
    &&& forall|i: int| 0 <= i < v.segments.len() ==> has_dictionary(#[trigger] v.segments[i])
    &&& forall|g: u32| #[trigger] told(v, of, g)
}

proof fn lemma_position_bytes(ps: Seq<u32>, n: int)
    requires
        0 <= n,
    ensures
        position_bytes(ps, n).len() >= n,
    decreases n,
{
    if n > 0 {
        lemma_position_bytes(ps, n - 1);
    }
}

/// The postings of a written dictionary can be searched.
proof fn lemma_searchable(s: SegmentView, t: Seq<char>)
    requires
        has_dictionary(s),
    ensures
        postings_in(s.idx, t) matches Some((es, _)) ==> docs_ascend(es) && sound(es),
{
    let ks = choose|ks: Seq<TermView>| #[trigger] written(s.idx, ks);
    lemma_looked_up(ks, t);
    if has_key(ks, t) {
        let l = list_in(ks, t);
        assert(fits(l));
        assert forall|x: int| 0 <= x < entries_of(l).len() implies ((
        #[trigger] entries_of(l)[x]).positions matches Some(p) && p.len() <= u32::MAX) by {
            lemma_position_bytes(l[x].1, l[x].1.len() as int);
        }
    }
}

/// A document of an index that is found is a live one whose content matches.
proof fn lemma_answer(
    seg: &Segment<'_>,
    v: IndexView,
    of: Map<u32, ContentView>,
    node: Node,
    k: int,
    g: u32,
)
    requires
        valid(v.manifest),
        indexed_from(v, of),
        0 <= k < v.segments.len(),
        seg@ == v.segments[k],
    ensures
        matches_global(seg, node@, g) <==> (place_of(v.manifest.segments, g) matches Some((i, l))
            && i == k && !gone(v.segments[k], l as int) && text_matches(
            content_tokens(of[g]),
            node@,
        )),
{
    let e = v.manifest.segments[k];
    assert(v.segments[k].entry == e);
    assert(told(v, of, g));
    if e.base_doc <= g {
        let d = (g - e.base_doc) as u32;
        lemma_place(v.manifest, g, k, d);
        if matches_doc(seg, node@, d) {
            lemma_matches_live(seg, node, d);
        }
        if d < e.num_docs && !gone(v.segments[k], d as int) {
            lemma_matches_text(seg, of[g], node@, d);
        }
    } else if place_of(v.manifest.segments, g) is Some {
        let (i, l) = place_of(v.manifest.segments, g)->Some_0;
        lemma_place(v.manifest, g, i, l);
    }
    if place_of(v.manifest.segments, g) is Some {
        let (i, l) = place_of(v.manifest.segments, g)->Some_0;
        lemma_place(v.manifest, g, i, l);
    }
}

/// Every document of an index that is not deleted is known.
pub proof fn lemma_told_is_known(v: IndexView, of: Map<u32, ContentView>, g: u32)
    requires
        valid(v.manifest),
        indexed_from(v, of),
    ensures
        doc_of(v, g) is Some <==> (place_of(v.manifest.segments, g) matches Some((i, l)) && !gone(
            v.segments[i],
            l as int,
        )),
        doc_of(v, g) is Some ==> of.contains_key(g),
{
    assert(told(v, of, g));
    if place_of(v.manifest.segments, g) is Some {
        let (i, l) = place_of(v.manifest.segments, g)->Some_0;
        lemma_place(v.manifest, g, i, l);
        assert(v.segments[i].entry == v.manifest.segments[i]);
    }
}

/// A search over an index finds exactly the documents that it knows whose contents
/// match the query: whatever was built, updated, deleted and merged before.
pub proof fn lemma_index_answers<'s, 'a>(
    parts: Seq<&'s Segment<'a>>,
    v: IndexView,
    of: Map<u32, ContentView>,
    dfs: Map<Seq<char>, u32>,
    node: Node,
    g: u32,
)
    requires
        valid(v.manifest),
        indexed_from(v, of),
        parts.len() == v.segments.len(),
        forall|k: int|
            0 <= k < parts.len() ==> (#[trigger] parts[k]).wf() && parts[k]@ == v.segments[k],
    ensures
        hit(index_hits(parts, dfs, node@, parts.len() as int), g) <==> doc_of(v, g) is Some
            && text_matches(content_tokens(of[g]), node@),
{
    let n = parts.len() as int;
    assert forall|k: int| 0 <= k < n implies (#[trigger] parts[k]).wf() && readable(parts[k]) by {
        assert(has_dictionary(v.segments[k]));
        assert forall|t: Seq<char>| (#[trigger] parts[k].lookup(t)) matches Some((es, _))
            ==> docs_ascend(es) && sound(es) by {
            lemma_searchable(v.segments[k], t);
        }
    }
    assert(ranges_ascend(parts)) by {
        assert forall|k: int, l: int|
            #![trigger parts[k], parts[l]]
            0 <= k < l < n implies parts[k].first() + parts[k].bound() <= parts[l].first() by {
            assert(v.segments[k].entry == v.manifest.segments[k]);
            assert(v.segments[l].entry == v.manifest.segments[l]);
            lemma_segments_disjoint(v.manifest, k, l);
        }
    }
    lemma_index_hits(parts, dfs, node, n);
    lemma_told_is_known(v, of, g);
    let hs = index_hits(parts, dfs, node@, n);
    assert(hit(hs, g) <==> exists|k: int|
        0 <= k < n && matches_global(#[trigger] parts[k], node@, g));
    if hit(hs, g) {
        let k = choose|k: int| 0 <= k < n && matches_global(#[trigger] parts[k], node@, g);
        lemma_answer(parts[k], v, of, node, k, g);
    }
    if doc_of(v, g) is Some && text_matches(content_tokens(of[g]), node@) {
        let (i, l) = place_of(v.manifest.segments, g)->Some_0;
        lemma_place(v.manifest, g, i, l);
        lemma_answer(parts[i], v, of, node, i, g);
        assert(matches_global(parts[i], node@, g));
    }
}

/// A segment that was built has a dictionary.
proof fn lemma_built_dictionary(
    f: Flushed,
    id: u32,
    first: u32,
    root: Seq<char>,
    files: Seq<FileEntry>,
    cs: Seq<ContentView>,
)
    requires
        made_of(f, id, first, root, files, cs),
    ensures
        has_dictionary(read_back(f)),
{
    let n = cs.len() as int;
    let m = shard_terms(first as int, cs, n);
    lemma_sorted(first as int, cs, n);
    lemma_shard_bounds(first as int, cs, n);
    let docs = indexed_docs(files, outcomes_of(cs));
    let ks = lemma_flushed_dictionary(f, id, first, m, docs, root);
    assert(written(read_back(f).idx, ks));
}

/// What a segment of those built tells of its documents.
proof fn lemma_built_told(
    fs: Seq<Flushed>,
    root: Seq<char>,
    es: Seq<FileEntry>,
    cs: Seq<ContentView>,
    base: u32,
    next_id: u32,
    k: int,
)
    requires
        cover(fs, root, es, cs, base, next_id, es.len() as int),
        es.len() == cs.len(),
        base + es.len() <= u32::MAX,
        atoms_fit(cs),
        all_storable(fs, cs, base),
        0 <= k < fs.len(),
    ensures
        has_dictionary(read_back(fs[k])),
        base <= fs[k].entry.base_doc,
        fs[k].entry.base_doc + fs[k].entry.num_docs <= base + cs.len(),
        forall|l: u32|
            l < fs[k].entry.num_docs ==> #[trigger] tells(
                read_back(fs[k]),
                l,
                cs[fs[k].entry.base_doc - base + l],
            ),
{
    let e = fs[k].entry;
    let id = (next_id + k) as u32;
    let own = own_contents(fs, cs, base, k);
    let ofiles = own_files(fs, es, base, k);
    lemma_made_of(fs, root, es, cs, base, next_id, k);
    lemma_built_dictionary(fs[k], id, e.base_doc, root, ofiles, own);
    assert forall|l: u32| l < e.num_docs implies #[trigger] tells(
        read_back(fs[k]),
        l,
        cs[e.base_doc - base + l],
    ) by {
        lemma_tells(read_back(fs[k]), fs[k], id, e.base_doc, root, ofiles, own, l);
        assert(own[l as int] == cs[e.base_doc - base + l]);
    }
}

/// The contents of an index once files with the contents `cs` were added, numbered
/// from `base` on.
pub open spec fn contents_with(
    of: Map<u32, ContentView>,
    base: u32,
    cs: Seq<ContentView>,
) -> Map<u32, ContentView> {
    Map::new(
        |g: u32| of.contains_key(g) || base <= g < base + cs.len(),
        |g: u32|
            if base <= g < base + cs.len() {
                cs[g - base]
            } else {
                of[g]
            },
    )
}

/// The documents of a full build are indexed from the files that were crawled.
pub proof fn lemma_built_contents(
    m: ManifestView,
    fs: Seq<Flushed>,
    root: Seq<char>,
    es: Seq<FileEntry>,
    cs: Seq<ContentView>,
    next_id: u32,
)
    requires
        cover(fs, root, es, cs, 0, next_id, es.len() as int),
        es.len() == cs.len() <= u32::MAX,
        atoms_fit(cs),
        all_storable(fs, cs, 0),
        valid(m),
        m.segments == update::entries_of(fs),
    ensures
        indexed_from(built_index(root, fs, m), contents_with(Map::empty(), 0, cs)),
{
    let v = built_index(root, fs, m);
    let of = contents_with(Map::empty(), 0, cs);
    assert forall|i: int| #![trigger v.segments[i]] 0 <= i < v.segments.len() implies has_dictionary(
        v.segments[i],
    ) && v.segments[i].entry == m.segments[i] by {
        lemma_built_told(fs, root, es, cs, 0, next_id, i);
    }
    assert forall|g: u32| #[trigger] told(v, of, g) by {
        if place_of(m.segments, g) is Some {
            let (i, l) = place_of(m.segments, g)->Some_0;
            lemma_place(m, g, i, l);
            lemma_built_told(fs, root, es, cs, 0, next_id, i);
            assert(v.segments[i] == read_back(fs[i]));
            assert(tells(read_back(fs[i]), l, cs[fs[i].entry.base_doc - 0 + l]));
        }
    }
}

/// A document that is not deleted behind an update was not before, and is told of
/// as it was.
proof fn lemma_still_told(
    v: IndexView,
    of: Map<u32, ContentView>,
    deletes: Seq<u32>,
    x: SegmentEntry,
    i: int,
    g: u32,
)
    requires
        valid(v.manifest),
        indexed_from(v, of),
        0 <= i < v.segments.len(),
        same_documents(v.manifest.segments[i], x),
        x.base_doc <= g < x.base_doc + x.num_docs,
    ensures
        ({
            let s = segment_after(v, deletes, i, x);
            let l = (g - x.base_doc) as u32;
            gone(s, l as int) || (of.contains_key(g) && tells(s, l, of[g]) && place_of(
                v.manifest.segments,
                g,
            ) == Some((i, l)) && !gone(v.segments[i], l as int))
        }),
{
    let s = segment_after(v, deletes, i, x);
    let l = (g - x.base_doc) as u32;
    assert(v.segments[i].entry == v.manifest.segments[i]);
    lemma_place(v.manifest, g, i, l);
    assert(told(v, of, g));
    if !gone(s, l as int) && gone(v.segments[i], l as int) {
        assert(bits_after(v, deletes, deletes.len() as int, i)[l as int]);
    }
    if !gone(s, l as int) {
        assert forall|t: Seq<char>| #[trigger] lists_as(s.idx, t, l, of[g]) by {
            assert(lists_as(v.segments[i].idx, t, l, of[g]));
        }
    }
}

/// Behind an update the documents that were kept are those indexed before, from the
/// contents they had, and the new ones are indexed from the files of the update.
pub proof fn lemma_updated_contents(
    v: IndexView,
    of: Map<u32, ContentView>,
    deletes: Seq<u32>,
    new: Seq<PatchView>,
    fs: Seq<Flushed>,
    es: Seq<FileEntry>,
    cs: Seq<ContentView>,
    m: ManifestView,
    w: IndexView,
)
    requires
        valid(v.manifest),
        indexed_from(v, of),
        cover(
            fs,
            v.root,
            es,
            cs,
            bound_of(v.manifest.segments),
            v.manifest.next_segment_id,
            es.len() as int,
        ),
        es.len() == cs.len(),
        bound_of(v.manifest.segments) + es.len() <= u32::MAX,
        atoms_fit(cs),
        all_storable(fs, cs, bound_of(v.manifest.segments)),
        valid(m),
        is_updated(v, deletes, new, fs, m, w),
    ensures
        indexed_from(w, contents_with(of, bound_of(v.manifest.segments), cs)),
{
    let base = bound_of(v.manifest.segments);
    let next_id = v.manifest.next_segment_id;
    let after = contents_with(of, base, cs);
    let n = v.segments.len() as int;
    assert forall|i: int| #![trigger w.segments[i]] 0 <= i < w.segments.len() implies has_dictionary(
        w.segments[i],
    ) && w.segments[i].entry == m.segments[i] && (w.segments[i].del matches Some(bits)
        ==> bits.len() == w.segments[i].entry.num_docs) by {
        if i < n {
            assert(same_documents(v.manifest.segments[i], m.segments[i]));
            assert(v.segments[i].entry == v.manifest.segments[i]);
            assert(has_dictionary(v.segments[i]));
            let ks = choose|ks: Seq<TermView>| #[trigger] written(v.segments[i].idx, ks);
            assert(written(w.segments[i].idx, ks));
        } else {
            let k = i - n;
            lemma_built_told(fs, v.root, es, cs, base, next_id, k);
            assert(w.segments[n + k] == read_back(fs[k]));
            assert(m.segments[n + k] == fs[k].entry);
        }
    }
    assert forall|g: u32| #[trigger] told(w, after, g) by {
        if place_of(m.segments, g) is Some {
            let (i, l) = place_of(m.segments, g)->Some_0;
            lemma_place(m, g, i, l);
            if i < n {
                assert(same_documents(v.manifest.segments[i], m.segments[i]));
                lemma_still_told(v, of, deletes, m.segments[i], i, g);
                assert(w.segments[i] == segment_after(v, deletes, i, m.segments[i]));
                lemma_ends_ascend(v.manifest, i, n - 1);
            } else {
                let k = i - n;
                lemma_built_told(fs, v.root, es, cs, base, next_id, k);
                assert(w.segments[n + k] == read_back(fs[k]));
                assert(m.segments[n + k] == fs[k].entry);
                assert(tells(read_back(fs[k]), l, cs[fs[k].entry.base_doc - base + l]));
            }
        }
    }
}

/// Behind a deletion the documents that are left are indexed from what they were.
pub proof fn lemma_deleted_contents(
    v: IndexView,
    of: Map<u32, ContentView>,
    deletes: Seq<u32>,
    m: ManifestView,
)
    requires
        valid(v.manifest),
        indexed_from(v, of),
        valid(m),
        keeps_ranges(v.manifest.segments, m.segments),
    ensures
        indexed_from(index_after(v, deletes, m), of),
{
    let w = index_after(v, deletes, m);
    assert forall|i: int| #![trigger w.segments[i]] 0 <= i < w.segments.len() implies has_dictionary(
        w.segments[i],
    ) && w.segments[i].entry == m.segments[i] && (w.segments[i].del matches Some(bits)
        ==> bits.len() == w.segments[i].entry.num_docs) by {
        assert(same_range(v.manifest.segments[i], m.segments[i]));
        assert(v.segments[i].entry == v.manifest.segments[i]);
        assert(has_dictionary(v.segments[i]));
        let ks = choose|ks: Seq<TermView>| #[trigger] written(v.segments[i].idx, ks);
        assert(written(w.segments[i].idx, ks));
    }
    assert forall|g: u32| #[trigger] told(w, of, g) by {
        if place_of(m.segments, g) is Some {
            let (i, l) = place_of(m.segments, g)->Some_0;
            lemma_place(m, g, i, l);
            assert(same_range(v.manifest.segments[i], m.segments[i]));
            lemma_still_told(v, of, deletes, m.segments[i], i, g);
            assert(w.segments[i] == segment_after(v, deletes, i, m.segments[i]));
        }
    }
}

} // verus!
