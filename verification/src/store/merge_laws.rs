//! A merge changes no answers: what was found in its sources is found in the merged
//! segment.

use vstd::prelude::*;
use vstd::utf8::{decode_utf8_encode_utf8, encode_utf8};

use super::flush::{lemma_flushed_entry, rebased, Flushed, Lists};
use super::flush_laws::{lemma_docs_read_back, lemma_finds_what_was_indexed, read_back, storable};
use super::merge::{
    docs_in, gathered, global_id, ids_ascend, kept_docs, lemma_docs_in_grows, lemma_merged_len,
    lemma_new_ids, lemma_renumbered, merged_docs, merged_lists, new_ids, renumbered, seg_index,
    term_lists,
};
use super::reader::{doc_of, lemma_place, Index, IndexView};
use super::segment::{gone, live_len, postings_in, Segment, SegmentView};
use crate::error::ErrorView;
use crate::format::dict_laws::{items_from, lemma_items};
use crate::format::doc::{lemma_kind_bytes, record_in, DocKind};
use crate::format::idx::{term_keys, TermState, TermView, MAX_TERM_BYTES};
use crate::format::idx_laws::{
    file_of, lemma_lookup_finds, lemma_lookup_misses, lemma_parses, term_item, term_state, writable,
};
use crate::format::manifest::lemma_entry;
use crate::format::postings::{
    ascending, decoded_list, entries_of, lemma_entries_ascend, lemma_list_roundtrip, list_bytes,
    list_fault, posting_fault,
};
use crate::index::builder::all_from;
use crate::index::doc_table::DocView;
use crate::index::memory::{all_sorted, list_at, merged, sorted_list};
use crate::index::postings::{docs_ascend, positions_ascend};
use crate::index::SegmentReader;
use crate::order::{bytes_lt, lemma_irreflexive, strictly_ascending};
use crate::query::exec::{entry_at, lemma_entry_at};
use crate::query::laws::{has_term, lemma_same_answers, matches_doc};
use crate::query::parser::NodeView;
use crate::text::lemma_encode_injective;

verus! {

/// The postings of one term.
pub type List = Seq<(u32, Seq<u32>)>;

/// The list has this posting.
pub open spec fn has_posting(l: List, d: u32, ps: Seq<u32>) -> bool {
    exists|j: int| 0 <= j < l.len() && #[trigger] l[j] == (d, ps)
}

/// The index file holds these terms, as it was written.
pub open spec fn written(idx: Seq<u8>, ks: Seq<TermView>) -> bool {
    writable(ks) && idx == file_of(ks)
}

/// One of the terms is this one.
pub open spec fn has_key(ks: Seq<TermView>, t: Seq<char>) -> bool {
    exists|i: int| 0 <= i < ks.len() && (#[trigger] ks[i]).term == encode_utf8(t)
}

/// The list of a term; none where there is no such term.
pub open spec fn list_in(ks: Seq<TermView>, t: Seq<char>) -> List {
    if has_key(ks, t) {
        ks[choose|i: int| 0 <= i < ks.len() && (#[trigger] ks[i]).term == encode_utf8(t)].list
    } else {
        Seq::empty()
    }
}

proof fn lemma_keys_differ(ks: Seq<TermView>, i: int, j: int)
    requires
        strictly_ascending(term_keys(ks)),
        0 <= i < j < ks.len(),
    ensures
        ks[i].term != ks[j].term,
{
    assert(bytes_lt(term_keys(ks)[i], term_keys(ks)[j]));
    lemma_irreflexive(ks[i].term);
}

proof fn lemma_no_fault_from(list: List, i: int)
    requires
        0 <= i,
        list_fault(list, i) is None,
    ensures
        forall|k: int| i <= k < list.len() ==> #[trigger] posting_fault(list, k) is None,
    decreases list.len() - i,
{
    if i < list.len() {
        lemma_no_fault_from(list, i + 1);
    }
}

/// The postings of a written term ascend, and none is empty.
pub(crate) proof fn lemma_written_list(ks: Seq<TermView>, i: int)
    requires
        writable(ks),
        0 <= i < ks.len(),
    ensures
        docs_ascend(entries_of(ks[i].list)),
        positions_ascend(entries_of(ks[i].list)),
        forall|j: int|
            #![trigger ks[i].list[j]]
            0 <= j < ks[i].list.len() ==> ks[i].list[j].1.len() > 0 && ascending(ks[i].list[j].1),
        decoded_list(list_bytes(ks[i].list)) == entries_of(ks[i].list),
{
    let list = ks[i].list;
    lemma_list_roundtrip(list);
    lemma_entries_ascend(list_bytes(list));
    lemma_no_fault_from(list, 0);
    assert forall|j: int| #![trigger list[j]] 0 <= j < list.len() implies list[j].1.len() > 0
        && ascending(list[j].1) by {
        assert(posting_fault(list, j) is None);
    }
}

/// What is gathered of a written file under new numbers.
proof fn lemma_gathered(ks: Seq<TermView>, ids: Seq<Option<u32>>, lo: int, hi: int)
    requires
        writable(ks),
        ids_ascend(ids, lo, hi),
    ensures
        gathered(file_of(ks), ids) == Ok::<Lists, Seq<char>>(
            term_lists(items_from(ks, 0), ids, ks.len() as int)->Some_0,
        ),
{
    lemma_parses(ks);
    lemma_items(ks, 0);
    assert(term_state(ks, 0) == (TermState { block: 0, scan: None }));
    lemma_term_list(ks, ids, lo, hi, ks.len() as int, Seq::empty());
}

/// The list of a term among those gathered of a written file.
proof fn lemma_term_list(
    ks: Seq<TermView>,
    ids: Seq<Option<u32>>,
    lo: int,
    hi: int,
    n: int,
    t: Seq<char>,
)
    requires
        writable(ks),
        ids_ascend(ids, lo, hi),
        0 <= n <= ks.len(),
    ensures
        ({
            let m = term_lists(items_from(ks, 0), ids, n)->Some_0;
            &&& term_lists(items_from(ks, 0), ids, n) is Some
            &&& m.contains_key(t) <==> list_at(m, t).len() > 0
            &&& forall|i: int|
                0 <= i < ks.len() && (#[trigger] ks[i]).term == encode_utf8(t) ==> list_at(m, t)
                    == if i < n {
                    renumbered(entries_of(ks[i].list), ids, 0)
                } else {
                    Seq::empty()
                }
            &&& !has_key(ks, t) ==> list_at(m, t).len() == 0
        }),
    decreases n,
{
    let items = items_from(ks, 0);
    if n > 0 {
        lemma_term_list(ks, ids, lo, hi, n - 1, t);
        let m0 = term_lists(items, ids, n - 1)->Some_0;
        let m = term_lists(items, ids, n)->Some_0;
        let own = renumbered(decoded_list(items[n - 1].2), ids, 0);
        lemma_written_list(ks, n - 1);
        assert(items[n - 1] == term_item(ks, n - 1));
        decode_utf8_encode_utf8(ks[n - 1].term);
        let key = items[n - 1].0;
        assert(encode_utf8(key) == ks[n - 1].term);
        lemma_term_list(ks, ids, lo, hi, n - 1, key);
        assert(list_at(m0, key).len() == 0) by {
            assert(ks[n - 1].term == encode_utf8(key));
        }
        assert(list_at(m0, key) + own =~= own);
        if key == t {
            assert(has_key(ks, t));
            assert(list_at(m0, t).len() == 0);
            assert forall|i: int|
                0 <= i < ks.len() && (#[trigger] ks[i]).term == encode_utf8(t) implies i == n
                - 1 by {
                if i < n - 1 {
                    lemma_keys_differ(ks, i, n - 1);
                } else if i > n - 1 {
                    lemma_keys_differ(ks, n - 1, i);
                }
            }
        } else {
            assert(list_at(m, t) == list_at(m0, t));
            assert forall|i: int|
                0 <= i < ks.len() && (#[trigger] ks[i]).term == encode_utf8(t) implies i != n
                - 1 by {
                if i == n - 1 {
                    lemma_encode_injective(key, t);
                }
            }
        }
    }
}

/// A posting under a new number is that of the document that has the number.
proof fn lemma_renumbered_has(
    list: List,
    ids: Seq<Option<u32>>,
    lo: int,
    hi: int,
    i: int,
    l: u32,
    d: u32,
    ps: Seq<u32>,
)
    requires
        ids_ascend(ids, lo, hi),
        0 <= i <= list.len(),
        forall|j: int| #![trigger list[j]] 0 <= j < list.len() ==> list[j].1.len() > 0,
        l < ids.len(),
        ids[l as int] == Some(d),
    ensures
        has_posting(renumbered(entries_of(list), ids, i), d, ps) <==> exists|j: int|
            i <= j < list.len() && #[trigger] list[j] == (l, ps),
    decreases list.len() - i,
{
    let es = entries_of(list);
    if i < list.len() {
        lemma_renumbered_has(list, ids, lo, hi, i + 1, l, d, ps);
        let rest = renumbered(es, ids, i + 1);
        let now = renumbered(es, ids, i);
        let e = list[i];
        assert(es[i].doc == e.0 && es[i].positions == Some(e.1));
        if e.0 < ids.len() && ids[e.0 as int] is Some {
            let nd = ids[e.0 as int]->Some_0;
            assert(now == seq![(nd, e.1)] + rest);
            if has_posting(rest, d, ps) {
                let j = choose|j: int| 0 <= j < rest.len() && #[trigger] rest[j] == (d, ps);
                assert(now[j + 1] == (d, ps));
            }
            if e == (l, ps) {
                assert(now[0] == (d, ps));
            }
            if has_posting(now, d, ps) {
                let j = choose|j: int| 0 <= j < now.len() && #[trigger] now[j] == (d, ps);
                if j == 0 {
                    assert(nd == d);
                    if e.0 < l {
                        assert(ids[e.0 as int]->Some_0 < ids[l as int]->Some_0);
                    } else if e.0 > l {
                        assert(ids[l as int]->Some_0 < ids[e.0 as int]->Some_0);
                    }
                    assert(list[i] == (l, ps));
                } else {
                    assert(rest[j - 1] == (d, ps));
                    assert(has_posting(rest, d, ps));
                }
            }
        } else {
            assert(now == rest);
        }
    }
}

/// The place of source `j` of a merge among the segments.
pub open spec fn source(v: IndexView, ids: Seq<u32>, j: int) -> int {
    seg_index(v.manifest.segments, ids[j], 0)
}

/// The sources of a merge are files as they were written, and their documents can be
/// numbered.
pub open spec fn mergeable(v: IndexView, ids: Seq<u32>, dicts: Seq<Seq<TermView>>) -> bool {
    &&& dicts.len() == ids.len()
    &&& docs_in(v, ids, ids.len() as int) <= u32::MAX
    &&& forall|j: int|
        0 <= j < ids.len() ==> written(v.segments[source(v, ids, j)].idx, #[trigger] dicts[j])
}

proof fn lemma_own(v: IndexView, ids: Seq<u32>, dicts: Seq<Seq<TermView>>, j: int, t: Seq<char>)
    requires
        mergeable(v, ids, dicts),
        0 <= j < ids.len(),
    ensures
        ({
            let i = source(v, ids, j);
            let start = merged_docs(v, ids, j).len() as int;
            let own = term_lists(
                items_from(dicts[j], 0),
                new_ids(v, i, start),
                dicts[j].len() as int,
            )->Some_0;
            let l = list_at(own, t);
            &&& gathered(v.segments[i].idx, new_ids(v, i, start)) == Ok::<Lists, Seq<char>>(own)
            &&& own.contains_key(t) <==> l.len() > 0
            &&& l == renumbered(entries_of(list_in(dicts[j], t)), new_ids(v, i, start), 0)
            &&& sorted_list(l)
            &&& forall|x: int|
                0 <= x < l.len() ==> start <= (#[trigger] l[x]).0 < merged_docs(v, ids, j + 1).len()
            &&& forall|x: int|
                #![trigger list_in(dicts[j], t)[x]]
                0 <= x < list_in(dicts[j], t).len() ==> list_in(dicts[j], t)[x].1.len() > 0
        }),
{
    let i = source(v, ids, j);
    let ks = dicts[j];
    let start = merged_docs(v, ids, j).len() as int;
    let nids = new_ids(v, i, start);
    let n = v.manifest.segments[i].num_docs as int;
    lemma_merged_len(v, ids, j);
    lemma_docs_in_grows(v, ids, j + 1, ids.len() as int);
    lemma_new_ids(v, i, start);
    let hi = start + kept_docs(v, i, n).len();
    lemma_gathered(ks, nids, start, hi);
    lemma_term_list(ks, nids, start, hi, ks.len() as int, t);
    if has_key(ks, t) {
        let x = choose|x: int| 0 <= x < ks.len() && (#[trigger] ks[x]).term == encode_utf8(t);
        lemma_written_list(ks, x);
        lemma_renumbered(entries_of(ks[x].list), nids, start, hi, 0);
    } else {
        assert(renumbered(entries_of(Seq::empty()), nids, 0) =~= Seq::empty());
    }
}

/// The lists of the first `k` sources, merged.
pub(crate) proof fn lemma_merged_lists(
    v: IndexView,
    ids: Seq<u32>,
    dicts: Seq<Seq<TermView>>,
    k: int,
    t: Seq<char>,
)
    requires
        mergeable(v, ids, dicts),
        0 <= k <= ids.len(),
    ensures
        ({
            let m = merged_lists(v, ids, k)->Ok_0;
            let l = list_at(m, t);
            &&& merged_lists(v, ids, k) is Ok
            &&& m.contains_key(t) <==> l.len() > 0
            &&& sorted_list(l)
            &&& forall|x: int|
                0 <= x < l.len() ==> (#[trigger] l[x]).0 < merged_docs(v, ids, k).len()
            &&& k > 0 ==> l == list_at(merged_lists(v, ids, k - 1)->Ok_0, t) + renumbered(
                entries_of(list_in(dicts[k - 1], t)),
                new_ids(v, source(v, ids, k - 1), merged_docs(v, ids, k - 1).len() as int),
                0,
            )
        }),
    decreases k,
{
    if k > 0 {
        lemma_merged_lists(v, ids, dicts, k - 1, t);
        lemma_own(v, ids, dicts, k - 1, t);
        let i = source(v, ids, k - 1);
        let start = merged_docs(v, ids, k - 1).len() as int;
        let before = merged_lists(v, ids, k - 1)->Ok_0;
        let own = term_lists(
            items_from(dicts[k - 1], 0),
            new_ids(v, i, start),
            dicts[k - 1].len() as int,
        )->Some_0;
        let m = merged_lists(v, ids, k)->Ok_0;
        assert(m == merged(before, own));
        let a = list_at(before, t);
        let b = list_at(own, t);
        let l = list_at(m, t);
        assert(l =~= a + b);
        assert forall|x: int, y: int| 0 <= x < y < l.len() implies #[trigger] l[x].0
            < #[trigger] l[y].0 by {
            if y < a.len() {
                assert(a[x].0 < a[y].0);
            } else if x < a.len() {
                assert(a[x].0 < start <= b[y - a.len()].0);
            } else {
                assert(b[x - a.len()].0 < b[y - a.len()].0);
            }
        }
        assert forall|x: int| #![trigger l[x]] 0 <= x < l.len() implies l[x].1.len() > 0
            && ascending(l[x].1) by {
            if x < a.len() {
                assert(l[x] == a[x]);
            } else {
                assert(l[x] == b[x - a.len()]);
            }
        }
        assert forall|x: int| 0 <= x < l.len() implies (#[trigger] l[x]).0 < merged_docs(
            v,
            ids,
            k,
        ).len() by {
            if x < a.len() {
                assert(l[x] == a[x]);
            } else {
                assert(l[x] == b[x - a.len()]);
            }
        }
    }
}

/// The number in a merge of document `l` of source `j`.
pub open spec fn number_of(v: IndexView, ids: Seq<u32>, j: int, l: int) -> int {
    (merged_docs(v, ids, j).len() + kept_docs(v, source(v, ids, j), l).len()) as int
}

/// The document is kept by a merge.
pub open spec fn is_kept(v: IndexView, ids: Seq<u32>, j: int, l: int) -> bool {
    &&& 0 <= j < ids.len()
    &&& 0 <= l < v.manifest.segments[source(v, ids, j)].num_docs
    &&& doc_of(v, global_id(v, source(v, ids, j), l)) is Some
}

/// A document that is kept is there under its number.
pub proof fn lemma_number(v: IndexView, ids: Seq<u32>, j: int, l: int, k: int)
    requires
        is_kept(v, ids, j, l),
        j < k <= ids.len(),
    ensures
        number_of(v, ids, j, l) < merged_docs(v, ids, k).len(),
        merged_docs(v, ids, k)[number_of(v, ids, j, l)] == doc_of(
            v,
            global_id(v, source(v, ids, j), l),
        )->Some_0,
    decreases k,
{
    if k == j + 1 {
        let i = source(v, ids, j);
        lemma_kept_at(v, i, l, v.manifest.segments[i].num_docs as int);
    } else {
        lemma_number(v, ids, j, l, k - 1);
    }
}

proof fn lemma_kept_at(v: IndexView, i: int, l: int, n: int)
    requires
        0 <= l < n,
        doc_of(v, global_id(v, i, l)) is Some,
    ensures
        kept_docs(v, i, l).len() < kept_docs(v, i, n).len(),
        kept_docs(v, i, n)[kept_docs(v, i, l).len() as int] == doc_of(
            v,
            global_id(v, i, l),
        )->Some_0,
    decreases n,
{
    if l < n - 1 {
        lemma_kept_at(v, i, l, n - 1);
    }
}

proof fn lemma_concat_has(a: List, b: List, d: u32, ps: Seq<u32>)
    ensures
        has_posting(a + b, d, ps) <==> has_posting(a, d, ps) || has_posting(b, d, ps),
{
    let all = a + b;
    if has_posting(a, d, ps) {
        let x = choose|x: int| 0 <= x < a.len() && #[trigger] a[x] == (d, ps);
        assert(all[x] == (d, ps));
    }
    if has_posting(b, d, ps) {
        let x = choose|x: int| 0 <= x < b.len() && #[trigger] b[x] == (d, ps);
        assert(all[a.len() + x] == (d, ps));
    }
    if has_posting(all, d, ps) {
        let x = choose|x: int| 0 <= x < all.len() && #[trigger] all[x] == (d, ps);
        if x < a.len() {
            assert(a[x] == (d, ps));
        } else {
            assert(b[x - a.len()] == (d, ps));
        }
    }
}

/// The last source of a merge has the postings of its own documents only.
proof fn lemma_last_source(
    v: IndexView,
    ids: Seq<u32>,
    dicts: Seq<Seq<TermView>>,
    j: int,
    l: u32,
    t: Seq<char>,
    ps: Seq<u32>,
)
    requires
        mergeable(v, ids, dicts),
        is_kept(v, ids, j, l as int),
    ensures
        has_posting(
            renumbered(
                entries_of(list_in(dicts[j], t)),
                new_ids(v, source(v, ids, j), merged_docs(v, ids, j).len() as int),
                0,
            ),
            number_of(v, ids, j, l as int) as u32,
            ps,
        ) <==> has_posting(list_in(dicts[j], t), l, ps),
{
    let i = source(v, ids, j);
    let start = merged_docs(v, ids, j).len() as int;
    let n = v.manifest.segments[i].num_docs as int;
    let d = number_of(v, ids, j, l as int) as u32;
    lemma_own(v, ids, dicts, j, t);
    lemma_merged_len(v, ids, j);
    lemma_docs_in_grows(v, ids, j + 1, ids.len() as int);
    lemma_new_ids(v, i, start);
    lemma_renumbered_has(
        list_in(dicts[j], t),
        new_ids(v, i, start),
        start,
        start + kept_docs(v, i, n).len(),
        0,
        l,
        d,
        ps,
    );
}

/// A merge keeps the postings of every document that it keeps, under the new number
/// of the document, and gives it no others.
pub proof fn lemma_merge_keeps_postings(
    v: IndexView,
    ids: Seq<u32>,
    dicts: Seq<Seq<TermView>>,
    k: int,
    j: int,
    l: u32,
    t: Seq<char>,
    ps: Seq<u32>,
)
    requires
        mergeable(v, ids, dicts),
        is_kept(v, ids, j, l as int),
        j < k <= ids.len(),
    ensures
        merged_lists(v, ids, k) matches Ok(m) && (has_posting(
            list_at(m, t),
            number_of(v, ids, j, l as int) as u32,
            ps,
        ) <==> has_posting(list_in(dicts[j], t), l, ps)),
    decreases k,
{
    lemma_merged_lists(v, ids, dicts, k, t);
    lemma_merged_lists(v, ids, dicts, k - 1, t);
    lemma_own(v, ids, dicts, k - 1, t);
    let i = source(v, ids, k - 1);
    let start = merged_docs(v, ids, k - 1).len() as int;
    let nids = new_ids(v, i, start);
    let d = number_of(v, ids, j, l as int) as u32;
    let a = list_at(merged_lists(v, ids, k - 1)->Ok_0, t);
    let b = renumbered(entries_of(list_in(dicts[k - 1], t)), nids, 0);
    let all = list_at(merged_lists(v, ids, k)->Ok_0, t);
    lemma_merged_len(v, ids, k);
    lemma_docs_in_grows(v, ids, k, ids.len() as int);
    lemma_number(v, ids, j, l as int, k);
    assert(d == number_of(v, ids, j, l as int));
    lemma_concat_has(a, b, d, ps);
    if k == j + 1 {
        lemma_last_source(v, ids, dicts, j, l, t, ps);
        if has_posting(a, d, ps) {
            let x = choose|x: int| 0 <= x < a.len() && #[trigger] a[x] == (d, ps);
            assert(a[x].0 < start);
        }
    } else {
        lemma_merge_keeps_postings(v, ids, dicts, k - 1, j, l, t, ps);
        lemma_number(v, ids, j, l as int, k - 1);
        if has_posting(b, d, ps) {
            let x = choose|x: int| 0 <= x < b.len() && #[trigger] b[x] == (d, ps);
            assert(b[x].0 >= start);
        }
    }
}

/// Looking a term up in a written file gives its list.
pub(crate) proof fn lemma_looked_up(ks: Seq<TermView>, t: Seq<char>)
    requires
        writable(ks),
    ensures
        postings_in(file_of(ks), t) == if has_key(ks, t) {
            Some((entries_of(list_in(ks, t)), list_in(ks, t).len() as u32))
        } else {
            None
        },
        docs_ascend(entries_of(list_in(ks, t))),
{
    lemma_parses(ks);
    if has_key(ks, t) {
        let i = choose|i: int| 0 <= i < ks.len() && (#[trigger] ks[i]).term == encode_utf8(t);
        lemma_lookup_finds(ks, i);
        lemma_written_list(ks, i);
    } else {
        lemma_lookup_misses(ks, encode_utf8(t));
    }
}

/// The entry of a document is its posting.
proof fn lemma_entry_of(list: List, d: u32)
    requires
        docs_ascend(entries_of(list)),
    ensures
        entry_at(entries_of(list), d) is Some <==> exists|ps: Seq<u32>| #[trigger]
            has_posting(list, d, ps),
        forall|ps: Seq<u32>| #[trigger]
            has_posting(list, d, ps) ==> entry_at(entries_of(list), d)->Some_0.positions == Some(
                ps,
            ),
{
    let es = entries_of(list);
    lemma_entry_at(es, d);
    if entry_at(es, d) is Some {
        let e = entry_at(es, d)->Some_0;
        let i = choose|i: int| 0 <= i < es.len() && #[trigger] es[i] == e;
        assert(es[i].doc == d);
        assert(list[i] == (d, list[i].1));
        assert(has_posting(list, d, list[i].1));
    }
    assert forall|ps: Seq<u32>| #[trigger] has_posting(list, d, ps) implies entry_at(
        es,
        d,
    ) is Some && entry_at(es, d)->Some_0.positions == Some(ps) by {
        let x = choose|x: int| 0 <= x < list.len() && #[trigger] list[x] == (d, ps);
        assert(es[x].doc == d && es[x].positions == Some(ps));
        let e = entry_at(es, d)->Some_0;
        let i = choose|i: int| 0 <= i < es.len() && #[trigger] es[i] == e;
        assert(es[i].doc == d);
        if i < x {
            assert(es[i].doc < es[x].doc);
        } else if x < i {
            assert(es[x].doc < es[i].doc);
        }
    }
}

/// What a merge writes of a term is found in the merged file, and nothing else.
proof fn lemma_found_merged(
    f: Flushed,
    m: Lists,
    docs: Seq<DocView>,
    root: Seq<char>,
    t: Seq<char>,
)
    requires
        f.is_of(0, 0, m, docs, root),
        all_sorted(m),
        storable(m, 0),
    ensures
        postings_in(f.idx@, t) == if m.contains_key(t) && encode_utf8(t).len() <= MAX_TERM_BYTES {
            Some((entries_of(m[t]), m[t].len() as u32))
        } else {
            None
        },
{
    assert(all_from(m, 0));
    lemma_finds_what_was_indexed(f, 0, 0, m, docs, root, t);
    if m.contains_key(t) {
        assert(rebased(m[t], 0) =~= m[t]);
    }
}

/// A document that a merge keeps is live in the merged segment exactly where it was.
proof fn lemma_still_live(
    index: &Index<'_>,
    ids: Seq<u32>,
    f: Flushed,
    m: Lists,
    src: SegmentView,
    dst: SegmentView,
    j: int,
    l: u32,
)
    requires
        index.wf(),
        0 <= source(index@, ids, j) < index@.manifest.segments.len(),
        is_kept(index@, ids, j, l as int),
        merged_docs(index@, ids, ids.len() as int).len() <= u32::MAX,
        f.is_of(0, 0, m, merged_docs(index@, ids, ids.len() as int), index@.root),
        src == index@.segments[source(index@, ids, j)],
        dst.doc == f.doc@,
        dst.entry.num_docs == f.entry.num_docs,
        !gone(dst, number_of(index@, ids, j, l as int)),
    ensures
        live_len(src, l) is Some <==> live_len(
            dst,
            number_of(index@, ids, j, l as int) as u32,
        ) is Some,
        number_of(index@, ids, j, l as int) <= u32::MAX,
{
    let v = index@;
    let i = source(v, ids, j);
    let n = ids.len() as int;
    let docs = merged_docs(v, ids, n);
    let d = number_of(v, ids, j, l as int) as u32;
    index.lemma_wf();
    lemma_number(v, ids, j, l as int, n);
    lemma_entry(v.manifest, i);
    lemma_place(v.manifest, global_id(v, i, l as int), i, l);
    lemma_flushed_entry(f, 0, 0, m, docs, v.root);
    assert(f.doc@.len() == f.doc.len());
    lemma_docs_read_back(f, 0, 0, m, docs, v.root, v.root, d);
    assert(live_len(dst, d) == live_len(read_back(f), d)) by {
        assert(!gone(read_back(f), d as int));
    }
    lemma_kind_bytes(DocKind::Indexed, record_in(src.doc, l as int).status);
}

/// A merge changes no answers: a document that it keeps matches a query in the
/// merged segment exactly where it matched it in its source.
pub proof fn lemma_merge_keeps_answers(
    index: &Index<'_>,
    ids: Seq<u32>,
    dicts: Seq<Seq<TermView>>,
    f: Flushed,
    m: Lists,
    src: &Segment<'_>,
    dst: &Segment<'_>,
    j: int,
    l: u32,
    n: NodeView,
)
    requires
        index.wf(),
        mergeable(index@, ids, dicts),
        0 <= source(index@, ids, j) < index@.manifest.segments.len(),
        is_kept(index@, ids, j, l as int),
        merged_lists(index@, ids, ids.len() as int) == Ok::<Lists, ErrorView>(m),
        storable(m, 0),
        f.is_of(0, 0, m, merged_docs(index@, ids, ids.len() as int), index@.root),
        src@ == index@.segments[source(index@, ids, j)],
        dst@.idx == f.idx@,
        dst@.doc == f.doc@,
        dst@.entry.num_docs == f.entry.num_docs,
        !gone(dst@, number_of(index@, ids, j, l as int)),
    ensures
        matches_doc(dst, n, number_of(index@, ids, j, l as int) as u32) <==> matches_doc(src, n, l),
{
    let v = index@;
    let d = number_of(v, ids, j, l as int) as u32;
    let k = ids.len() as int;
    let docs = merged_docs(v, ids, k);
    lemma_merged_len(v, ids, k);
    lemma_still_live(index, ids, f, m, src@, dst@, j, l);
    assert(all_sorted(m)) by {
        assert forall|t: Seq<char>| #[trigger] m.contains_key(t) implies sorted_list(m[t]) by {
            lemma_merged_lists(v, ids, dicts, k, t);
            assert(list_at(m, t) == m[t]);
        }
    }
    assert forall|t: Seq<char>|
        (#[trigger] has_term(dst, t, d) <==> has_term(src, t, l)) && (has_term(dst, t, d)
            ==> entry_at(dst.lookup(t)->Some_0.0, d)->Some_0.positions == entry_at(
            src.lookup(t)->Some_0.0,
            l,
        )->Some_0.positions) by {
        lemma_same_term(v, ids, dicts, f, m, docs, j, l, t);
        assert(dst.lookup(t) == postings_in(f.idx@, t));
        assert(src.lookup(t) == postings_in(file_of(dicts[j]), t));
        assert(dst.length(d) is Some <==> src.length(l) is Some);
    }
    lemma_same_answers(dst, d, src, l, n);
}

/// A term is found with a document behind a merge as it was before.
pub(crate) proof fn lemma_same_term(
    v: IndexView,
    ids: Seq<u32>,
    dicts: Seq<Seq<TermView>>,
    f: Flushed,
    m: Lists,
    docs: Seq<DocView>,
    j: int,
    l: u32,
    t: Seq<char>,
)
    requires
        mergeable(v, ids, dicts),
        is_kept(v, ids, j, l as int),
        merged_lists(v, ids, ids.len() as int) == Ok::<Lists, ErrorView>(m),
        all_sorted(m),
        storable(m, 0),
        f.is_of(0, 0, m, docs, v.root),
    ensures
        ({
            let d = number_of(v, ids, j, l as int) as u32;
            let now = postings_in(f.idx@, t);
            let was = postings_in(file_of(dicts[j]), t);
            let here = now is Some && entry_at(now->Some_0.0, d) is Some;
            let there = was is Some && entry_at(was->Some_0.0, l) is Some;
            &&& here <==> there
            &&& here ==> entry_at(now->Some_0.0, d)->Some_0.positions == entry_at(
                was->Some_0.0,
                l,
            )->Some_0.positions
        }),
{
    let k = ids.len() as int;
    let d = number_of(v, ids, j, l as int) as u32;
    let ks = dicts[j];
    let old_list = list_in(ks, t);
    let new_list = list_at(m, t);
    lemma_looked_up(ks, t);
    lemma_found_merged(f, m, docs, v.root, t);
    lemma_same_entry(v, ids, dicts, m, j, l, t);
    if has_key(ks, t) {
        let i = choose|i: int| 0 <= i < ks.len() && (#[trigger] ks[i]).term == encode_utf8(t);
        assert(ks[i].term.len() <= MAX_TERM_BYTES);
    } else {
        assert(entry_at(entries_of(old_list), l) is None);
    }
    if !m.contains_key(t) {
        assert(entry_at(entries_of(new_list), d) is None);
    }
}

/// The posting of a document in the list of a term is the same behind a merge.
proof fn lemma_same_entry(
    v: IndexView,
    ids: Seq<u32>,
    dicts: Seq<Seq<TermView>>,
    m: Lists,
    j: int,
    l: u32,
    t: Seq<char>,
)
    requires
        mergeable(v, ids, dicts),
        is_kept(v, ids, j, l as int),
        merged_lists(v, ids, ids.len() as int) == Ok::<Lists, ErrorView>(m),
    ensures
        ({
            let was = entry_at(entries_of(list_in(dicts[j], t)), l);
            let now = entry_at(
                entries_of(list_at(m, t)),
                number_of(v, ids, j, l as int) as u32,
            );
            &&& now is Some <==> was is Some
            &&& now is Some ==> now->Some_0.positions == was->Some_0.positions
        }),
{
    let k = ids.len() as int;
    let d = number_of(v, ids, j, l as int) as u32;
    let old_list = list_in(dicts[j], t);
    let new_list = list_at(m, t);
    lemma_looked_up(dicts[j], t);
    lemma_merged_lists(v, ids, dicts, k, t);
    assert(docs_ascend(entries_of(new_list)));
    lemma_entry_of(old_list, l);
    lemma_entry_of(new_list, d);
    assert forall|ps: Seq<u32>| #[trigger] has_posting(new_list, d, ps) <==> has_posting(
        old_list,
        l,
        ps,
    ) by {
        lemma_merge_keeps_postings(v, ids, dicts, k, j, l, t, ps);
    }
    if entry_at(entries_of(new_list), d) is Some {
        let ps = choose|ps: Seq<u32>| #[trigger] has_posting(new_list, d, ps);
        assert(has_posting(old_list, l, ps));
    }
    if entry_at(entries_of(old_list), l) is Some {
        let ps = choose|ps: Seq<u32>| #[trigger] has_posting(old_list, l, ps);
        assert(has_posting(new_list, d, ps));
    }
}

} // verus!
