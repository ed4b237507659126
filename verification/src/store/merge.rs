//! Merging segments.
//!
//! A merge has two phases. Preparing one reads the surviving documents and the
//! postings of committed segments, which never change, and serialises the new
//! segment; that needs no lock. Committing it happens under the lock, against
//! the manifest as it is then: whatever was deleted from a source meanwhile is
//! carried over, so that a merge never brings a deleted document back.

use vstd::prelude::*;

use super::flush::{doc_views, docs_fault, flush_segment, unstorable, Flushed, Lists, SegmentAcc};
use super::reader::{doc_of, Index, IndexView};
use super::segment::{undecoded, corrupt, Segment};
use super::{idx_file, idx_name, join, joined};
use crate::error::{ErrorView, Result};
use crate::format::idx::{all_terms, item_views, parsed};
use crate::format::manifest::{self, SegmentEntry};
use crate::format::postings::{ascending, decoded_list, DiskPostingList};
use crate::format::format_message;
use crate::index::builder::{all_below, all_from};
use crate::index::doc_table::DocView;
use crate::index::memory::{
    before, extended, list_at, merged, sorted_list, MemPostingList, MemTermStore, TermMap,
};
use crate::index::postings::{docs_ascend, positions_ascend, Entry};
use crate::index::{DocId, DocMeta, IndexReader, Position, PostingCursor, PostingList};

verus! {

/// The place of the first segment with this id from `i` on.
pub open spec fn seg_index(es: Seq<SegmentEntry>, id: u32, i: int) -> int
    decreases es.len() - i,
{
    if i < es.len() && es[i].segment_id != id {
        seg_index(es, id, i + 1)
    } else {
        i
    }
}

/// The number of document `local` of segment `i`.
pub open spec fn global_id(v: IndexView, i: int, local: int) -> u32 {
    (v.manifest.segments[i].base_doc + local) as u32
}

/// The documents of segment `i` below `n` that a merge keeps.
pub open spec fn kept_docs(v: IndexView, i: int, n: int) -> Seq<DocView>
    decreases n,
{
    if n <= 0 {
        Seq::empty()
    } else {
        match doc_of(v, global_id(v, i, n - 1)) {
            Some(d) => kept_docs(v, i, n - 1).push(d),
            None => kept_docs(v, i, n - 1),
        }
    }
}

/// The documents that a merge keeps of the first `k` of its segments.
pub open spec fn merged_docs(v: IndexView, ids: Seq<u32>, k: int) -> Seq<DocView>
    decreases k,
{
    if k <= 0 {
        Seq::empty()
    } else {
        let i = seg_index(v.manifest.segments, ids[k - 1], 0);
        merged_docs(v, ids, k - 1) + kept_docs(v, i, v.manifest.segments[i].num_docs as int)
    }
}

/// The new numbers of the documents of segment `i`, the first being `start`.
pub open spec fn new_ids(v: IndexView, i: int, start: int) -> Seq<Option<u32>> {
    Seq::new(
        v.manifest.segments[i].num_docs as nat,
        |l: int|
            if doc_of(v, global_id(v, i, l)) is Some {
                Some((start + kept_docs(v, i, l).len()) as u32)
            } else {
                None
            },
    )
}

/// The postings from `i` on, under new numbers. One of a document that is not
/// kept is left out; one whose positions cannot be decoded ends the list.
pub open spec fn renumbered(es: Seq<Entry>, ids: Seq<Option<u32>>, i: int) -> Seq<(u32, Seq<u32>)>
    decreases es.len() - i,
{
    if i >= es.len() {
        Seq::empty()
    } else if es[i].doc < ids.len() && ids[es[i].doc as int] is Some {
        match es[i].positions {
            None => Seq::empty(),
            Some(ps) => if ps.len() > 0 {
                seq![(ids[es[i].doc as int]->Some_0, ps)] + renumbered(es, ids, i + 1)
            } else {
                renumbered(es, ids, i + 1)
            },
        }
    } else {
        renumbered(es, ids, i + 1)
    }
}

/// The lists of the first `n` terms under new numbers, without empty ones. The terms
/// may come in any order; the lists of one that comes again follow each other. None
/// where their documents or positions are out of order.
pub open spec fn term_lists(
    items: Seq<(Seq<char>, u32, Seq<u8>)>,
    ids: Seq<Option<u32>>,
    n: int,
) -> Option<Lists>
    decreases n,
{
    if n <= 0 {
        Some(Map::empty())
    } else {
        let list = renumbered(decoded_list(items[n - 1].2), ids, 0);
        match term_lists(items, ids, n - 1) {
            None => None,
            Some(before) => if list.len() > 0 {
                match extended(list_at(before, items[n - 1].0), list) {
                    None => None,
                    Some(all) => Some(before.insert(items[n - 1].0, all)),
                }
            } else {
                Some(before)
            },
        }
    }
}

/// The postings of an index file under new numbers, or why they cannot be read.
pub open spec fn gathered(idx: Seq<u8>, ids: Seq<Option<u32>>) -> core::result::Result<
    Lists,
    Seq<char>,
> {
    match parsed(idx) {
        Err(e) => Err(format_message(e)),
        Ok((_, toc)) => match all_terms(idx, toc) {
            Err(e) => Err(format_message(e)),
            Ok(items) => match term_lists(items, ids, items.len() as int) {
                Some(m) => Ok(m),
                None => Err("postings are not in order"@),
            },
        },
    }
}

/// The postings of the first `k` segments of a merge, under new numbers.
pub open spec fn merged_lists(v: IndexView, ids: Seq<u32>, k: int) -> core::result::Result<
    Lists,
    ErrorView,
>
    decreases k,
{
    if k <= 0 {
        Ok(Map::empty())
    } else {
        match merged_lists(v, ids, k - 1) {
            Err(e) => Err(e),
            Ok(before) => {
                let i = seg_index(v.manifest.segments, ids[k - 1], 0);
                let start = merged_docs(v, ids, k - 1).len() as int;
                match gathered(v.segments[i].idx, new_ids(v, i, start)) {
                    Err(reason) => Err(
                        ErrorView::Corrupt {
                            path: joined(v.dir(), idx_file(ids[k - 1])),
                            reason,
                        },
                    ),
                    Ok(own) => Ok(merged(before, own)),
                }
            },
        }
    }
}

/// New numbers ascend with the old ones, from `lo` on and below `hi`.
pub open spec fn ids_ascend(ids: Seq<Option<u32>>, lo: int, hi: int) -> bool {
    &&& forall|a: int, b: int|
        #![trigger ids[a], ids[b]]
        0 <= a < b < ids.len() && ids[a] is Some && ids[b] is Some ==> ids[a]->Some_0
            < ids[b]->Some_0
    &&& forall|a: int|
        #![trigger ids[a]]
        0 <= a < ids.len() && ids[a] is Some ==> lo <= ids[a]->Some_0 < hi
}

/// A list under new numbers is sorted, and holds documents that have one.
pub proof fn lemma_renumbered(es: Seq<Entry>, ids: Seq<Option<u32>>, lo: int, hi: int, i: int)
    requires
        docs_ascend(es),
        positions_ascend(es),
        ids_ascend(ids, lo, hi),
        0 <= i,
    ensures
        sorted_list(renumbered(es, ids, i)),
        forall|k: int|
            #![trigger renumbered(es, ids, i)[k]]
            0 <= k < renumbered(es, ids, i).len() ==> lo <= renumbered(es, ids, i)[k].0 < hi
                && exists|j: int|
                i <= j < es.len() && (#[trigger] es[j]).doc < ids.len() && ids[es[j].doc as int]
                    == Some(renumbered(es, ids, i)[k].0),
    decreases es.len() - i,
{
    if i < es.len() {
        lemma_renumbered(es, ids, lo, hi, i + 1);
        let r = renumbered(es, ids, i);
        let q = renumbered(es, ids, i + 1);
        if es[i].doc < ids.len() && ids[es[i].doc as int] is Some && es[i].positions is Some
            && es[i].positions->Some_0.len() > 0 {
            let d = ids[es[i].doc as int]->Some_0;
            assert forall|k: int| #![trigger r[k]] 0 <= k < r.len() implies lo <= r[k].0 < hi
                && exists|j: int|
                i <= j < es.len() && (#[trigger] es[j]).doc < ids.len() && ids[es[j].doc as int]
                    == Some(r[k].0) by {
                if k == 0 {
                    assert(es[i].doc < ids.len());
                } else {
                    assert(r[k] == q[k - 1]);
                    let j = choose|j: int|
                        i + 1 <= j < es.len() && (#[trigger] es[j]).doc < ids.len()
                            && ids[es[j].doc as int] == Some(q[k - 1].0);
                    assert(es[j].doc < ids.len());
                }
            }
            assert forall|a: int, b: int| 0 <= a < b < r.len() implies (#[trigger] r[a]).0
                < (#[trigger] r[b]).0 by {
                assert(r[b] == q[b - 1]);
                if a > 0 {
                    assert(r[a] == q[a - 1]);
                } else {
                    let j = choose|j: int|
                        i + 1 <= j < es.len() && (#[trigger] es[j]).doc < ids.len()
                            && ids[es[j].doc as int] == Some(q[b - 1].0);
                    assert(es[i].doc < es[j].doc);
                }
            }
            assert forall|a: int| #![trigger r[a]] 0 <= a < r.len() implies r[a].1.len() > 0
                && ascending(r[a].1) by {
                if a > 0 {
                    assert(r[a] == q[a - 1]);
                }
            }
        } else {
            assert forall|k: int| #![trigger r[k]] 0 <= k < r.len() implies lo <= r[k].0 < hi
                && exists|j: int|
                i <= j < es.len() && (#[trigger] es[j]).doc < ids.len() && ids[es[j].doc as int]
                    == Some(r[k].0) by {
                if r.len() > 0 {
                    assert(r[k] == q[k]);
                    let j = choose|j: int|
                        i + 1 <= j < es.len() && (#[trigger] es[j]).doc < ids.len()
                            && ids[es[j].doc as int] == Some(q[k].0);
                    assert(es[j].doc < ids.len());
                }
            }
        }
    }
}

/// Records all positions of a document behind a sorted list.
fn push_all(list: &mut MemPostingList, doc: DocId, ps: &[Position])
    requires
        sorted_list(old(list)@),
        ascending(ps@),
        ps@.len() > 0 && old(list)@.len() > 0 ==> old(list)@.last().0 < doc,
    ensures
        sorted_list(final(list)@),
        final(list)@ == if ps@.len() > 0 {
            old(list)@.push((doc, ps@))
        } else {
            old(list)@
        },
{
    let ghost start = list@;
    let mut k: usize = 0;
    while k < ps.len()
        invariant
            k <= ps@.len(),
            ascending(ps@),
            sorted_list(list@),
            ps@.len() > 0 && start.len() > 0 ==> start.last().0 < doc,
            list@ == if k > 0 {
                start.push((doc, ps@.take(k as int)))
            } else {
                start
            },
        decreases ps@.len() - k,
    {
        proof {
            if k > 0 {
                assert(ps@.take(k as int).last() == ps@[k - 1]);
                assert(ps@[k - 1] < ps@[k as int]);
            }
        }
        list.push(doc, ps[k]);
        k = k + 1;
        proof {
            assert(ps@.take(k as int) =~= ps@.take(k - 1).push(ps@[k - 1]));
            if k > 1 {
                assert(start.push((doc, ps@.take(k - 1))).drop_last() =~= start);
            } else {
                assert(ps@.take(1) =~= seq![ps@[0]]);
            }
        }
    }
    assert(ps@.take(k as int) =~= ps@);
}

/// A stored list under new numbers.
fn renumber(list: &DiskPostingList<'_>, ids: &Vec<Option<DocId>>, Ghost(lo): Ghost<int>, Ghost(hi): Ghost<int>) -> (r: MemPostingList)
    requires
        ids_ascend(ids@, lo, hi),
    ensures
        r@ == renumbered(decoded_list(list.data@), ids@, 0),
        sorted_list(r@),
{
    let ghost es = list.entries();
    let ghost all = renumbered(es, ids@, 0);
    proof {
        list.lemma_ascends();
        lemma_renumbered(es, ids@, lo, hi, 0);
    }
    let mut r = MemPostingList::default();
    let mut cur = list.cursor();
    let ghost mut j: int = 0;
    let mut more: bool = true;
    assert(es.skip(0) =~= es);
    assert(r@ + all =~= all);
    while more
        invariant
            docs_ascend(es),
            positions_ascend(es),
            sorted_list(all),
            cur.wf(),
            0 <= j <= es.len(),
            cur.rest() == es.skip(j),
            sorted_list(r@),
            all == r@ + renumbered(es, ids@, j),
            !more ==> j == es.len(),
        decreases
                es.len() - j + if more {
                    1int
                } else {
                    0int
                },
    {
        match cur.doc() {
            None => {
                more = false;
            },
            Some(local) => {
                let ghost e = es[j];
                let ghost had = r@;
                assert(es.skip(j)[0] == e);
                assert(es.skip(j).drop_first() =~= es.skip(j + 1));
                if (local as usize) < ids.len() {
                    match ids[local as usize] {
                        None => {
                            cur.advance();
                            proof {
                                j = j + 1;
                            }
                        },
                        Some(d) => {
                            let ps = cur.positions();
                            proof {
                                if e.positions is Some && e.positions->Some_0.len() > 0 {
                                    let rest = renumbered(es, ids@, j + 1);
                                    let item = (d, e.positions->Some_0);
                                    assert(all =~= had.push(item) + rest);
                                    if had.len() > 0 {
                                        assert(all[had.len() - 1] == had.last());
                                        assert(all[had.len() as int] == item);
                                        assert(all[had.len() - 1].0 < all[had.len() as int].0);
                                    }
                                }
                            }
                            push_all(&mut r, d, ps);
                            cur.advance();
                            proof {
                                if e.positions is Some {
                                    j = j + 1;
                                } else {
                                    j = es.len() as int;
                                    assert(es.skip(j) =~= Seq::empty());
                                    assert(all =~= r@ + renumbered(es, ids@, j));
                                }
                            }
                        },
                    }
                } else {
                    cur.advance();
                    proof {
                        j = j + 1;
                    }
                }
            },
        }
    }
    assert(r@ + renumbered(es, ids@, j) =~= r@);
    r
}

/// Where the lists of the first terms are out of order, so are those of more.
proof fn lemma_lists_fail(
    items: Seq<(Seq<char>, u32, Seq<u8>)>,
    ids: Seq<Option<u32>>,
    a: int,
    n: int,
)
    requires
        0 <= a <= n,
        term_lists(items, ids, a) is None,
    ensures
        term_lists(items, ids, n) is None,
    decreases n - a,
{
    if a < n {
        lemma_lists_fail(items, ids, a, n - 1);
    }
}

/// One list behind another holds the documents of both.
proof fn lemma_extended_bounds(
    list: Seq<(u32, Seq<u32>)>,
    more: Seq<(u32, Seq<u32>)>,
    lo: int,
    hi: int,
)
    requires
        forall|k: int| 0 <= k < list.len() ==> lo <= (#[trigger] list[k]).0 < hi,
        forall|k: int| 0 <= k < more.len() ==> lo <= (#[trigger] more[k]).0 < hi,
    ensures
        extended(list, more) matches Some(all) ==> forall|k: int|
            0 <= k < all.len() ==> lo <= (#[trigger] all[k]).0 < hi,
{
    if let Some(all) = extended(list, more) {
        assert forall|k: int| 0 <= k < all.len() implies lo <= (#[trigger] all[k]).0 < hi by {
            if k < list.len() {
                assert(all[k].0 == list[k].0);
            } else {
                let x = k - list.len() + more.len() - (all.len() - list.len());
                assert(all[k] == more[x]);
            }
        }
    }
}

/// The postings of a segment under new numbers.
fn segment_terms(
    dir: &str,
    s: &Segment<'_>,
    ids: &Vec<Option<DocId>>,
    Ghost(lo): Ghost<int>,
    Ghost(hi): Ghost<int>,
) -> (r: Result<TermMap>)
    requires
        s.wf(),
        ids_ascend(ids@, lo, hi),
    ensures
        match r {
            Ok(m) => m.wf() && gathered(s@.idx, ids@) == Ok::<_, Seq<char>>(m@) && all_from(m@, lo)
                && all_below(m@, hi),
            Err(e) => gathered(s@.idx, ids@) matches Err(reason) && e@ == (ErrorView::Corrupt {
                path: joined(dir@, idx_file(s@.entry.segment_id)),
                reason,
            }),
        },
{
    let path = join(dir, idx_name(s.entry().segment_id).as_str());
    let view = s.idx();
    proof {
        view.lemma_wf();
    }
    let items = match view.terms().collect() {
        Ok(items) => items,
        Err(e) => {
            return Err(undecoded(path.as_str(), &e));
        },
    };
    let ghost vs = item_views(items@);
    let ghost idx = s@.idx;
    let mut m = TermMap::new();
    let mut i: usize = 0;
    while i < items.len()
        invariant
            s@.idx == idx,
            path@ == joined(dir@, idx_file(s@.entry.segment_id)),
            gathered(idx, ids@) == match term_lists(vs, ids@, vs.len() as int) {
                Some(m) => Ok::<Lists, Seq<char>>(m),
                None => Err("postings are not in order"@),
            },
            vs == item_views(items@),
            vs.len() == items@.len(),
            ids_ascend(ids@, lo, hi),
            i <= items@.len(),
            m.wf(),
            term_lists(vs, ids@, i as int) == Some(m@),
            all_from(m@, lo),
            all_below(m@, hi),
        decreases items@.len() - i,
    {
        let ghost had = m@;
        let (term, _df, list) = &items[i];
        assert(vs[i as int] == (term@, items@[i as int].1, list.data@));
        let own = renumber(list, ids, Ghost(lo), Ghost(hi));
        proof {
            list.lemma_ascends();
            lemma_renumbered(decoded_list(list.data@), ids@, lo, hi, 0);
        }
        if own.as_slice().len() > 0 {
            proof {
                assert forall|k: int| 0 <= k < list_at(had, term@).len() implies lo <= (
                #[trigger] list_at(had, term@)[k]).0 < hi by {
                    assert(had.contains_key(term@));
                }
                lemma_extended_bounds(list_at(had, term@), own@, lo, hi);
            }
            if !m.try_append(term.as_str(), own) {
                proof {
                    lemma_lists_fail(vs, ids@, i + 1, vs.len() as int);
                }
                return Err(corrupt(path.as_str(), "postings are not in order"));
            }
            proof {
                assert forall|t: Seq<char>| #[trigger] m@.contains_key(t) implies forall|k: int|
                    0 <= k < m@[t].len() ==> lo <= (#[trigger] m@[t][k]).0 < hi by {
                    if t != term@ {
                        assert(had.contains_key(t));
                    }
                }
            }
        }
        i = i + 1;
    }
    Ok(m)
}

/// No fewer documents are kept of more of them.
pub proof fn lemma_kept_docs(v: IndexView, i: int, a: int, b: int)
    requires
        0 <= a <= b,
    ensures
        kept_docs(v, i, a).len() <= kept_docs(v, i, b).len() <= kept_docs(v, i, a).len() + (b - a),
        a < b && doc_of(v, global_id(v, i, a)) is Some ==> kept_docs(v, i, a).len() < kept_docs(
            v,
            i,
            b,
        ).len(),
    decreases b - a,
{
    if a < b {
        lemma_kept_docs(v, i, a, b - 1);
    }
}

/// The new numbers of the documents of a segment ascend.
pub proof fn lemma_new_ids(v: IndexView, i: int, start: int)
    requires
        0 <= start,
        start + v.manifest.segments[i].num_docs <= u32::MAX,
    ensures
        ids_ascend(
            new_ids(v, i, start),
            start,
            start + kept_docs(v, i, v.manifest.segments[i].num_docs as int).len(),
        ),
{
    let n = v.manifest.segments[i].num_docs as int;
    let ids = new_ids(v, i, start);
    assert forall|a: int, b: int|
        #![trigger ids[a], ids[b]]
        0 <= a < b < ids.len() && ids[a] is Some && ids[b] is Some implies ids[a]->Some_0
        < ids[b]->Some_0 by {
        lemma_kept_docs(v, i, a, b);
        lemma_kept_docs(v, i, 0, b);
    }
    assert forall|a: int| #![trigger ids[a]] 0 <= a < ids.len() && ids[a] is Some implies start
        <= ids[a]->Some_0 < start + kept_docs(v, i, n).len() by {
        lemma_kept_docs(v, i, a, n);
        lemma_kept_docs(v, i, 0, a);
    }
}

/// How many documents the first `k` segments of a merge have.
pub open spec fn docs_in(v: IndexView, ids: Seq<u32>, k: int) -> int
    decreases k,
{
    if k <= 0 {
        0
    } else {
        docs_in(v, ids, k - 1) + v.manifest.segments[seg_index(
            v.manifest.segments,
            ids[k - 1],
            0,
        )].num_docs
    }
}

/// No more documents are kept than there are.
pub proof fn lemma_merged_len(v: IndexView, ids: Seq<u32>, k: int)
    requires
        0 <= k,
    ensures
        merged_docs(v, ids, k).len() <= docs_in(v, ids, k),
    decreases k,
{
    if k > 0 {
        lemma_merged_len(v, ids, k - 1);
        let i = seg_index(v.manifest.segments, ids[k - 1], 0);
        lemma_kept_docs(v, i, 0, v.manifest.segments[i].num_docs as int);
    }
}

/// More segments have no fewer documents.
pub proof fn lemma_docs_in_grows(v: IndexView, ids: Seq<u32>, j: int, k: int)
    requires
        0 <= j <= k,
    ensures
        docs_in(v, ids, j) <= docs_in(v, ids, k),
    decreases k - j,
{
    if j < k {
        lemma_docs_in_grows(v, ids, j, k - 1);
    }
}

/// Numbers the documents of segment `at` that are kept, behind those in `metas`,
/// and puts them there.
fn number_docs(index: &Index<'_>, at: usize, metas: &mut Vec<DocMeta>) -> (r: Vec<Option<DocId>>)
    requires
        index.wf(),
        at < index@.manifest.segments.len(),
        old(metas)@.len() + index@.manifest.segments[at as int].num_docs <= u32::MAX,
    ensures
        r@ == new_ids(index@, at as int, old(metas)@.len() as int),
        doc_views(final(metas)@) == doc_views(old(metas)@) + kept_docs(
            index@,
            at as int,
            index@.manifest.segments[at as int].num_docs as int,
        ),
{
    let ghost v = index@;
    let ghost start = metas@.len() as int;
    let ghost was = doc_views(metas@);
    let entry: SegmentEntry = index.manifest().segments[at];
    proof {
        index.lemma_wf();
        manifest::lemma_entry(v.manifest, at as int);
    }
    let mut r: Vec<Option<DocId>> = Vec::new();
    let mut local: u32 = 0;
    assert(was + kept_docs(v, at as int, 0) =~= was);
    assert(r@ =~= new_ids(v, at as int, start).take(0));
    while local < entry.num_docs
        invariant
            index.wf(),
            v == index@,
            at < v.manifest.segments.len(),
            entry == v.manifest.segments[at as int],
            entry.end() <= u32::MAX + 1,
            start + entry.num_docs <= u32::MAX,
            local <= entry.num_docs,
            metas@.len() == start + kept_docs(v, at as int, local as int).len(),
            kept_docs(v, at as int, local as int).len() <= local,
            doc_views(metas@) == was + kept_docs(v, at as int, local as int),
            r@ == new_ids(v, at as int, start).take(local as int),
        decreases entry.num_docs - local,
    {
        let ghost had = doc_views(metas@);
        let ghost k = kept_docs(v, at as int, local as int);
        let id: DocId = entry.base_doc + local;
        assert(id == global_id(v, at as int, local as int));
        match index.doc(id) {
            Some(m) => {
                r.push(Some(metas.len() as DocId));
                metas.push(m);
                proof {
                    assert(doc_views(metas@) =~= had.push(m@));
                    assert(had.push(m@) =~= was + k.push(m@));
                }
            },
            None => {
                r.push(None);
            },
        }
        local = local + 1;
        assert(r@ =~= new_ids(v, at as int, start).take(local as int));
    }
    assert(new_ids(v, at as int, start).take(local as int) =~= new_ids(v, at as int, start));
    r
}

/// One segment of a merge.
#[derive(Debug)]
pub struct Source {
    pub segment_id: u32,
    /// The generation of its deletions when the merge was prepared.
    pub del_gen: u32,
    /// The new number of each document; none for those that are not kept.
    pub new_ids: Vec<Option<DocId>>,
}

/// A merge that is ready to be committed. It refers to nothing else in memory.
#[derive(Debug)]
pub struct PreparedMerge {
    pub sources: Vec<Source>,
    pub num_docs: u32,
    /// The new segment, numbered from zero on and without an id yet.
    pub segment: Flushed,
}

/// These are the sources of a merge of the first `k` of these segments.
pub open spec fn sources_of(ss: Seq<Source>, v: IndexView, ids: Seq<u32>, k: int) -> bool {
    &&& ss.len() == k
    &&& forall|j: int|
        #![trigger ss[j]]
        0 <= j < k ==> {
            let i = seg_index(v.manifest.segments, ids[j], 0);
            &&& ss[j].segment_id == ids[j]
            &&& ss[j].del_gen == v.manifest.segments[i].del_gen
            &&& ss[j].new_ids@ == new_ids(v, i, merged_docs(v, ids, j).len() as int)
        }
}

impl PreparedMerge {
    /// The ids of the segments that are merged.
    pub fn source_ids(&self) -> (r: Vec<u32>)
        ensures
            r@ == self.sources@.map_values(|s: Source| s.segment_id),
    {
        let ghost want = self.sources@.map_values(|s: Source| s.segment_id);
        let mut r: Vec<u32> = Vec::new();
        let mut i: usize = 0;
        while i < self.sources.len()
            invariant
                i <= self.sources@.len(),
                want == self.sources@.map_values(|s: Source| s.segment_id),
                r@ == want.take(i as int),
            decreases self.sources@.len() - i,
        {
            r.push(self.sources[i].segment_id);
            i = i + 1;
            assert(r@ =~= want.take(i as int));
        }
        assert(want.take(i as int) =~= want);
        r
    }

    /// The number of documents that are kept.
    pub fn num_docs(&self) -> (n: u32)
        ensures
            n == self.num_docs,
    {
        self.num_docs
    }
}

fn find_segment(es: &Vec<SegmentEntry>, id: u32) -> (i: usize)
    ensures
        i == seg_index(es@, id, 0),
        i <= es@.len(),
        i < es@.len() ==> es@[i as int].segment_id == id,
{
    let mut i: usize = 0;
    while i < es.len() && es[i].segment_id != id
        invariant
            i <= es@.len(),
            seg_index(es@, id, 0) == seg_index(es@, id, i as int),
        decreases es@.len() - i,
    {
        i = i + 1;
    }
    i
}

/// Reads what survives of segments and serialises the merged one. The index may
/// be older than what is committed by the time the merge is.
pub fn prepare_merge(index: &Index<'_>, segment_ids: &[u32]) -> (r: Result<PreparedMerge>)
    requires
        index.wf(),
        forall|k: int|
            0 <= k < segment_ids@.len() ==> seg_index(
                index@.manifest.segments,
                #[trigger] segment_ids@[k],
                0,
            ) < index@.manifest.segments.len(),
        docs_in(index@, segment_ids@, segment_ids@.len() as int) <= u32::MAX,
    ensures
        ({
            let v = index@;
            let n = segment_ids@.len() as int;
            let docs = merged_docs(v, segment_ids@, n);
            match (r, merged_lists(v, segment_ids@, n)) {
                (Ok(p), Ok(m)) => sources_of(p.sources@, v, segment_ids@, n) && p.num_docs
                    == docs.len() && p.segment.is_of(0, 0, m, docs, v.root) && docs_fault(
                    docs,
                    v.root,
                    0,
                ) is None,
                (Err(e), Ok(m)) => unstorable(docs_fault(docs, v.root, 0), e@),
                (Err(e), Err(f)) => e@ == f,
                (Ok(_), Err(_)) => false,
            }
        }),
{
    let ghost v = index@;
    let ghost ids = segment_ids@;
    let ghost n = ids.len() as int;
    let segments = index.segment_list();
    let mut metas: Vec<DocMeta> = Vec::new();
    let mut store = MemTermStore::default();
    let mut sources: Vec<Source> = Vec::new();
    let mut k: usize = 0;
    assert(doc_views(metas@) =~= Seq::empty());
    while k < segment_ids.len()
        invariant
            index.wf(),
            v == index@,
            ids == segment_ids@,
            n == ids.len(),
            segments@ == index.held(),
            forall|j: int|
                0 <= j < n ==> seg_index(v.manifest.segments, #[trigger] ids[j], 0)
                    < v.manifest.segments.len(),
            docs_in(v, ids, n) <= u32::MAX,
            k <= n,
            doc_views(metas@) == merged_docs(v, ids, k as int),
            metas@.len() <= docs_in(v, ids, k as int),
            store.wf(),
            merged_lists(v, ids, k as int) == Ok::<_, ErrorView>(store@),
            all_below(store@, metas@.len() as int),
            sources_of(sources@, v, ids, k as int),
        decreases n - k,
    {
        let id: u32 = segment_ids[k];
        let at: usize = find_segment(&index.manifest().segments, id);
        let ghost start = metas@.len() as int;
        let ghost was = store@;
        let ghost had = sources@;
        proof {
            index.lemma_wf();
            assert(ids[k as int] == id);
            lemma_docs_in_grows(v, ids, k + 1, n);
            lemma_merged_len(v, ids, k as int);
            lemma_new_ids(v, at as int, start);
            lemma_kept_docs(v, at as int, 0, v.manifest.segments[at as int].num_docs as int);
        }
        let numbers = number_docs(index, at, &mut metas);
        let ghost end = metas@.len() as int;
        assert(doc_views(metas@).len() == end);
        proof {
            assert(index.held()[at as int]@ == v.segments[at as int]);
        }
        let own = match segment_terms(
            index.dir(),
            &segments[at],
            &numbers,
            Ghost(start),
            Ghost(end),
        ) {
            Ok(own) => own,
            Err(e) => {
                proof {
                    lemma_lists_stop(v, ids, k + 1, n);
                }
                return Err(e);
            },
        };
        let ghost new = own@;
        proof {
            store.lemma_keys();
            assert forall|t: Seq<char>| was.contains_key(t) && #[trigger] new.contains_key(t) implies before(
                was[t],
                new[t],
            ) by {
                if was[t].len() > 0 && new[t].len() > 0 {
                    assert(was[t][was[t].len() - 1].0 < start);
                    assert(new[t][0].0 >= start);
                }
            }
        }
        store.merge_shard(own);
        proof {
            lemma_below(was, new, start, end);
        }
        let del_gen: u32 = index.manifest().segments[at].del_gen;
        sources.push(Source { segment_id: id, del_gen, new_ids: numbers });
        proof {
            assert forall|j: int| #![trigger sources@[j]] 0 <= j < k + 1 implies {
                let i = seg_index(v.manifest.segments, ids[j], 0);
                &&& sources@[j].segment_id == ids[j]
                &&& sources@[j].del_gen == v.manifest.segments[i].del_gen
                &&& sources@[j].new_ids@ == new_ids(v, i, merged_docs(v, ids, j).len() as int)
            } by {
                if j < k {
                    assert(sources@[j] == had[j]);
                }
            }
        }
        k = k + 1;
    }
    let num_docs: u32 = metas.len() as u32;
    let acc = SegmentAcc::from_parts(metas, store);
    let segment = flush_segment(index.root(), 0, acc)?;
    Ok(PreparedMerge { sources, num_docs, segment })
}

proof fn lemma_below(a: Lists, b: Lists, mid: int, hi: int)
    requires
        mid <= hi,
        all_below(a, mid),
        all_below(b, hi),
    ensures
        all_below(merged(a, b), hi),
{
    let m = merged(a, b);
    assert forall|t: Seq<char>| #[trigger] m.contains_key(t) implies forall|i: int|
        0 <= i < m[t].len() ==> (#[trigger] m[t][i]).0 < hi by {
        assert forall|i: int| 0 <= i < m[t].len() implies (#[trigger] m[t][i]).0 < hi by {
            if i < list_at(a, t).len() {
                assert(m[t][i] == list_at(a, t)[i]);
                assert(a.contains_key(t));
            } else {
                assert(m[t][i] == list_at(b, t)[i - list_at(a, t).len()]);
                assert(b.contains_key(t));
            }
        }
    }
}

proof fn lemma_lists_stop(v: IndexView, ids: Seq<u32>, k: int, n: int)
    requires
        0 <= k <= n,
        merged_lists(v, ids, k) is Err,
    ensures
        merged_lists(v, ids, n) == merged_lists(v, ids, k),
    decreases n - k,
{
    if k < n {
        lemma_lists_stop(v, ids, k, n - 1);
    }
}

} // verus!
