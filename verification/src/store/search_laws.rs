//! What a search finds in what was indexed: exactly the files whose text matches.

use vstd::prelude::*;
use vstd::utf8::encode_utf8;

use super::flush::{cover, indexed_docs, local_id, part_start, placed, rebased, Flushed};
use super::flush_laws::{lemma_docs_read_back, lemma_finds_what_was_indexed, read_back, storable};
use super::segment::{gone, live_len, postings_in, Segment, SegmentView};
use crate::crawler::FileEntry;
use crate::format::doc::{doc_path, record_in, STATUS_INDEXED};
use crate::format::idx::MAX_TERM_BYTES;
use crate::format::postings::{ascending, entries_of};
use crate::index::builder::{
    content_tokens, decoded_text, lemma_shard_bounds, occurrences, outcome_of, outcomes_of,
    recorded, shard_terms, ContentView,
};
use crate::index::memory::{all_sorted, list_at, sorted_list};
use crate::index::postings::docs_ascend;
use crate::index::{DocStatus, SegmentReader};
use crate::query::exec::{
    continues, entry_at, follows, index_hits, lemma_entry_at, phrase_count, positions_in,
};
use crate::query::hits::hit;
use crate::query::laws::{
    all_match, any_match, entries_in, has_phrase, has_term, lemma_index_hits, lemma_matches_live,
    lemma_same_answers, matches_doc, matches_global, ranges_ascend, readable, sound,
};
use crate::query::parser::{Node, NodeView};
use crate::tokenizer::{lemma_token_positions, text_atoms, TokenView};

verus! {

/// The term is short enough to be stored.
pub open spec fn stored(t: Seq<char>) -> bool {
    encode_utf8(t).len() <= MAX_TERM_BYTES
}

/// A text with these tokens has the term.
pub open spec fn text_has(ts: Seq<TokenView>, t: Seq<char>) -> bool {
    stored(t) && exists|i: int| 0 <= i < ts.len() && (#[trigger] ts[i]).term == t
}

/// The term stands at the position.
pub open spec fn token_at(ts: Seq<TokenView>, t: Seq<char>, p: int) -> bool {
    exists|i: int| 0 <= i < ts.len() && (#[trigger] ts[i]).term == t && ts[i].position == p
}

/// The terms stand one behind the other from the position on.
pub open spec fn phrase_at(ts: Seq<TokenView>, qs: Seq<Seq<char>>, p: int) -> bool {
    forall|k: int| 0 <= k < qs.len() ==> token_at(ts, #[trigger] qs[k], p + k)
}

/// A text with these tokens has the phrase.
pub open spec fn text_has_phrase(ts: Seq<TokenView>, qs: Seq<Seq<char>>) -> bool {
    &&& forall|k: int| 0 <= k < qs.len() ==> stored(#[trigger] qs[k])
    &&& exists|p: int| #[trigger] phrase_at(ts, qs, p)
}

/// A text with these tokens matches the query.
pub open spec fn text_matches(ts: Seq<TokenView>, n: NodeView) -> bool
    decreases n,
{
    match n {
        NodeView::Term(t) => text_has(ts, t),
        NodeView::Phrase(qs) => if qs.len() == 0 {
            false
        } else {
            text_has_phrase(ts, qs)
        },
        NodeView::And { must, must_not } => {
            &&& must.len() > 0
            &&& text_matches_all(ts, must)
            &&& !text_matches_any(ts, must_not)
        },
        NodeView::Or(cs) => text_matches_any(ts, cs),
    }
}

/// The text matches all of the queries.
pub open spec fn text_matches_all(ts: Seq<TokenView>, ns: Seq<NodeView>) -> bool
    decreases ns,
{
    ns.len() == 0 || text_matches(ts, ns.last()) && text_matches_all(ts, ns.drop_last())
}

/// The text matches one of the queries.
pub open spec fn text_matches_any(ts: Seq<TokenView>, ns: Seq<NodeView>) -> bool
    decreases ns,
{
    ns.len() > 0 && (text_matches(ts, ns.last()) || text_matches_any(ts, ns.drop_last()))
}

/// The positions of a term in a file.
pub open spec fn places(c: ContentView, t: Seq<char>) -> Seq<u32> {
    occurrences(content_tokens(c), content_tokens(c).len() as int, t)
}

/// The atoms of every text can be numbered.
pub open spec fn atoms_fit(cs: Seq<ContentView>) -> bool {
    forall|i: int|
        0 <= i < cs.len() ==> ((#[trigger] cs[i]) matches ContentView::Bytes(b) ==> (decoded_text(
            b,
        ) matches Some(t) ==> text_atoms(t).len() <= u32::MAX))
}

/// The positions of a term are those of its tokens.
pub(crate) proof fn lemma_occurrences(ts: Seq<TokenView>, n: int, t: Seq<char>)
    requires
        0 <= n <= ts.len(),
    ensures
        forall|p: u32| #[trigger]
            occurrences(ts, n, t).contains(p) <==> exists|i: int|
                0 <= i < n && (#[trigger] ts[i]).term == t && ts[i].position == p,
        occurrences(ts, n, t).len() > 0 <==> exists|i: int| 0 <= i < n && (#[trigger] ts[i]).term
            == t,
    decreases n,
{
    if n > 0 {
        lemma_occurrences(ts, n - 1, t);
        let now = occurrences(ts, n, t);
        let had = occurrences(ts, n - 1, t);
        assert forall|p: u32| #[trigger] now.contains(p) <==> exists|i: int|
            0 <= i < n && (#[trigger] ts[i]).term == t && ts[i].position == p by {
            assert(had.contains(p) <==> exists|i: int|
                0 <= i < n - 1 && (#[trigger] ts[i]).term == t && ts[i].position == p);
            if ts[n - 1].term == t {
                assert(now == had.push(ts[n - 1].position));
                if had.contains(p) {
                    let j = choose|j: int| 0 <= j < had.len() && had[j] == p;
                    assert(now[j] == p);
                }
                if ts[n - 1].position == p {
                    assert(now[now.len() - 1] == p);
                }
                if now.contains(p) && p != ts[n - 1].position {
                    let j = choose|j: int| 0 <= j < now.len() && now[j] == p;
                    assert(had[j] == p);
                }
            }
        }
        if ts[n - 1].term == t {
            assert(0 <= n - 1 < n && ts[n - 1].term == t);
        }
    }
}

/// The positions of a term in a file ascend, and are numbers of atoms.
proof fn lemma_places_ascend(ts: Seq<TokenView>, n: int, bound: int, t: Seq<char>)
    requires
        0 <= n <= ts.len(),
        forall|i: int| 0 <= i < ts.len() ==> (#[trigger] ts[i]).position < bound,
        forall|i: int, j: int|
            0 <= i < j < ts.len() ==> (#[trigger] ts[i]).position <= (#[trigger] ts[j]).position,
        forall|i: int, j: int|
            0 <= i < j < ts.len() && (#[trigger] ts[i]).position == (#[trigger] ts[j]).position
                ==> ts[i].term != ts[j].term,
    ensures
        ascending(occurrences(ts, n, t)),
        forall|k: int|
            0 <= k < occurrences(ts, n, t).len() ==> k <= #[trigger] occurrences(ts, n, t)[k]
                < bound,
    decreases n,
{
    if n > 0 {
        lemma_places_ascend(ts, n - 1, bound, t);
        let had = occurrences(ts, n - 1, t);
        let now = occurrences(ts, n, t);
        if ts[n - 1].term == t {
            let p = ts[n - 1].position;
            assert(now == had.push(p));
            assert forall|k: int| 0 <= k < had.len() implies had[k] < p by {
                lemma_occurrences(ts, n - 1, t);
                assert(had.contains(had[k]));
                let i = choose|i: int|
                    0 <= i < n - 1 && (#[trigger] ts[i]).term == t && ts[i].position == had[k];
                assert(ts[i].position <= ts[n - 1].position);
            }
            if had.len() > 0 {
                assert(had[had.len() - 1] < p);
            }
        }
    }
}

proof fn lemma_places(c: ContentView, t: Seq<char>)
    requires
        atoms_fit(seq![c]),
    ensures
        ascending(places(c, t)),
        places(c, t).len() <= u32::MAX,
{
    assert(seq![c][0] == c);
    match c {
        ContentView::Bytes(b) => match decoded_text(b) {
            Some(text) => {
                let atoms = text_atoms(text);
                let ts = content_tokens(c);
                lemma_token_positions(atoms, atoms.len() as int, true);
                lemma_places_ascend(ts, ts.len() as int, atoms.len() as int, t);
                let ps = places(c, t);
                if ps.len() > 0 {
                    assert(ps.len() - 1 <= ps[ps.len() - 1] < atoms.len());
                }
            },
            None => {},
        },
        _ => {},
    }
}

/// The list of a term holds the files that have it, each with its positions.
pub(crate) proof fn lemma_lists(first: int, cs: Seq<ContentView>, n: int, t: Seq<char>)
    requires
        0 <= first,
        0 <= n <= cs.len(),
        first + n <= u32::MAX,
    ensures
        ({
            let m = shard_terms(first, cs, n);
            let l = list_at(m, t);
            &&& m.contains_key(t) <==> l.len() > 0
            &&& forall|j: int|
                0 <= j < l.len() ==> first <= (#[trigger] l[j]).0 < first + n && l[j].1 == places(
                    cs[l[j].0 - first],
                    t,
                ) && l[j].1.len() > 0
            &&& forall|i: int|
                0 <= i < n && places(#[trigger] cs[i], t).len() > 0 ==> exists|j: int|
                    0 <= j < l.len() && (#[trigger] l[j]).0 == first + i
            &&& forall|i: int, j: int|
                0 <= i < j < l.len() ==> (#[trigger] l[i]).0 < (#[trigger] l[j]).0
        }),
    decreases n,
{
    if n > 0 {
        lemma_lists(first, cs, n - 1, t);
        let c = cs[n - 1];
        let m0 = shard_terms(first, cs, n - 1);
        let m = shard_terms(first, cs, n);
        let l0 = list_at(m0, t);
        let l = list_at(m, t);
        let d = (first + n - 1) as u32;
        let ps = places(c, t);
        let ts = content_tokens(c);
        assert(m == recorded(m0, d, ts, ts.len() as int));
        if ps.len() == 0 {
            assert(l =~= l0);
        } else {
            assert(l =~= l0.push((d, ps)));
            assert(l[l0.len() as int].0 == first + (n - 1));
        }
        assert forall|i: int|
            0 <= i < n && places(#[trigger] cs[i], t).len() > 0 implies exists|j: int|
            0 <= j < l.len() && (#[trigger] l[j]).0 == first + i by {
            if i < n - 1 {
                let j = choose|j: int| 0 <= j < l0.len() && (#[trigger] l0[j]).0 == first + i;
                assert(l[j] == l0[j]);
            } else {
                assert(l[l0.len() as int].0 == first + i);
            }
        }
        assert forall|j: int| 0 <= j < l.len() implies first <= (#[trigger] l[j]).0 < first + n
            && l[j].1 == places(cs[l[j].0 - first], t) && l[j].1.len() > 0 by {
            if j < l0.len() {
                assert(l[j] == l0[j]);
            }
        }
        assert forall|i: int, j: int| 0 <= i < j < l.len() implies (#[trigger] l[i]).0 < (
        #[trigger] l[j]).0 by {
            assert(l[i] == l0[i]);
            if j < l0.len() {
                assert(l[j] == l0[j]);
            }
        }
    }
}

/// The postings of files are sorted.
pub(crate) proof fn lemma_sorted(first: int, cs: Seq<ContentView>, n: int)
    requires
        0 <= first,
        0 <= n <= cs.len(),
        first + n <= u32::MAX,
        atoms_fit(cs),
    ensures
        all_sorted(shard_terms(first, cs, n)),
{
    let m = shard_terms(first, cs, n);
    assert forall|t: Seq<char>| #[trigger] m.contains_key(t) implies sorted_list(m[t]) by {
        lemma_lists(first, cs, n, t);
        let l = m[t];
        assert(l == list_at(m, t));
        assert forall|i: int| #![trigger l[i]] 0 <= i < l.len() implies l[i].1.len() > 0
            && ascending(l[i].1) by {
            let c = cs[l[i].0 - first];
            assert(atoms_fit(seq![c]));
            lemma_places(c, t);
        }
    }
}

/// The segment was made of these files, numbered from `first` on.
pub open spec fn made_of(
    f: Flushed,
    id: u32,
    first: u32,
    root: Seq<char>,
    files: Seq<FileEntry>,
    cs: Seq<ContentView>,
) -> bool {
    &&& files.len() == cs.len()
    &&& first + cs.len() <= u32::MAX
    &&& atoms_fit(cs)
    &&& storable(shard_terms(first as int, cs, cs.len() as int), first)
    &&& f.is_of(
        id,
        first,
        shard_terms(first as int, cs, cs.len() as int),
        indexed_docs(files, outcomes_of(cs)),
        root,
    )
}

/// What looking a term up finds, by document.
proof fn lemma_entry(
    f: Flushed,
    id: u32,
    first: u32,
    root: Seq<char>,
    files: Seq<FileEntry>,
    cs: Seq<ContentView>,
    t: Seq<char>,
)
    requires
        made_of(f, id, first, root, files, cs),
    ensures
        match postings_in(f.idx@, t) {
            Some((es, _)) => {
                &&& stored(t)
                &&& docs_ascend(es)
                &&& sound(es)
                &&& forall|d: u32|
                    (#[trigger] entry_at(es, d)) is Some <==> d < cs.len() && places(
                        cs[d as int],
                        t,
                    ).len() > 0
                &&& forall|d: u32|
                    (#[trigger] entry_at(es, d)) matches Some(e) ==> e.positions == Some(
                        places(cs[d as int], t),
                    )
            },
            None => !stored(t) || forall|d: int|
                0 <= d < cs.len() ==> places(#[trigger] cs[d], t).len() == 0,
        },
{
    let n = cs.len() as int;
    let m = shard_terms(first as int, cs, n);
    let docs = indexed_docs(files, outcomes_of(cs));
    lemma_shard_bounds(first as int, cs, n);
    lemma_sorted(first as int, cs, n);
    lemma_finds_what_was_indexed(f, id, first, m, docs, root, t);
    lemma_lists(first as int, cs, n, t);
    let l = list_at(m, t);
    if m.contains_key(t) && stored(t) {
        let es = entries_of(rebased(l, first));
        assert(postings_in(f.idx@, t) == Some((es, l.len() as u32)));
        assert forall|j: int| 0 <= j < es.len() implies (#[trigger] es[j]).doc == l[j].0 - first
            && es[j].positions == Some(places(cs[es[j].doc as int], t)) && es[j].doc < cs.len()
            && places(cs[es[j].doc as int], t).len() > 0 by {
            assert(first <= l[j].0 < first + n);
            assert(rebased(l, first)[j] == (local_id(l[j].0, first), l[j].1));
        }
        assert forall|i: int, j: int| 0 <= i < j < es.len() implies (#[trigger] es[i]).doc < (
        #[trigger] es[j]).doc by {
            assert(l[i].0 < l[j].0);
        }
        assert forall|j: int| 0 <= j < es.len() implies ((
        #[trigger] es[j]).positions matches Some(p) && p.len() <= u32::MAX) by {
            let c = cs[es[j].doc as int];
            assert(atoms_fit(seq![c]));
            lemma_places(c, t);
        }
        assert forall|d: u32| true implies ((#[trigger] entry_at(es, d)) is Some <==> d < cs.len()
            && places(cs[d as int], t).len() > 0) && (entry_at(es, d) matches Some(e)
            ==> e.positions == Some(places(cs[d as int], t))) by {
            lemma_entry_at(es, d);
            if d < cs.len() && places(cs[d as int], t).len() > 0 {
                let j = choose|j: int| 0 <= j < l.len() && (#[trigger] l[j]).0 == first + d;
                assert(es[j].doc == d);
            }
        }
    } else {
        assert(postings_in(f.idx@, t) is None);
        if stored(t) {
            assert forall|d: int| 0 <= d < cs.len() implies places(#[trigger] cs[d], t).len()
                == 0 by {
                if places(cs[d], t).len() > 0 {
                    let j = choose|j: int| 0 <= j < l.len() && (#[trigger] l[j]).0 == first + d;
                }
            }
        }
    }
}

/// What looking the term up finds of the document is what the content says: its
/// positions there, or nothing.
pub open spec fn lists_as(idx: Seq<u8>, t: Seq<char>, l: u32, c: ContentView) -> bool {
    match postings_in(idx, t) {
        Some((es, _)) => {
            &&& entry_at(es, l) is Some <==> stored(t) && places(c, t).len() > 0
            &&& entry_at(es, l) matches Some(e) ==> e.positions == Some(places(c, t))
        },
        None => !stored(t) || places(c, t).len() == 0,
    }
}

/// The segment tells of the document what was read from the content: whether it
/// is indexed, and every term that it has.
pub open spec fn tells(s: SegmentView, l: u32, c: ContentView) -> bool {
    &&& l < s.entry.num_docs
    &&& doc_path(s.doc, s.entry.num_docs, l as int) is Some
    &&& record_in(s.doc, l as int).status == STATUS_INDEXED <==> outcome_of(c).status
        == DocStatus::Indexed
    &&& forall|t: Seq<char>| #[trigger] lists_as(s.idx, t, l, c)
}

/// A segment tells of every document what was read from its file.
pub proof fn lemma_tells(
    s: SegmentView,
    f: Flushed,
    id: u32,
    first: u32,
    root: Seq<char>,
    files: Seq<FileEntry>,
    cs: Seq<ContentView>,
    d: u32,
)
    requires
        made_of(f, id, first, root, files, cs),
        s.idx == f.idx@,
        s.doc == f.doc@,
        s.entry.num_docs == f.entry.num_docs,
        d < cs.len(),
    ensures
        tells(s, d, cs[d as int]),
{
    let n = cs.len() as int;
    let m = shard_terms(first as int, cs, n);
    let docs = indexed_docs(files, outcomes_of(cs));
    assert(f.doc@.len() == f.doc.len());
    lemma_docs_read_back(f, id, first, m, docs, root, root, d);
    assert(docs[d as int].status == outcome_of(cs[d as int]).status);
    assert forall|t: Seq<char>| #[trigger] lists_as(s.idx, t, d, cs[d as int]) by {
        lemma_entry(f, id, first, root, files, cs, t);
    }
}

/// The document of the segment has the term exactly where the text that was read
/// has.
proof fn lemma_term(seg: &Segment<'_>, c: ContentView, t: Seq<char>, d: u32)
    requires
        tells(seg@, d, c),
        !gone(seg@, d as int),
    ensures
        has_term(seg, t, d) <==> text_has(content_tokens(c), t),
        has_term(seg, t, d) ==> entry_at(seg.lookup(t)->Some_0.0, d)->Some_0.positions == Some(
            places(c, t),
        ),
{
    let ts = content_tokens(c);
    lemma_occurrences(ts, ts.len() as int, t);
    assert(lists_as(seg@.idx, t, d, c));
    assert(seg.lookup(t) == postings_in(seg@.idx, t));
    assert(seg.length(d) == live_len(seg@, d));
}

proof fn lemma_counts(ps: Seq<Seq<u32>>, n: int)
    requires
        0 <= n <= ps[0].len(),
    ensures
        phrase_count(ps, n) > 0 <==> exists|i: int| 0 <= i < n && follows(ps, #[trigger] ps[0][i]),
    decreases n,
{
    if n > 0 {
        lemma_counts(ps, n - 1);
        if follows(ps, ps[0][n - 1]) {
            assert(0 <= n - 1 < n && follows(ps, ps[0][n - 1]));
        }
    }
}

/// The document of the segment has the phrase exactly where the text that was
/// read has.
proof fn lemma_phrase(seg: &Segment<'_>, c: ContentView, qs: Seq<Seq<char>>, d: u32)
    requires
        tells(seg@, d, c),
        !gone(seg@, d as int),
        qs.len() > 0,
    ensures
        has_phrase(seg, qs, d) <==> text_has_phrase(content_tokens(c), qs),
{
    let ts = content_tokens(c);
    let ps = positions_in(entries_in(seg, qs, d));
    assert forall|k: int| 0 <= k < qs.len() implies (has_term(seg, #[trigger] qs[k], d)
        <==> text_has(ts, qs[k])) && (has_term(seg, qs[k], d) ==> ps[k] == places(c, qs[k])) by {
        lemma_term(seg, c, qs[k], d);
    }
    if forall|k: int| 0 <= k < qs.len() ==> has_term(seg, #[trigger] qs[k], d) {
        assert(has_term(seg, qs[0], d));
        lemma_counts(ps, ps[0].len() as int);
        assert forall|k: int, p: u32|
            0 <= k < qs.len() implies (#[trigger] ps[k].contains(p) <==> token_at(
            ts,
            qs[k],
            p as int,
        )) by {
            assert(has_term(seg, qs[k], d));
            lemma_occurrences(ts, ts.len() as int, qs[k]);
            assert(ps[k].contains(p) <==> exists|i: int|
                0 <= i < ts.len() && (#[trigger] ts[i]).term == qs[k] && ts[i].position == p);
        }
        if phrase_count(ps, ps[0].len() as int) > 0 {
            let i = choose|i: int| 0 <= i < ps[0].len() && follows(ps, #[trigger] ps[0][i]);
            let p = ps[0][i];
            assert(ps[0].contains(p));
            assert forall|k: int| 0 <= k < qs.len() implies token_at(
                ts,
                #[trigger] qs[k],
                p as int + k,
            ) by {
                if k > 0 {
                    assert(continues(ps, p, k));
                    assert(ps[k].contains((p + k) as u32));
                } else {
                    assert(token_at(ts, qs[0], p as int));
                }
            }
            assert(phrase_at(ts, qs, p as int));
            assert forall|k: int| 0 <= k < qs.len() implies stored(#[trigger] qs[k]) by {
                assert(has_term(seg, qs[k], d));
            }
        }
        if text_has_phrase(ts, qs) {
            let q = choose|q: int| #[trigger] phrase_at(ts, qs, q);
            assert(token_at(ts, qs[0], q + 0));
            let p = q as u32;
            assert(ps[0].contains(p));
            let i = choose|i: int| 0 <= i < ps[0].len() && ps[0][i] == p;
            assert forall|k: int| 1 <= k < ps.len() implies #[trigger] continues(ps, p, k) by {
                assert(token_at(ts, qs[k], q + k));
                assert(ps[k].contains((p + k) as u32));
            }
            assert(follows(ps, ps[0][i]));
        }
    } else if text_has_phrase(ts, qs) {
        let q = choose|q: int| #[trigger] phrase_at(ts, qs, q);
        assert forall|k: int| 0 <= k < qs.len() implies has_term(seg, #[trigger] qs[k], d) by {
            assert(token_at(ts, qs[k], q + k));
            assert(stored(qs[k]));
            assert(text_has(ts, qs[k]));
        }
    }
}

/// A document of the segment matches a query exactly where the text that was read
/// from its file does.
pub proof fn lemma_matches_text(seg: &Segment<'_>, c: ContentView, n: NodeView, d: u32)
    requires
        tells(seg@, d, c),
        !gone(seg@, d as int),
    ensures
        matches_doc(seg, n, d) <==> text_matches(content_tokens(c), n),
    decreases n,
{
    match n {
        NodeView::Term(t) => lemma_term(seg, c, t, d),
        NodeView::Phrase(qs) => {
            if qs.len() == 1 {
                lemma_term(seg, c, qs[0], d);
                let ts = content_tokens(c);
                if text_has(ts, qs[0]) {
                    let i = choose|i: int| 0 <= i < ts.len() && (#[trigger] ts[i]).term == qs[0];
                    assert(token_at(ts, qs[0], ts[i].position + 0));
                    assert(phrase_at(ts, qs, ts[i].position as int));
                }
                if text_has_phrase(ts, qs) {
                    let q = choose|q: int| #[trigger] phrase_at(ts, qs, q);
                    assert(token_at(ts, qs[0], q + 0));
                    assert(stored(qs[0]));
                }
            } else if qs.len() > 1 {
                lemma_phrase(seg, c, qs, d);
            }
        },
        NodeView::And { must, must_not } => {
            lemma_all_match_text(seg, c, must, d);
            lemma_all_match_text(seg, c, must_not, d);
        },
        NodeView::Or(ns) => lemma_all_match_text(seg, c, ns, d),
    }
}

proof fn lemma_all_match_text(seg: &Segment<'_>, c: ContentView, ns: Seq<NodeView>, d: u32)
    requires
        tells(seg@, d, c),
        !gone(seg@, d as int),
    ensures
        all_match(seg, ns, d) <==> text_matches_all(content_tokens(c), ns),
        any_match(seg, ns, d) <==> text_matches_any(content_tokens(c), ns),
    decreases ns,
{
    if ns.len() > 0 {
        lemma_matches_text(seg, c, ns.last(), d);
        lemma_all_match_text(seg, c, ns.drop_last(), d);
    }
}

/// The files of segment `k`, where the segments cover files from `base` on.
pub open spec fn own_files(fs: Seq<Flushed>, files: Seq<FileEntry>, base: u32, k: int) -> Seq<FileEntry> {
    files.subrange(
        fs[k].entry.base_doc - base,
        fs[k].entry.base_doc - base + fs[k].entry.num_docs,
    )
}

/// The contents of those files.
pub open spec fn own_contents(fs: Seq<Flushed>, cs: Seq<ContentView>, base: u32, k: int) -> Seq<
    ContentView,
> {
    cs.subrange(fs[k].entry.base_doc - base, fs[k].entry.base_doc - base + fs[k].entry.num_docs)
}

/// Everything that the segments store in 32 bits fits.
pub open spec fn all_storable(fs: Seq<Flushed>, cs: Seq<ContentView>, base: u32) -> bool {
    forall|k: int|
        0 <= k < fs.len() ==> ({
            let e = (#[trigger] fs[k]).entry;
            let part = cs.subrange(e.base_doc - base, e.base_doc - base + e.num_docs);
            storable(shard_terms(e.base_doc as int, part, part.len() as int), e.base_doc)
        })
}

/// Every segment of a cover was made of its files.
pub(crate) proof fn lemma_made_of(
    fs: Seq<Flushed>,
    root: Seq<char>,
    files: Seq<FileEntry>,
    cs: Seq<ContentView>,
    base: u32,
    next_id: u32,
    k: int,
)
    requires
        cover(fs, root, files, cs, base, next_id, files.len() as int),
        files.len() == cs.len(),
        base + files.len() <= u32::MAX,
        atoms_fit(cs),
        all_storable(fs, cs, base),
        0 <= k < fs.len(),
    ensures
        made_of(
            fs[k],
            (next_id + k) as u32,
            fs[k].entry.base_doc,
            root,
            own_files(fs, files, base, k),
            own_contents(fs, cs, base, k),
        ),
        own_contents(fs, cs, base, k).len() == fs[k].entry.num_docs,
        base <= fs[k].entry.base_doc,
        fs[k].entry.base_doc + fs[k].entry.num_docs <= base + files.len(),
{
    assert(placed(fs, root, files, cs, base, next_id, k));
    let part = own_contents(fs, cs, base, k);
    assert(atoms_fit(part)) by {
        assert forall|i: int| 0 <= i < part.len() implies ((
        #[trigger] part[i]) matches ContentView::Bytes(b) ==> (decoded_text(b) matches Some(t)
            ==> text_atoms(t).len() <= u32::MAX)) by {
            assert(part[i] == cs[fs[k].entry.base_doc - base + i]);
        }
    }
}

/// One of the first `n` segments holds the document.
pub open spec fn owned(fs: Seq<Flushed>, n: int, g: int) -> bool {
    exists|k: int|
        0 <= k < n && (#[trigger] fs[k]).entry.base_doc <= g < fs[k].entry.base_doc
            + fs[k].entry.num_docs
}

/// The segments of a cover come one behind the other, without a gap.
pub(crate) proof fn lemma_one_behind_the_other(
    fs: Seq<Flushed>,
    root: Seq<char>,
    files: Seq<FileEntry>,
    cs: Seq<ContentView>,
    base: u32,
    next_id: u32,
    n: int,
)
    requires
        cover(fs, root, files, cs, base, next_id, files.len() as int),
        0 <= n <= fs.len(),
    ensures
        forall|k: int|
            0 <= k < n ==> (#[trigger] fs[k]).entry.base_doc + fs[k].entry.num_docs <= part_start(
                fs,
                base,
                n,
            ),
        forall|g: int| base <= g < part_start(fs, base, n) ==> #[trigger] owned(fs, n, g),
    decreases n,
{
    if n > 0 {
        lemma_one_behind_the_other(fs, root, files, cs, base, next_id, n - 1);
        assert(placed(fs, root, files, cs, base, next_id, n - 1));
        let e = fs[n - 1].entry;
        assert(e.base_doc == part_start(fs, base, n - 1));
        assert(part_start(fs, base, n) == e.base_doc + e.num_docs);
        assert forall|g: int| base <= g < part_start(fs, base, n) implies #[trigger] owned(
            fs,
            n,
            g,
        ) by {
            if g < part_start(fs, base, n - 1) {
                assert(owned(fs, n - 1, g));
                let k = choose|k: int|
                    0 <= k < n - 1 && (#[trigger] fs[k]).entry.base_doc <= g < fs[k].entry.base_doc
                        + fs[k].entry.num_docs;
                assert(fs[k].entry.base_doc <= g);
            } else {
                assert(fs[n - 1].entry.base_doc <= g);
            }
        }
    }
}

/// A segment that reads what was made of its files can be searched.
proof fn lemma_readable<'s, 'a>(
    seg: &'s Segment<'a>,
    f: Flushed,
    id: u32,
    first: u32,
    root: Seq<char>,
    files: Seq<FileEntry>,
    cs: Seq<ContentView>,
)
    requires
        made_of(f, id, first, root, files, cs),
        seg@ == read_back(f),
    ensures
        readable(seg),
{
    assert forall|t: Seq<char>| (#[trigger] seg.lookup(t)) matches Some((es, _)) ==> docs_ascend(es)
        && sound(es) by {
        lemma_entry(f, id, first, root, files, cs, t);
        assert(seg.lookup(t) == postings_in(f.idx@, t));
    }
}

/// A document of one segment matches exactly where its file does.
proof fn lemma_global<'s, 'a>(
    seg: &'s Segment<'a>,
    fs: Seq<Flushed>,
    root: Seq<char>,
    files: Seq<FileEntry>,
    cs: Seq<ContentView>,
    base: u32,
    next_id: u32,
    node: Node,
    k: int,
    g: u32,
)
    requires
        cover(fs, root, files, cs, base, next_id, files.len() as int),
        files.len() == cs.len(),
        base + files.len() <= u32::MAX,
        atoms_fit(cs),
        all_storable(fs, cs, base),
        0 <= k < fs.len(),
        seg.wf(),
        seg@ == read_back(fs[k]),
    ensures
        matches_global(seg, node@, g) <==> fs[k].entry.base_doc <= g < fs[k].entry.base_doc
            + fs[k].entry.num_docs && text_matches(content_tokens(cs[g - base]), node@),
        base <= fs[k].entry.base_doc,
        fs[k].entry.base_doc + fs[k].entry.num_docs <= base + files.len(),
        readable(seg),
{
    let e = fs[k].entry;
    let id = (next_id + k) as u32;
    let own = own_contents(fs, cs, base, k);
    let ofiles = own_files(fs, files, base, k);
    lemma_made_of(fs, root, files, cs, base, next_id, k);
    lemma_readable(seg, fs[k], id, e.base_doc, root, ofiles, own);
    if e.base_doc <= g {
        let d = (g - e.base_doc) as u32;
        if matches_doc(seg, node@, d) {
            lemma_matches_live(seg, node, d);
            seg.lemma_bounds();
            assert(seg.length(d) is Some);
        }
        if d < e.num_docs {
            assert(own[d as int] == cs[g - base]);
            lemma_tells(seg@, fs[k], id, e.base_doc, root, ofiles, own, d);
            lemma_matches_text(seg, cs[g - base], node@, d);
        }
    }
}

/// A search over the segments that were made of files finds exactly the files
/// whose text matches the query, under the numbers that the files were given:
/// however they were cut into segments, and whatever was searched for. A term
/// that is too long to be stored is not found.
pub proof fn lemma_finds_matching_files<'s, 'a>(
    parts: Seq<&'s Segment<'a>>,
    fs: Seq<Flushed>,
    root: Seq<char>,
    files: Seq<FileEntry>,
    cs: Seq<ContentView>,
    base: u32,
    next_id: u32,
    dfs: Map<Seq<char>, u32>,
    node: Node,
    g: u32,
)
    requires
        cover(fs, root, files, cs, base, next_id, files.len() as int),
        files.len() == cs.len(),
        base + files.len() <= u32::MAX,
        atoms_fit(cs),
        all_storable(fs, cs, base),
        parts.len() == fs.len(),
        forall|k: int|
            0 <= k < parts.len() ==> (#[trigger] parts[k]).wf() && parts[k]@ == read_back(fs[k]),
    ensures
        hit(index_hits(parts, dfs, node@, parts.len() as int), g) <==> base <= g < base
            + files.len() && text_matches(content_tokens(cs[g - base]), node@),
{
    let n = parts.len() as int;
    assert forall|k: int| 0 <= k < n implies (#[trigger] parts[k]).wf() && readable(parts[k]) by {
        lemma_global(parts[k], fs, root, files, cs, base, next_id, node, k, g);
    }
    assert(ranges_ascend(parts)) by {
        assert forall|k: int, l: int|
            #![trigger parts[k], parts[l]]
            0 <= k < l < n implies parts[k].first() + parts[k].bound() <= parts[l].first() by {
            lemma_one_behind_the_other(fs, root, files, cs, base, next_id, l);
            assert(placed(fs, root, files, cs, base, next_id, l));
            assert(fs[k].entry.base_doc + fs[k].entry.num_docs <= part_start(fs, base, l));
            assert(parts[k]@ == read_back(fs[k]));
            assert(parts[l]@ == read_back(fs[l]));
        }
    }
    lemma_index_hits(parts, dfs, node, n);
    let hs = index_hits(parts, dfs, node@, n);
    assert(hit(hs, g) <==> exists|k: int|
        0 <= k < n && matches_global(#[trigger] parts[k], node@, g));
    if hit(hs, g) {
        let k = choose|k: int| 0 <= k < n && matches_global(#[trigger] parts[k], node@, g);
        lemma_global(parts[k], fs, root, files, cs, base, next_id, node, k, g);
    }
    if base <= g < base + files.len() && text_matches(content_tokens(cs[g - base]), node@) {
        lemma_one_behind_the_other(fs, root, files, cs, base, next_id, n);
        assert(owned(fs, n, g as int));
        let k = choose|k: int|
            0 <= k < n && (#[trigger] fs[k]).entry.base_doc <= g < fs[k].entry.base_doc
                + fs[k].entry.num_docs;
        lemma_global(parts[k], fs, root, files, cs, base, next_id, node, k, g);
        assert(matches_global(parts[k], node@, g));
    }
}

/// Deleting documents takes exactly them out of every answer: whatever else matched
/// a query matches it still, and nothing else does.
pub proof fn lemma_deletion_keeps_answers(
    was: &Segment<'_>,
    now: &Segment<'_>,
    node: Node,
    d: u32,
)
    requires
        now@.idx == was@.idx,
        now@.doc == was@.doc,
        now@.entry.num_docs == was@.entry.num_docs,
        gone(was@, d as int) ==> gone(now@, d as int),
    ensures
        matches_doc(now, node@, d) <==> matches_doc(was, node@, d) && !gone(now@, d as int),
{
    if gone(now@, d as int) {
        if matches_doc(now, node@, d) {
            lemma_matches_live(now, node, d);
        }
    } else {
        assert(now.length(d) == was.length(d));
        assert forall|t: Seq<char>|
            (#[trigger] has_term(now, t, d) <==> has_term(was, t, d)) && (has_term(now, t, d)
                ==> entry_at(now.lookup(t)->Some_0.0, d)->Some_0.positions == entry_at(
                was.lookup(t)->Some_0.0,
                d,
            )->Some_0.positions) by {
            assert(now.lookup(t) == was.lookup(t));
        }
        lemma_same_answers(now, d, was, d, node@);
    }
}

} // verus!
