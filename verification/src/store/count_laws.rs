//! What scores are computed from: how often a term occurs in a file, in how many files, and
//! how long the files are.

use vstd::prelude::*;
use vstd::utf8::{encode_utf8, encode_utf8_decode_utf8, encode_utf8_valid_utf8, valid_utf8};

use super::flush::{indexed_docs, local_id, rebased, Flushed};
use super::flush_laws::{lemma_docs_read_back, lemma_finds_what_was_indexed, read_back};
use super::search_laws::{
    lemma_lists, lemma_occurrences, lemma_sorted, made_of, places, stored, text_has,
};
use super::segment::{live_len, postings_in};
use crate::crawler::FileEntry;
use crate::format::postings::entries_of;
use crate::index::builder::{
    content_tokens, decoded_text, doc_of, lemma_shard_bounds, occurrences, outcome_of, outcomes_of,
    shard_terms, shard_tokens, skipped_count, table_of, xxh3, ContentView,
};
use crate::index::memory::list_at;
use crate::index::{DocStatus, MemIndex, SegmentReader};
use crate::query::exec::{entry_at, lemma_entry_at};
use crate::query::laws::has_term;
use crate::tokenizer::{text_atoms, text_tokens, TokenView};

verus! {

/// A text as it is indexed: without a byte order mark.
pub open spec fn without_mark(s: Seq<char>) -> Seq<char> {
    if s.len() > 0 && s[0] as u32 == 0xfeff {
        s.subrange(1, s.len() as int)
    } else {
        s
    }
}

/// The bytes of any text are indexed as that text, all of it, under the number of its atoms.
pub proof fn lemma_text_is_indexed(s: Seq<char>)
    ensures
        content_tokens(ContentView::Bytes(encode_utf8(s))) == text_tokens(without_mark(s), true),
        outcome_of(ContentView::Bytes(encode_utf8(s))).status == DocStatus::Indexed,
        outcome_of(ContentView::Bytes(encode_utf8(s))).len == text_atoms(
            without_mark(s),
        ).len() as u32,
        outcome_of(ContentView::Bytes(encode_utf8(s))).content_hash == xxh3(encode_utf8(s)),
{
    encode_utf8_valid_utf8(s);
    encode_utf8_decode_utf8(s);
    if s.len() > 0 {
        assert(s.drop_first() =~= s.subrange(1, s.len() as int));
    }
}

/// What is no text, or was not read, adds no token and has no length; bytes that were read are
/// known by their hash.
pub proof fn lemma_other_files_add_nothing(c: ContentView)
    requires
        c matches ContentView::Bytes(b) ==> !valid_utf8(b),
    ensures
        content_tokens(c).len() == 0,
        outcome_of(c).len == 0,
        outcome_of(c).status == match c {
            ContentView::Binary => DocStatus::Binary,
            ContentView::TooLarge => DocStatus::TooLarge,
            _ => DocStatus::Skipped,
        },
        outcome_of(c).content_hash == match c {
            ContentView::Bytes(b) => xxh3(b),
            _ => 0,
        },
{
}

/// The tokens with the term.
pub open spec fn tokens_with(ts: Seq<TokenView>, t: Seq<char>) -> Set<int> {
    Set::new(|i: int| 0 <= i < ts.len() && ts[i].term == t)
}

proof fn lemma_occurrence_count(ts: Seq<TokenView>, n: int, t: Seq<char>)
    requires
        0 <= n <= ts.len(),
    ensures
        tokens_with(ts.take(n), t).finite(),
        tokens_with(ts.take(n), t).len() == occurrences(ts, n, t).len(),
    decreases n,
{
    let now = tokens_with(ts.take(n), t);
    if n > 0 {
        lemma_occurrence_count(ts, n - 1, t);
        let before = tokens_with(ts.take(n - 1), t);
        if ts[n - 1].term == t {
            assert(now =~= before.insert(n - 1));
        } else {
            assert(now =~= before);
        }
    } else {
        assert(now =~= Set::empty());
    }
}

/// The files that have the term.
pub open spec fn files_with(cs: Seq<ContentView>, t: Seq<char>) -> Set<int> {
    Set::new(|d: int| 0 <= d < cs.len() && text_has(content_tokens(cs[d]), t))
}

/// Terms of up to 512 bytes are stored, and longer ones are not.
pub proof fn lemma_stored(t: Seq<char>)
    ensures
        stored(t) <==> encode_utf8(t).len() <= 512,
{
}

/// A segment says of a term how often it occurs in each file, and in how many files it does.
pub proof fn lemma_term_counts(
    f: Flushed,
    id: u32,
    first: u32,
    root: Seq<char>,
    files: Seq<FileEntry>,
    cs: Seq<ContentView>,
    t: Seq<char>,
)
    requires
        made_of(f, id, first, root, files, cs),
        stored(t),
    ensures
        match postings_in(f.idx@, t) {
            Some((es, df)) => {
                &&& files_with(cs, t).finite()
                &&& df == files_with(cs, t).len()
                &&& es.len() == df
                &&& forall|k: int|
                    0 <= k < es.len() ==> (#[trigger] es[k]).doc < cs.len() && es[k].tf
                        == tokens_with(content_tokens(cs[es[k].doc as int]), t).len() as u32
            },
            None => files_with(cs, t) == Set::<int>::empty(),
        },
{
    let n = cs.len() as int;
    let m = shard_terms(first as int, cs, n);
    let docs = indexed_docs(files, outcomes_of(cs));
    lemma_shard_bounds(first as int, cs, n);
    lemma_sorted(first as int, cs, n);
    lemma_finds_what_was_indexed(f, id, first, m, docs, root, t);
    lemma_lists(first as int, cs, n, t);
    let l = list_at(m, t);
    let all = files_with(cs, t);
    assert forall|d: int| 0 <= d < n implies (text_has(content_tokens(#[trigger] cs[d]), t)
        <==> places(cs[d], t).len() > 0) by {
        let ts = content_tokens(cs[d]);
        lemma_occurrences(ts, ts.len() as int, t);
    }
    let ids = Seq::new(l.len(), |j: int| l[j].0 - first as int);
    assert forall|i: int, j: int| 0 <= i < j < ids.len() implies ids[i] != ids[j] by {
        assert(l[i].0 < l[j].0);
    }
    ids.unique_seq_to_set();
    vstd::seq_lib::seq_to_set_is_finite(ids);
    assert(all =~= ids.to_set()) by {
        assert forall|d: int| all.contains(d) implies ids.contains(d) by {
            assert(places(cs[d], t).len() > 0);
            let j = choose|j: int| 0 <= j < l.len() && (#[trigger] l[j]).0 == first + d;
            assert(ids[j] == d);
        }
        assert forall|d: int| ids.contains(d) implies all.contains(d) by {
            let j = choose|j: int| 0 <= j < ids.len() && ids[j] == d;
            assert(first <= l[j].0 < first + n);
            assert(places(cs[d], t).len() > 0);
        }
    }
    if m.contains_key(t) {
        let es = entries_of(rebased(l, first));
        assert(postings_in(f.idx@, t) == Some((es, l.len() as u32)));
        assert(l.len() <= u32::MAX) by {
            if l.len() > 0 {
                lemma_ascending_count(l, first as int, l.len() - 1);
                assert(l[l.len() - 1].0 < first + n);
            }
        }
        assert forall|k: int| 0 <= k < es.len() implies (#[trigger] es[k]).doc < cs.len()
            && es[k].tf == tokens_with(content_tokens(cs[es[k].doc as int]), t).len() as u32 by {
            assert(first <= l[k].0 < first + n);
            assert(rebased(l, first)[k] == (local_id(l[k].0, first), l[k].1));
            let ts = content_tokens(cs[es[k].doc as int]);
            assert(ts.take(ts.len() as int) =~= ts);
            lemma_occurrence_count(ts, ts.len() as int, t);
        }
    } else {
        assert(all =~= Set::<int>::empty());
    }
}

proof fn lemma_ascending_count(l: Seq<(u32, Seq<u32>)>, first: int, k: int)
    requires
        0 <= k < l.len(),
        forall|j: int| 0 <= j < l.len() ==> first <= (#[trigger] l[j]).0,
        forall|i: int, j: int|
            0 <= i < j < l.len() ==> (#[trigger] l[i]).0 < (#[trigger] l[j]).0,
    ensures
        first + k <= l[k].0,
    decreases k,
{
    if k > 0 {
        lemma_ascending_count(l, first, k - 1);
        assert(l[k - 1].0 < l[k].0);
    }
}

/// The length of a document is the number of atoms of the text that was read, and only
/// documents of texts have one.
pub proof fn lemma_lengths(
    f: Flushed,
    id: u32,
    first: u32,
    root: Seq<char>,
    files: Seq<FileEntry>,
    cs: Seq<ContentView>,
    d: u32,
)
    requires
        made_of(f, id, first, root, files, cs),
        d < cs.len(),
    ensures
        live_len(read_back(f), d) == match cs[d as int] {
            ContentView::Bytes(b) => match decoded_text(b) {
                Some(t) => Some(text_atoms(t).len() as u32),
                None => None,
            },
            _ => None,
        },
{
    let n = cs.len() as int;
    let m = shard_terms(first as int, cs, n);
    let docs = indexed_docs(files, outcomes_of(cs));
    assert(f.doc@.len() == f.doc.len());
    lemma_docs_read_back(f, id, first, m, docs, root, root, d);
    assert(docs[d as int].status == outcome_of(cs[d as int]).status);
}

/// A token of the file has the term.
pub open spec fn has_token(c: ContentView, t: Seq<char>) -> bool {
    exists|i: int| 0 <= i < content_tokens(c).len() && (#[trigger] content_tokens(c)[i]).term == t
}

/// The list of a term has the files with a token of it, each once and in order, and of each the
/// positions of these tokens.
pub proof fn lemma_lists_are_of_texts(first: int, cs: Seq<ContentView>, t: Seq<char>)
    requires
        0 <= first,
        first + cs.len() <= u32::MAX,
    ensures
        ({
            let m = shard_terms(first, cs, cs.len() as int);
            let l = m[t];
            &&& m.contains_key(t) <==> exists|d: int|
                0 <= d < cs.len() && has_token(#[trigger] cs[d], t)
            &&& m.contains_key(t) ==> {
                &&& forall|j: int|
                    0 <= j < l.len() ==> first <= (#[trigger] l[j]).0 < first + cs.len()
                &&& forall|i: int, j: int|
                    0 <= i < j < l.len() ==> (#[trigger] l[i]).0 < (#[trigger] l[j]).0
                &&& forall|d: int|
                    0 <= d < cs.len() ==> (has_token(#[trigger] cs[d], t) <==> exists|j: int|
                        0 <= j < l.len() && (#[trigger] l[j]).0 == first + d)
                &&& forall|j: int, p: u32|
                    #![trigger l[j].1.contains(p)]
                    0 <= j < l.len() ==> (l[j].1.contains(p) <==> exists|i: int|
                        0 <= i < content_tokens(cs[l[j].0 - first]).len() && (
                        #[trigger] content_tokens(cs[l[j].0 - first])[i]).term == t
                            && content_tokens(cs[l[j].0 - first])[i].position == p)
            }
        }),
{
    let n = cs.len() as int;
    let m = shard_terms(first, cs, n);
    lemma_lists(first, cs, n, t);
    let l = list_at(m, t);
    assert forall|d: int| 0 <= d < n implies (has_token(#[trigger] cs[d], t) <==> places(
        cs[d],
        t,
    ).len() > 0) by {
        let ts = content_tokens(cs[d]);
        lemma_occurrences(ts, ts.len() as int, t);
    }
    if m.contains_key(t) {
        assert(l == m[t]);
        assert(has_token(cs[l[0].0 - first], t));
        assert forall|d: int| 0 <= d < n implies (has_token(#[trigger] cs[d], t) <==> exists|j: int|
            0 <= j < l.len() && (#[trigger] l[j]).0 == first + d) by {
            if exists|j: int| 0 <= j < l.len() && (#[trigger] l[j]).0 == first + d {
                let j = choose|j: int| 0 <= j < l.len() && (#[trigger] l[j]).0 == first + d;
                assert(l[j].1.len() > 0);
            }
        }
        assert forall|j: int, p: u32|
            #![trigger l[j].1.contains(p)]
            0 <= j < l.len() implies (l[j].1.contains(p) <==> exists|i: int|
            0 <= i < content_tokens(cs[l[j].0 - first]).len() && (#[trigger] content_tokens(
                cs[l[j].0 - first],
            )[i]).term == t && content_tokens(cs[l[j].0 - first])[i].position == p) by {
            let ts = content_tokens(cs[l[j].0 - first]);
            lemma_occurrences(ts, ts.len() as int, t);
            assert(l[j].1 == occurrences(ts, ts.len() as int, t));
        }
    } else if exists|d: int| 0 <= d < n && has_token(#[trigger] cs[d], t) {
        let d = choose|d: int| 0 <= d < n && has_token(#[trigger] cs[d], t);
        let j = choose|j: int| 0 <= j < l.len() && (#[trigger] l[j]).0 == first + d;
    }
}

/// The files among the first `n` that were not indexed.
pub open spec fn left_out(cs: Seq<ContentView>, n: int) -> Set<int> {
    Set::new(|i: int| 0 <= i < n && outcome_of(cs[i]).status != DocStatus::Indexed)
}

/// A build counts the files that it did not index, and the tokens of all others.
pub proof fn lemma_build_counts(cs: Seq<ContentView>, n: int)
    requires
        0 <= n <= cs.len(),
    ensures
        left_out(cs, n).finite(),
        skipped_count(cs, n) == left_out(cs, n).len(),
        shard_tokens(cs, n) == cs.take(n).fold_left(
            0int,
            |a: int, c: ContentView| a + content_tokens(c).len(),
        ),
    decreases n,
{
    let now = left_out(cs, n);
    if n > 0 {
        lemma_build_counts(cs, n - 1);
        assert(cs.take(n).drop_last() =~= cs.take(n - 1));
        assert(cs.take(n).last() == cs[n - 1]);
        if outcome_of(cs[n - 1]).status != DocStatus::Indexed {
            assert(now =~= left_out(cs, n - 1).insert(n - 1));
        } else {
            assert(now =~= left_out(cs, n - 1));
        }
    } else {
        assert(now =~= Set::empty());
        assert(cs.take(n) =~= Seq::empty());
    }
}

/// An index in memory lists a term for exactly the documents whose texts have it, with the
/// positions of its tokens, as often as it occurs, and has the lengths of the texts.
pub proof fn lemma_memory_terms(
    index: &MemIndex,
    files: Seq<FileEntry>,
    cs: Seq<ContentView>,
    t: Seq<char>,
    d: u32,
)
    requires
        files.len() == cs.len(),
        cs.len() <= u32::MAX,
        index.table() == table_of(files, cs),
        index.lists() == shard_terms(0, cs, cs.len() as int),
        d < cs.len(),
    ensures
        has_term(index, t, d) <==> has_token(cs[d as int], t),
        has_term(index, t, d) ==> ({
            let ts = content_tokens(cs[d as int]);
            let e = entry_at(index.lookup(t)->Some_0.0, d)->Some_0;
            &&& e.doc == d
            &&& e.tf == tokens_with(ts, t).len() as u32
            &&& e.positions matches Some(ps) && forall|p: u32| #[trigger]
                ps.contains(p) <==> exists|i: int|
                    0 <= i < ts.len() && (#[trigger] ts[i]).term == t && ts[i].position == p
        }),
        index.length(d) == match cs[d as int] {
            ContentView::Bytes(b) => match decoded_text(b) {
                Some(t) => Some(text_atoms(t).len() as u32),
                None => None,
            },
            _ => None,
        },
{
    let n = cs.len() as int;
    let m = shard_terms(0, cs, n);
    let c = cs[d as int];
    let ts = content_tokens(c);
    lemma_lists(0, cs, n, t);
    lemma_lists_are_of_texts(0, cs, t);
    let table = table_of(files, cs);
    assert(table[d as int] == Some(doc_of(files[d as int], outcome_of(c))));
    if m.contains_key(t) {
        let l = m[t];
        let es = entries_of(l);
        assert(index.lookup(t) == Some((es, l.len() as u32)));
        assert(l == list_at(m, t));
        lemma_entry_at(es, d);
        if has_token(c, t) {
            let j = choose|j: int| 0 <= j < l.len() && (#[trigger] l[j]).0 == 0 + d as int;
            assert(es[j].doc == d);
        }
        if entry_at(es, d) is Some {
            let e = entry_at(es, d)->Some_0;
            let j = choose|j: int| 0 <= j < es.len() && #[trigger] es[j] == e;
            assert(l[j].0 == d);
            assert(l[j].1 == places(c, t));
            assert(ts.take(ts.len() as int) =~= ts);
            lemma_occurrence_count(ts, ts.len() as int, t);
            lemma_occurrences(ts, ts.len() as int, t);
        }
    }
}

} // verus!
