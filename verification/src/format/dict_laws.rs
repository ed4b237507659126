//! The term dictionary as a whole: what is handed to the writer is what is looked up,
//! iterated over and verified.

use super::envelope::{
    crc32, footer_view, header_view, lemma_damage_shows, lemma_sealed_parses, Kind,
};
use super::idx::{
    all_terms, idx_body, kept, lookup_at, parsed, sparse_offs, sparse_region, term_keys, term_next,
    terms_from, toc_of, verified, write_fault, TermState, TermView, Toc, MAX_TERM_BYTES,
};
use super::idx_laws::{
    file_of, lemma_iteration, lemma_lookup_finds, lemma_lookup_misses, lemma_parses,
    lemma_verifies, term_item, term_state, writable,
};
use super::postings::{decoded_list, entries_of, fits, lemma_list_roundtrip, list_fault};
use super::FormatErrorView;
use crate::order::{bytes_lt, strictly_ascending};
use vstd::prelude::*;
use vstd::utf8::{decode_utf8_encode_utf8, encode_utf8, valid_utf8};

verus! {

/// The terms that are written are those that are not overlong, in their order.
pub proof fn lemma_kept(ts: Seq<TermView>)
    ensures
        strictly_ascending(term_keys(ts)) ==> strictly_ascending(term_keys(kept(ts))),
        forall|i: int|
            #![trigger kept(ts)[i]]
            0 <= i < kept(ts).len() ==> ts.contains(kept(ts)[i]) && kept(ts)[i].term.len()
                <= MAX_TERM_BYTES,
        forall|t: TermView| #[trigger]
            ts.contains(t) && t.term.len() <= MAX_TERM_BYTES ==> kept(ts).contains(t),
    decreases ts.len(),
{
    if ts.len() > 0 {
        let front = ts.drop_last();
        let last = ts.last();
        lemma_kept(front);
        assert(ts =~= front.push(last));
        let k = kept(ts);
        let kf = kept(front);
        assert forall|i: int| #![trigger k[i]] 0 <= i < k.len() implies ts.contains(k[i])
            && k[i].term.len() <= MAX_TERM_BYTES by {
            if i < kf.len() {
                assert(k[i] == kf[i]);
                let j = choose|j: int| 0 <= j < front.len() && front[j] == kf[i];
                assert(ts[j] == k[i]);
            } else {
                assert(ts[ts.len() - 1] == k[i]);
            }
        }
        assert forall|t: TermView| #[trigger]
            ts.contains(t) && t.term.len() <= MAX_TERM_BYTES implies k.contains(t) by {
            let j = choose|j: int| 0 <= j < ts.len() && ts[j] == t;
            if j < front.len() {
                assert(front[j] == t);
                assert(front.contains(t));
                let i = choose|i: int| 0 <= i < kf.len() && kf[i] == t;
                assert(k[i] == t);
            } else {
                assert(k[k.len() - 1] == t);
            }
        }
        if strictly_ascending(term_keys(ts)) {
            assert forall|i: int, j: int| 0 <= i < j < front.len() implies bytes_lt(
                #[trigger] term_keys(front)[i],
                #[trigger] term_keys(front)[j],
            ) by {
                assert(term_keys(front)[i] == term_keys(ts)[i]);
                assert(term_keys(front)[j] == term_keys(ts)[j]);
            }
            assert forall|i: int, j: int| 0 <= i < j < k.len() implies bytes_lt(
                #[trigger] term_keys(k)[i],
                #[trigger] term_keys(k)[j],
            ) by {
                assert(k[i] == kf[i]);
                if j < kf.len() {
                    assert(term_keys(kf)[i] == term_keys(k)[i]);
                    assert(term_keys(kf)[j] == term_keys(k)[j]);
                } else {
                    let a = kf[i];
                    let x = choose|x: int| 0 <= x < front.len() && front[x] == a;
                    assert(term_keys(ts)[x] == k[i].term);
                    assert(term_keys(ts)[ts.len() - 1] == k[j].term);
                }
            }
        }
    }
}

/// The terms from `i` on as an iteration yields them.
pub open spec fn items_from(ks: Seq<TermView>, i: int) -> Seq<(Seq<char>, u32, Seq<u8>)> {
    Seq::new((ks.len() - i) as nat, |k: int| term_item(ks, i + k))
}

/// Iterating from term `i` on yields the terms from there.
pub proof fn lemma_items(ks: Seq<TermView>, i: int)
    requires
        writable(ks),
        0 <= i <= ks.len(),
    ensures
        terms_from(file_of(ks), toc_of(ks), term_state(ks, i)) == Ok::<_, FormatErrorView>(
            items_from(ks, i),
        ),
    decreases ks.len() - i,
{
    lemma_iteration(ks, i);
    if i < ks.len() {
        lemma_items(ks, i + 1);
        assert(seq![term_item(ks, i)] + items_from(ks, i + 1) =~= items_from(ks, i));
    } else {
        assert(items_from(ks, i) =~= Seq::empty());
    }
}

/// Terms that the writer takes: sorted, unique and UTF-8, overlong ones among them, with
/// lists that the encoder accepts, where every number that the file stores fits its field.
pub open spec fn accepted(ts: Seq<TermView>) -> bool {
    &&& strictly_ascending(term_keys(ts))
    &&& write_fault(ts, 0) is None
    &&& forall|i: int| #![trigger ts[i]] 0 <= i < ts.len() ==> valid_utf8(ts[i].term)
    &&& forall|i: int| #![trigger kept(ts)[i]] 0 <= i < kept(ts).len() ==> fits(kept(ts)[i].list)
    &&& sparse_region(kept(ts)).len() <= u32::MAX
    &&& sparse_offs(kept(ts)).len() <= u32::MAX
    &&& file_of(kept(ts)).len() <= usize::MAX
}

proof fn lemma_no_fault(ts: Seq<TermView>, i: int, k: int)
    requires
        0 <= i <= k < ts.len(),
        write_fault(ts, i) is None,
        ts[k].term.len() <= MAX_TERM_BYTES,
    ensures
        list_fault(ts[k].list, 0) is None,
    decreases k - i,
{
    if i < k {
        lemma_no_fault(ts, i + 1, k);
    }
}

proof fn lemma_accepted(ts: Seq<TermView>)
    requires
        accepted(ts),
    ensures
        writable(kept(ts)),
{
    lemma_kept(ts);
    let ks = kept(ts);
    assert forall|i: int| #![trigger ks[i]] 0 <= i < ks.len() implies ks[i].term.len()
        <= MAX_TERM_BYTES && valid_utf8(ks[i].term) && list_fault(ks[i].list, 0) is None && fits(
        ks[i].list,
    ) by {
        let j = choose|j: int| 0 <= j < ts.len() && ts[j] == ks[i];
        assert(valid_utf8(ts[j].term));
        lemma_no_fault(ts, 0, j);
    }
}

/// Term `i` is this string, and short enough to be written.
pub open spec fn is_stored(ts: Seq<TermView>, i: int, term: Seq<u8>) -> bool {
    0 <= i < ts.len() && ts[i].term == term && term.len() <= MAX_TERM_BYTES
}

/// Looking a string up in a written file finds the list of the term that it is, with
/// its document count and its postings in order, and nothing where it is no term or an
/// overlong one.
pub proof fn lemma_lookup_is_exact(ts: Seq<TermView>, term: Seq<u8>)
    requires
        accepted(ts),
    ensures
        ({
            let f = file_of(kept(ts));
            let t = toc_of(kept(ts));
            &&& parsed(f) == Ok::<_, FormatErrorView>((crc32(idx_body(kept(ts))), t))
            &&& match lookup_at(f, t, term) {
                Ok(Some((data, df))) => exists|i: int| #[trigger]
                    is_stored(ts, i, term) && df == ts[i].list.len() && decoded_list(data)
                        == entries_of(ts[i].list),
                Ok(None) => forall|i: int| !#[trigger] is_stored(ts, i, term),
                Err(_) => false,
            }
        }),
{
    lemma_accepted(ts);
    lemma_kept(ts);
    let ks = kept(ts);
    lemma_parses(ks);
    if exists|j: int| 0 <= j < ks.len() && (#[trigger] ks[j]).term == term {
        let j = choose|j: int| 0 <= j < ks.len() && (#[trigger] ks[j]).term == term;
        lemma_lookup_finds(ks, j);
        assert(ts.contains(ks[j]));
        let i = choose|i: int| 0 <= i < ts.len() && ts[i] == ks[j];
        assert(is_stored(ts, i, term));
    } else {
        lemma_lookup_misses(ks, term);
        assert forall|i: int| !#[trigger] is_stored(ts, i, term) by {
            if is_stored(ts, i, term) {
                assert(ts.contains(ts[i]));
                assert(ks.contains(ts[i]));
                let j = choose|j: int| 0 <= j < ks.len() && ks[j] == ts[i];
                assert(ks[j].term == term);
            }
        }
    }
}

/// The byte strings of the items.
pub open spec fn item_keys(items: Seq<(Seq<char>, u32, Seq<u8>)>) -> Seq<Seq<u8>> {
    Seq::new(items.len(), |k: int| encode_utf8(items[k].0))
}

/// The items are the terms that are short enough, each once and in ascending order of
/// bytes, with their document counts and their postings.
pub open spec fn lists_terms(items: Seq<(Seq<char>, u32, Seq<u8>)>, ts: Seq<TermView>) -> bool {
    &&& strictly_ascending(item_keys(items))
    &&& forall|k: int| 0 <= k < items.len() ==> is_some_item(#[trigger] items[k], ts)
    &&& forall|i: int|
        0 <= i < ts.len() && (#[trigger] ts[i]).term.len() <= MAX_TERM_BYTES ==> exists|k: int|
            0 <= k < items.len() && is_item(#[trigger] items[k], ts, i)
}

/// The item is term `i`, with its document count and its postings.
pub open spec fn is_item(item: (Seq<char>, u32, Seq<u8>), ts: Seq<TermView>, i: int) -> bool {
    &&& is_stored(ts, i, encode_utf8(item.0))
    &&& item.1 == ts[i].list.len()
    &&& decoded_list(item.2) == entries_of(ts[i].list)
}

/// The item is one of the terms.
pub open spec fn is_some_item(item: (Seq<char>, u32, Seq<u8>), ts: Seq<TermView>) -> bool {
    exists|i: int| #[trigger] is_item(item, ts, i)
}

proof fn lemma_item(ts: Seq<TermView>, k: int, i: int)
    requires
        writable(kept(ts)),
        0 <= k < kept(ts).len(),
        0 <= i < ts.len(),
        ts[i] == kept(ts)[k],
    ensures
        is_item(term_item(kept(ts), k), ts, i),
        encode_utf8(term_item(kept(ts), k).0) == kept(ts)[k].term,
{
    let ks = kept(ts);
    assert(ks[k].term.len() <= MAX_TERM_BYTES && fits(ks[k].list));
    decode_utf8_encode_utf8(ks[k].term);
    lemma_list_roundtrip(ks[k].list);
}

proof fn lemma_items_list_terms(ts: Seq<TermView>)
    requires
        writable(kept(ts)),
    ensures
        lists_terms(items_from(kept(ts), 0), ts),
{
    lemma_kept(ts);
    let ks = kept(ts);
    let items = items_from(ks, 0);
    let keys = item_keys(items);
    assert forall|k: int| 0 <= k < items.len() implies is_some_item(#[trigger] items[k], ts) by {
        assert(ts.contains(ks[k]));
        let i = choose|i: int| 0 <= i < ts.len() && ts[i] == ks[k];
        lemma_item(ts, k, i);
        assert(is_item(items[k], ts, i));
    }
    assert forall|k: int| 0 <= k < items.len() implies #[trigger] keys[k] == term_keys(ks)[k] by {
        assert(ts.contains(ks[k]));
        let i = choose|i: int| 0 <= i < ts.len() && ts[i] == ks[k];
        lemma_item(ts, k, i);
    }
    assert(keys =~= term_keys(ks));
    assert forall|i: int|
        0 <= i < ts.len() && (#[trigger] ts[i]).term.len() <= MAX_TERM_BYTES implies exists|k: int|
        0 <= k < items.len() && is_item(#[trigger] items[k], ts, i) by {
        assert(ts.contains(ts[i]));
        assert(ks.contains(ts[i]));
        let k = choose|k: int| 0 <= k < ks.len() && ks[k] == ts[i];
        lemma_item(ts, k, i);
        assert(is_item(items[k], ts, i));
    }
}

/// Iterating over a written file yields each term that is short enough once, in
/// ascending order of bytes, with its document count and its postings.
pub proof fn lemma_iteration_is_exact(ts: Seq<TermView>)
    requires
        accepted(ts),
    ensures
        all_terms(file_of(kept(ts)), toc_of(kept(ts))) matches Ok(items) && lists_terms(items, ts),
{
    lemma_accepted(ts);
    lemma_items(kept(ts), 0);
    lemma_items_list_terms(ts);
    assert(term_state(kept(ts), 0) == (TermState { block: 0, scan: None }));
}

/// An iteration that has ended stays at its end.
pub proof fn lemma_iteration_stays_ended(s: Seq<u8>, t: Toc)
    ensures
        term_next(s, t, (TermState { block: t.num_blocks as int, scan: None })) matches Ok(None),
{
}

/// A written file passes the full check. One in which the body was replaced by another
/// of the same length, and which still parses, fails it by its checksum wherever the
/// checksums of the two bodies differ.
pub proof fn lemma_verify_is_exact(ts: Seq<TermView>, other: Seq<u8>, t: Toc)
    requires
        accepted(ts),
        other.len() == idx_body(kept(ts)).len(),
        crc32(other) != crc32(idx_body(kept(ts))),
    ensures
        ({
            let body = idx_body(kept(ts));
            let s = header_view(Kind::Idx) + other + footer_view(body.len() as u64, crc32(body));
            &&& verified(file_of(kept(ts)), toc_of(kept(ts)), crc32(body)) is Ok
            &&& parsed(s) matches Ok((stored, _)) ==> stored == crc32(body)
            &&& verified(s, t, crc32(body)) == Err::<(), _>(
                FormatErrorView::Checksum { stored: crc32(body), computed: crc32(other) },
            )
        }),
{
    lemma_accepted(ts);
    let body = idx_body(kept(ts));
    lemma_verifies(kept(ts));
    reveal(file_of);
    lemma_sealed_parses(Kind::Idx, body);
    lemma_damage_shows(Kind::Idx, body, other);
}

} // verus!
