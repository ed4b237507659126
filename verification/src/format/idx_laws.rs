//! What reading a written term dictionary gives back.

use super::envelope::{
    body_of, crc32, footer_view, header_view, lemma_envelope_lens, lemma_sealed_parses, sealed,
    Kind, FOOTER_LEN, HEADER_LEN,
};
use super::idx::{
    block_at, block_search, block_terms, blocks_from, dict_end, dict_entry, dict_region,
    entries_checked, find_from, front_coded, idx_body, lookup_at, next_at, parsed, postings_in,
    postings_region, prev_term, scan_end, sparse_at, sparse_entry, sparse_offs, sparse_region,
    start_tally, term_keys, term_next, tiles, toc_bytes, toc_in, toc_of, u32s_bytes, verified,
    DictEntry, Scan, TallyView, TermState, TermView, Toc, BLOCK_SIZE, MAX_TERM_BYTES, TOC_LEN,
};
use super::postings::{
    decoded_list, entries_of, fits, lemma_list_bytes_len, lemma_list_roundtrip, list_bytes,
    list_fault,
};
use super::varint::{leb128, lemma_leb128_len, lemma_varint_roundtrip, varint32_at, varint_at};
use super::{holds, lemma_holds_concat, slice_view, u32_at, FormatErrorView};
use crate::order::{
    bytes_le, bytes_lt, common_len, lemma_common_len, lemma_irreflexive, lemma_total,
    lemma_transitive, strictly_ascending,
};
use vstd::bytes::{
    lemma_auto_spec_u32_to_from_le_bytes, lemma_auto_spec_u64_to_from_le_bytes,
    spec_u32_to_le_bytes, spec_u64_to_le_bytes,
};
use vstd::prelude::*;
use vstd::utf8::{decode_utf8, valid_utf8};

verus! {

/// The file written for these terms.
#[verifier::opaque]
pub open spec fn file_of(ts: Seq<TermView>) -> Seq<u8> {
    sealed(Kind::Idx, idx_body(ts))
}

/// Terms as they are written: sorted, unique, short enough, UTF-8, with lists
/// that the encoder accepts, and a file in which every stored offset fits.
pub open spec fn writable(ts: Seq<TermView>) -> bool {
    &&& strictly_ascending(term_keys(ts))
    &&& forall|i: int|
        #![trigger ts[i]]
        0 <= i < ts.len() ==> ts[i].term.len() <= MAX_TERM_BYTES && valid_utf8(ts[i].term)
            && list_fault(ts[i].list, 0) is None && fits(ts[i].list)
    &&& sparse_region(ts).len() <= u32::MAX
    &&& sparse_offs(ts).len() <= u32::MAX
    &&& file_of(ts).len() <= usize::MAX
}

proof fn lemma_region(r: spec_fn(int) -> Seq<u8>, piece: spec_fn(int) -> Seq<u8>, i: int, n: int)
    requires
        0 <= i < n,
        forall|k: int| 0 <= k < n ==> r(k + 1) == r(k) + #[trigger] piece(k),
    ensures
        holds(r(n), r(i).len() as int, piece(i)),
    decreases n - i,
{
    if i == n - 1 {
        let p = piece(n - 1);
        assert(r(n).subrange(r(i).len() as int, (r(i).len() + p.len()) as int) =~= p);
    } else {
        lemma_region(r, piece, i, n - 1);
        let p = piece(n - 1);
        let at = r(i).len() as int;
        let q = piece(i);
        assert(r(n).subrange(at, at + q.len()) =~= r(n - 1).subrange(at, at + q.len()));
    }
}

proof fn lemma_postings_piece(ts: Seq<TermView>, i: int)
    requires
        0 <= i < ts.len(),
    ensures
        holds(
            postings_region(ts),
            postings_region(ts.take(i)).len() as int,
            list_bytes(ts[i].list),
        ),
        postings_region(ts.take(i + 1)) == postings_region(ts.take(i)) + list_bytes(ts[i].list),
{
    let r = |k: int| postings_region(ts.take(k));
    let piece = |k: int| list_bytes(ts[k].list);
    assert forall|k: int| 0 <= k < ts.len() implies r(k + 1) == r(k) + #[trigger] piece(k) by {
        assert(ts.take(k + 1).drop_last() =~= ts.take(k));
    }
    lemma_region(r, piece, i, ts.len() as int);
    assert(ts.take(ts.len() as int) =~= ts);
    let x = piece(i);
}

proof fn lemma_dict_piece(ts: Seq<TermView>, i: int)
    requires
        0 <= i < ts.len(),
    ensures
        holds(
            dict_region(ts),
            dict_region(ts.take(i)).len() as int,
            dict_entry(ts.take(i), ts[i]),
        ),
        dict_region(ts.take(i + 1)) == dict_region(ts.take(i)) + dict_entry(ts.take(i), ts[i]),
{
    let r = |k: int| dict_region(ts.take(k));
    let piece = |k: int| dict_entry(ts.take(k), ts[k]);
    assert forall|k: int| 0 <= k < ts.len() implies r(k + 1) == r(k) + #[trigger] piece(k) by {
        assert(ts.take(k + 1).drop_last() =~= ts.take(k));
    }
    lemma_region(r, piece, i, ts.len() as int);
    assert(ts.take(ts.len() as int) =~= ts);
    let x = piece(i);
}

proof fn lemma_sparse_piece(ts: Seq<TermView>, i: int)
    requires
        0 <= i < ts.len(),
        i % 64 == 0,
    ensures
        holds(
            sparse_region(ts),
            sparse_region(ts.take(i)).len() as int,
            sparse_entry(ts.take(i), ts[i]),
        ),
{
    let r = |k: int| sparse_region(ts.take(k));
    let piece = |k: int|
        if k % 64 == 0 {
            sparse_entry(ts.take(k), ts[k])
        } else {
            Seq::empty()
        };
    assert forall|k: int| 0 <= k < ts.len() implies r(k + 1) == r(k) + #[trigger] piece(k) by {
        assert(ts.take(k + 1).drop_last() =~= ts.take(k));
        assert(ts.take(k).len() == k);
        assert(r(k) + Seq::<u8>::empty() =~= r(k));
    }
    lemma_region(r, piece, i, ts.len() as int);
    assert(ts.take(ts.len() as int) =~= ts);
}

proof fn lemma_offs(ts: Seq<TermView>, b: int)
    ensures
        sparse_offs(ts).len() == (ts.len() + 63) / 64,
        0 <= b && 64 * b < ts.len() ==> sparse_offs(ts)[b] == sparse_region(ts.take(64 * b)).len()
            as u32,
    decreases ts.len(),
{
    if ts.len() > 0 {
        let front = ts.drop_last();
        lemma_offs(front, b);
        if 0 <= b && 64 * b < ts.len() {
            if 64 * b < front.len() {
                assert(front.take(64 * b) =~= ts.take(64 * b));
            } else {
                assert(ts.take(64 * b) =~= front);
            }
        }
    }
}

proof fn lemma_u32s(v: Seq<u32>, b: int)
    ensures
        u32s_bytes(v).len() == 4 * v.len(),
        0 <= b < v.len() ==> u32_at(u32s_bytes(v), 4 * b) == v[b],
    decreases v.len(),
{
    lemma_auto_spec_u32_to_from_le_bytes();
    if v.len() > 0 {
        lemma_u32s(v.drop_last(), b);
        let a = u32s_bytes(v.drop_last());
        let w = u32s_bytes(v);
        if 0 <= b < v.len() - 1 {
            assert(w.subrange(4 * b, 4 * b + 4) =~= a.subrange(4 * b, 4 * b + 4));
        } else if b == v.len() - 1 {
            assert(w.subrange(4 * b, 4 * b + 4) =~= spec_u32_to_le_bytes(v[b]));
        }
    }
}

proof fn lemma_toc_in(s: Seq<u8>, at: int, t: Toc)
    requires
        holds(s, at, toc_bytes(t)),
    ensures
        toc_in(s, at) == t,
{
    lemma_auto_spec_u32_to_from_le_bytes();
    lemma_auto_spec_u64_to_from_le_bytes();
    let w = toc_bytes(t);
    assert(w.len() == TOC_LEN);
    assert(s.subrange(at, at + 8) =~= w.subrange(0, 8));
    assert(w.subrange(0, 8) =~= spec_u64_to_le_bytes(t.postings_off));
    assert(s.subrange(at + 8, at + 16) =~= w.subrange(8, 16));
    assert(w.subrange(8, 16) =~= spec_u64_to_le_bytes(t.postings_len));
    assert(s.subrange(at + 16, at + 24) =~= w.subrange(16, 24));
    assert(w.subrange(16, 24) =~= spec_u64_to_le_bytes(t.dict_off));
    assert(s.subrange(at + 24, at + 32) =~= w.subrange(24, 32));
    assert(w.subrange(24, 32) =~= spec_u64_to_le_bytes(t.dict_len));
    assert(s.subrange(at + 32, at + 40) =~= w.subrange(32, 40));
    assert(w.subrange(32, 40) =~= spec_u64_to_le_bytes(t.sparse_off));
    assert(s.subrange(at + 40, at + 48) =~= w.subrange(40, 48));
    assert(w.subrange(40, 48) =~= spec_u64_to_le_bytes(t.sparse_len));
    assert(s.subrange(at + 48, at + 56) =~= w.subrange(48, 56));
    assert(w.subrange(48, 56) =~= spec_u64_to_le_bytes(t.num_terms));
    assert(s.subrange(at + 56, at + 60) =~= w.subrange(56, 60));
    assert(w.subrange(56, 60) =~= spec_u32_to_le_bytes(t.num_blocks));
    assert(s.subrange(at + 60, at + 64) =~= w.subrange(60, 64));
    assert(w.subrange(60, 64) =~= spec_u32_to_le_bytes(t.block_size));
}

proof fn lemma_toc_len(t: Toc)
    ensures
        toc_bytes(t).len() == TOC_LEN,
{
    lemma_auto_spec_u32_to_from_le_bytes();
    lemma_auto_spec_u64_to_from_le_bytes();
}

/// Offsets of the regions.
spec fn dict_off(ts: Seq<TermView>) -> int {
    HEADER_LEN + postings_region(ts).len()
}

spec fn sparse_off(ts: Seq<TermView>) -> int {
    dict_off(ts) + dict_region(ts).len()
}

spec fn entries_off(ts: Seq<TermView>) -> int {
    sparse_off(ts) + u32s_bytes(sparse_offs(ts)).len()
}

spec fn toc_off(ts: Seq<TermView>) -> int {
    entries_off(ts) + sparse_region(ts).len()
}

proof fn lemma_layout(ts: Seq<TermView>)
    ensures
        ({
            let f = file_of(ts);
            &&& holds(f, HEADER_LEN as int, postings_region(ts))
            &&& holds(f, dict_off(ts), dict_region(ts))
            &&& holds(f, sparse_off(ts), u32s_bytes(sparse_offs(ts)))
            &&& holds(f, entries_off(ts), sparse_region(ts))
            &&& holds(f, toc_off(ts), toc_bytes(toc_of(ts)))
            &&& f.len() == toc_off(ts) + TOC_LEN + FOOTER_LEN
        }),
{
    reveal(file_of);
    let f = file_of(ts);
    let h = header_view(Kind::Idx);
    let p = postings_region(ts);
    let d = dict_region(ts);
    let o = u32s_bytes(sparse_offs(ts));
    let x = sparse_region(ts);
    let t = toc_bytes(toc_of(ts));
    let body = idx_body(ts);
    let foot = footer_view(body.len() as u64, crc32(body));
    lemma_envelope_lens(Kind::Idx, body.len() as u64, crc32(body));
    lemma_toc_len(toc_of(ts));
    assert(holds(f, 0, h + body + foot)) by {
        assert(f.subrange(0, f.len() as int) =~= f);
    }
    lemma_holds_concat(f, 0, h + body, foot);
    lemma_holds_concat(f, 0, h, body);
    lemma_holds_concat(f, HEADER_LEN as int, p + d + (o + x), t);
    lemma_holds_concat(f, HEADER_LEN as int, p + d, o + x);
    lemma_holds_concat(f, HEADER_LEN as int, p, d);
    lemma_holds_concat(f, sparse_off(ts), o, x);
}

/// Reading a written file finds its regions.
pub proof fn lemma_parses(ts: Seq<TermView>)
    requires
        writable(ts),
    ensures
        parsed(file_of(ts)) == Ok::<_, FormatErrorView>((crc32(idx_body(ts)), toc_of(ts))),
        tiles(toc_of(ts), file_of(ts).len()),
{
    reveal(file_of);
    let f = file_of(ts);
    lemma_layout(ts);
    lemma_sealed_parses(Kind::Idx, idx_body(ts));
    lemma_toc_in(f, toc_off(ts), toc_of(ts));
    lemma_offs(ts, -1);
    lemma_u32s(sparse_offs(ts), -1);
    lemma_terms_len(ts, ts.len() as int);
    assert(ts.take(ts.len() as int) =~= ts);
}

proof fn lemma_terms_len(ts: Seq<TermView>, n: int)
    requires
        0 <= n <= ts.len(),
    ensures
        postings_region(ts.take(n)).len() >= n,
        postings_region(ts.take(n)).len() <= postings_region(ts).len(),
        dict_region(ts.take(n)).len() <= dict_region(ts).len(),
    decreases ts.len() - n, n,
{
    assert(ts.take(ts.len() as int) =~= ts);
    lemma_postings_grow(ts, n);
    if n < ts.len() {
        lemma_terms_len(ts, n + 1);
        lemma_postings_piece(ts, n);
        lemma_dict_piece(ts, n);
    }
}

proof fn lemma_postings_grow(ts: Seq<TermView>, n: int)
    requires
        0 <= n <= ts.len(),
    ensures
        postings_region(ts.take(n)).len() >= n,
    decreases n,
{
    if n > 0 {
        lemma_postings_grow(ts, n - 1);
        lemma_postings_piece(ts, n - 1);
        let l = ts[n - 1].list;
        lemma_list_bytes_len(l, l.len() as int);
    }
}

proof fn lemma_held_within(s: Seq<u8>, at: int, a: Seq<u8>, off: int, b: Seq<u8>)
    requires
        holds(s, at, a),
        holds(a, off, b),
    ensures
        holds(s, at + off, b),
{
    assert(s.subrange(at + off, at + off + b.len()) =~= s.subrange(at, at + a.len()).subrange(
        off,
        off + b.len(),
    ));
}

#[verifier::spinoff_prover]
#[verifier::rlimit(80)]
proof fn lemma_sparse_at(ts: Seq<TermView>, b: int)
    requires
        writable(ts),
        0 <= b,
        64 * b < ts.len(),
    ensures
        sparse_at(file_of(ts), toc_of(ts), b) == Ok::<_, FormatErrorView>(
            (
                ts[64 * b].term,
                dict_region(ts.take(64 * b)).len(),
                postings_region(ts.take(64 * b)).len(),
            ),
        ),
{
    let f = file_of(ts);
    let t = toc_of(ts);
    let i = 64 * b;
    let term = ts[i].term;
    let d = dict_region(ts.take(i)).len();
    let p = postings_region(ts.take(i)).len();
    lemma_layout(ts);
    lemma_parses(ts);
    lemma_offs(ts, b);
    let offs = sparse_offs(ts);
    lemma_u32s(offs, b);
    assert(u32_at(f, sparse_off(ts) + 4 * b) == offs[b]) by {
        let o = u32s_bytes(offs);
        let at = sparse_off(ts);
        assert(f.subrange(at + 4 * b, at + 4 * b + 4) =~= f.subrange(at, at + o.len()).subrange(
            4 * b,
            4 * b + 4,
        ));
    }
    lemma_sparse_piece(ts, i);
    let off = sparse_region(ts.take(i)).len() as int;
    let e = sparse_entry(ts.take(i), ts[i]);
    lemma_held_within(f, entries_off(ts), sparse_region(ts), off, e);
    let at = entries_off(ts) + off;
    lemma_terms_len(ts, i);
    let a1 = leb128((term.len() as u32) as nat);
    let a3 = leb128(d);
    let a4 = leb128(p);
    lemma_leb128_len((term.len() as u32) as nat);
    lemma_holds_concat(f, at, a1 + term + a3, a4);
    lemma_holds_concat(f, at, a1 + term, a3);
    lemma_holds_concat(f, at, a1, term);
    lemma_varint_roundtrip(f, at, (term.len() as u32) as nat);
    lemma_varint_roundtrip(f, at + a1.len() + term.len(), d);
    lemma_varint_roundtrip(f, at + a1.len() + term.len() + a3.len(), p);
    assert(off <= u32::MAX);
}

/// The scan of the block of term `i`, on the way to it.
spec fn scan_at(ts: Seq<TermView>, i: int, term: Seq<u8>, remaining: nat) -> Scan {
    Scan {
        pos: dict_off(ts) + dict_region(ts.take(i)).len(),
        remaining,
        term,
        postings_pos: HEADER_LEN as nat + postings_region(ts.take(i)).len(),
    }
}

spec fn entry_at(ts: Seq<TermView>, i: int) -> DictEntry {
    DictEntry {
        term: ts[i].term,
        doc_freq: ts[i].list.len() as u32,
        postings_off: HEADER_LEN as nat + postings_region(ts.take(i)).len(),
        postings_len: list_bytes(ts[i].list).len(),
    }
}

proof fn lemma_front_coded(f: Seq<u8>, at: int, prev: Seq<u8>, term: Seq<u8>, df: u32, len: nat)
    requires
        term.len() <= MAX_TERM_BYTES,
        len <= u64::MAX,
        holds(f, at, front_coded(prev, term, df, len)),
    ensures
        ({
            let prefix = common_len(prev, term);
            let p = varint32_at(f, at);
            let x = varint32_at(f, p.1);
            let n = (term.len() - prefix) as nat;
            let d = varint32_at(f, x.1 + n);
            let l = varint_at(f, d.1);
            &&& prefix <= prev.len()
            &&& prefix <= term.len()
            &&& p.0 == Ok::<nat, FormatErrorView>(prefix)
            &&& x.0 == Ok::<nat, FormatErrorView>(n)
            &&& slice_view(f, x.1, n as int) == Ok::<_, FormatErrorView>(term.skip(prefix as int))
            &&& prev.take(prefix as int) + term.skip(prefix as int) == term
            &&& d.0 == Ok::<nat, FormatErrorView>(df as nat)
            &&& l.0 == Ok::<nat, FormatErrorView>(len)
            &&& l.1 == at + front_coded(prev, term, df, len).len()
        }),
{
    let prefix = common_len(prev, term);
    lemma_common_len(prev, term);
    let suffix = term.skip(prefix as int);
    let a1 = leb128((prefix as u32) as nat);
    let a2 = leb128(((term.len() - prefix) as u32) as nat);
    let a4 = leb128(df as nat);
    let a5 = leb128(len);
    lemma_holds_concat(f, at, a1 + a2 + suffix + a4, a5);
    lemma_holds_concat(f, at, a1 + a2 + suffix, a4);
    lemma_holds_concat(f, at, a1 + a2, suffix);
    lemma_holds_concat(f, at, a1, a2);
    lemma_varint_roundtrip(f, at, (prefix as u32) as nat);
    lemma_varint_roundtrip(f, at + a1.len(), ((term.len() - prefix) as u32) as nat);
    lemma_varint_roundtrip(f, at + a1.len() + a2.len() + suffix.len(), df as nat);
    lemma_varint_roundtrip(f, at + a1.len() + a2.len() + suffix.len() + a4.len(), len);
    assert(prev.take(prefix as int) == term.take(prefix as int));
    assert(term.take(prefix as int) + term.skip(prefix as int) =~= term);
}

proof fn lemma_next_at(ts: Seq<TermView>, i: int, remaining: nat)
    requires
        writable(ts),
        0 <= i < ts.len(),
        remaining > 0,
    ensures
        next_at(
            file_of(ts),
            dict_end(toc_of(ts)),
            scan_at(ts, i, prev_term(ts.take(i)), remaining),
        ) == Ok::<_, FormatErrorView>(
            Some((entry_at(ts, i), scan_at(ts, i + 1, ts[i].term, (remaining - 1) as nat))),
        ),
{
    let f = file_of(ts);
    let prev = prev_term(ts.take(i));
    let off = dict_region(ts.take(i)).len() as int;
    let df = ts[i].list.len() as u32;
    let len = list_bytes(ts[i].list).len();
    lemma_layout(ts);
    lemma_parses(ts);
    lemma_dict_piece(ts, i);
    lemma_postings_piece(ts, i);
    lemma_terms_len(ts, i + 1);
    lemma_held_within(f, dict_off(ts), dict_region(ts), off, dict_entry(ts.take(i), ts[i]));
    lemma_front_coded(f, dict_off(ts) + off, prev, ts[i].term, df, len);
}

/// One past the last term of block `b`.
spec fn block_end(ts: Seq<TermView>, b: int) -> int {
    if ts.len() < 64 * b + 64 {
        ts.len() as int
    } else {
        64 * b + 64
    }
}

proof fn lemma_block_at(ts: Seq<TermView>, b: int)
    requires
        writable(ts),
        0 <= b,
        64 * b < ts.len(),
    ensures
        block_at(file_of(ts), toc_of(ts), b) == Ok::<_, FormatErrorView>(
            scan_at(ts, 64 * b, Seq::empty(), (block_end(ts, b) - 64 * b) as nat),
        ),
        prev_term(ts.take(64 * b)) == Seq::<u8>::empty(),
{
    lemma_sparse_at(ts, b);
    lemma_parses(ts);
    lemma_layout(ts);
    lemma_terms_len(ts, 64 * b);
    lemma_terms_len(ts, ts.len() as int);
    assert(ts.take(64 * b).len() == 64 * b);
    assert(b * BLOCK_SIZE == 64 * b);
    assert(toc_of(ts).num_terms == ts.len());
    assert(block_terms(toc_of(ts), b) == block_end(ts, b) - 64 * b);
}

proof fn lemma_list_in(ts: Seq<TermView>, i: int)
    requires
        writable(ts),
        0 <= i < ts.len(),
    ensures
        postings_in(
            file_of(ts),
            toc_of(ts),
            entry_at(ts, i).postings_off,
            entry_at(ts, i).postings_len,
        ) == Ok::<_, FormatErrorView>(list_bytes(ts[i].list)),
{
    lemma_layout(ts);
    lemma_parses(ts);
    lemma_postings_piece(ts, i);
    lemma_held_within(
        file_of(ts),
        HEADER_LEN as int,
        postings_region(ts),
        postings_region(ts.take(i)).len() as int,
        list_bytes(ts[i].list),
    );
}

/// The term before `i` in the scan of its block.
spec fn scan_term(ts: Seq<TermView>, b: int, i: int) -> Seq<u8> {
    if i == 64 * b {
        Seq::empty()
    } else {
        ts[i - 1].term
    }
}

proof fn lemma_scan_term(ts: Seq<TermView>, b: int, i: int)
    requires
        0 <= b,
        64 * b <= i < block_end(ts, b),
    ensures
        scan_term(ts, b, i) == prev_term(ts.take(i)),
{
    assert(ts.take(i).len() == i);
    if i > 64 * b {
        assert(i % 64 != 0);
        assert(ts.take(i).last() == ts[i - 1]);
    } else {
        assert(i % 64 == 0);
    }
}

proof fn lemma_key_order(ts: Seq<TermView>, i: int, j: int)
    requires
        strictly_ascending(term_keys(ts)),
        0 <= i < j < ts.len(),
    ensures
        bytes_lt(ts[i].term, ts[j].term),
{
    let k = term_keys(ts);
    assert(bytes_lt(k[i], k[j]));
}

proof fn lemma_find_from(ts: Seq<TermView>, b: int, i: int, target: Seq<u8>)
    requires
        writable(ts),
        0 <= b,
        64 * b < ts.len(),
        64 * b <= i <= block_end(ts, b),
    ensures
        ({
            let r = find_from(
                file_of(ts),
                toc_of(ts),
                target,
                scan_at(ts, i, scan_term(ts, b, i), (block_end(ts, b) - i) as nat),
            );
            &&& forall|j: int|
                i <= j < block_end(ts, b) && (#[trigger] ts[j]).term == target ==> r == Ok::<
                    _,
                    FormatErrorView,
                >(Some((list_bytes(ts[j].list), ts[j].list.len() as u32)))
            &&& (forall|j: int| i <= j < block_end(ts, b) ==> (#[trigger] ts[j]).term != target)
                ==> r == Ok::<_, FormatErrorView>(None::<(Seq<u8>, u32)>)
        }),
    decreases block_end(ts, b) - i,
{
    let e = block_end(ts, b);
    if i < e {
        lemma_scan_term(ts, b, i);
        lemma_next_at(ts, i, (e - i) as nat);
        lemma_list_in(ts, i);
        let here = ts[i];
        lemma_total(here.term, target);
        if here.term == target {
            assert forall|j: int| i <= j < e && (#[trigger] ts[j]).term == target implies j == i by {
                if j > i {
                    lemma_key_order(ts, i, j);
                    lemma_irreflexive(target);
                }
            }
        } else if bytes_lt(here.term, target) {
            lemma_find_from(ts, b, i + 1, target);
        } else {
            assert forall|j: int| i <= j < e implies (#[trigger] ts[j]).term != target by {
                if j > i {
                    lemma_key_order(ts, i, j);
                    lemma_transitive(target, here.term, ts[j].term);
                    lemma_irreflexive(target);
                }
            }
        }
    }
}

proof fn lemma_block_search(ts: Seq<TermView>, target: Seq<u8>, lo: int, hi: int)
    requires
        writable(ts),
        0 <= lo <= hi <= toc_of(ts).num_blocks,
        forall|b: int| 0 <= b < lo ==> bytes_le((#[trigger] ts[64 * b]).term, target),
        forall|b: int|
            hi <= b < toc_of(ts).num_blocks ==> bytes_lt(target, (#[trigger] ts[64 * b]).term),
    ensures
        block_search(file_of(ts), toc_of(ts), target, lo, hi) matches Ok(r) && lo <= r <= hi && (
        forall|b: int| 0 <= b < r ==> bytes_le((#[trigger] ts[64 * b]).term, target)) && (forall|
            b: int,
        |
            r <= b < toc_of(ts).num_blocks ==> bytes_lt(target, (#[trigger] ts[64 * b]).term)),
    decreases hi - lo,
{
    if lo < hi {
        let mid = lo + (hi - lo) / 2;
        lemma_offs(ts, -1);
        assert(64 * mid < ts.len());
        lemma_sparse_at(ts, mid);
        let m = ts[64 * mid].term;
        lemma_total(m, target);
        if bytes_le(m, target) {
            assert forall|b: int| 0 <= b < mid + 1 implies bytes_le(
                (#[trigger] ts[64 * b]).term,
                target,
            ) by {
                if b < mid {
                    lemma_key_order(ts, 64 * b, 64 * mid);
                    if m != target {
                        lemma_transitive(ts[64 * b].term, m, target);
                    }
                }
            }
            lemma_block_search(ts, target, mid + 1, hi);
        } else {
            assert forall|b: int| mid <= b < toc_of(ts).num_blocks implies bytes_lt(
                target,
                (#[trigger] ts[64 * b]).term,
            ) by {
                if b > mid {
                    assert(64 * b < ts.len());
                    lemma_key_order(ts, 64 * mid, 64 * b);
                    lemma_transitive(target, m, ts[64 * b].term);
                }
            }
            lemma_block_search(ts, target, lo, mid);
        }
    }
}

/// Looking a written term up gives back its list as it was written.
pub proof fn lemma_lookup_finds(ts: Seq<TermView>, j: int)
    requires
        writable(ts),
        0 <= j < ts.len(),
    ensures
        lookup_at(file_of(ts), toc_of(ts), ts[j].term) matches Ok(Some((data, df))) && data
            == list_bytes(ts[j].list) && df == ts[j].list.len() && decoded_list(data) == entries_of(
            ts[j].list,
        ),
{
    let target = ts[j].term;
    lemma_offs(ts, -1);
    lemma_block_search(ts, target, 0, toc_of(ts).num_blocks as int);
    let r = block_search(file_of(ts), toc_of(ts), target, 0, toc_of(ts).num_blocks as int)->Ok_0;
    let b = j / 64;
    assert(64 * b <= j < 64 * b + 64);
    assert(b < r) by {
        if b >= r {
            assert(bytes_lt(target, ts[64 * b].term));
            lemma_irreflexive(target);
            if 64 * b < j {
                lemma_key_order(ts, 64 * b, j);
                lemma_transitive(target, ts[64 * b].term, target);
            }
        }
    }
    assert(r <= b + 1) by {
        if r > b + 1 {
            assert(bytes_le(ts[64 * (b + 1)].term, target));
            assert(64 * (b + 1) < ts.len());
            lemma_key_order(ts, j, 64 * (b + 1));
            lemma_irreflexive(target);
            if ts[64 * (b + 1)].term != target {
                lemma_transitive(target, ts[64 * (b + 1)].term, target);
            }
        }
    }
    lemma_block_at(ts, b);
    lemma_find_from(ts, b, 64 * b, target);
    let x = ts[j];
    lemma_list_roundtrip(ts[j].list);
}

/// Looking up anything that was not written finds nothing.
pub proof fn lemma_lookup_misses(ts: Seq<TermView>, target: Seq<u8>)
    requires
        writable(ts),
        forall|j: int| 0 <= j < ts.len() ==> (#[trigger] ts[j]).term != target,
    ensures
        lookup_at(file_of(ts), toc_of(ts), target) == Ok::<_, FormatErrorView>(
            None::<(Seq<u8>, u32)>,
        ),
{
    lemma_offs(ts, -1);
    lemma_block_search(ts, target, 0, toc_of(ts).num_blocks as int);
    let r = block_search(file_of(ts), toc_of(ts), target, 0, toc_of(ts).num_blocks as int)->Ok_0;
    if r > 0 {
        let b = r - 1;
        lemma_block_at(ts, b);
        lemma_find_from(ts, b, 64 * b, target);
    }
}

/// Where an iteration over the terms stands before term `i`.
pub open spec fn term_state(ts: Seq<TermView>, i: int) -> TermState {
    if i <= 0 {
        TermState { block: 0, scan: None }
    } else {
        let b = (i - 1) / 64;
        let end = if ts.len() < 64 * b + 64 {
            ts.len() as int
        } else {
            64 * b + 64
        };
        TermState {
            block: b + 1,
            scan: Some(
                Scan {
                    pos: HEADER_LEN + postings_region(ts).len() + dict_region(ts.take(i)).len(),
                    remaining: (end - i) as nat,
                    term: ts[i - 1].term,
                    postings_pos: HEADER_LEN as nat + postings_region(ts.take(i)).len(),
                },
            ),
        }
    }
}

/// What an iteration yields for term `i`.
pub open spec fn term_item(ts: Seq<TermView>, i: int) -> (Seq<char>, u32, Seq<u8>) {
    (decode_utf8(ts[i].term), ts[i].list.len() as u32, list_bytes(ts[i].list))
}

proof fn lemma_step_in_block(ts: Seq<TermView>, b: int, i: int)
    requires
        writable(ts),
        0 <= b,
        64 * b <= i < block_end(ts, b),
    ensures
        term_next(
            file_of(ts),
            toc_of(ts),
            TermState {
                block: b + 1,
                scan: Some(scan_at(ts, i, scan_term(ts, b, i), (block_end(ts, b) - i) as nat)),
            },
        ) == Ok::<_, FormatErrorView>(Some((term_item(ts, i), term_state(ts, i + 1)))),
{
    let here = ts[i];
    lemma_list_in(ts, i);
    lemma_scan_term(ts, b, i);
    lemma_next_at(ts, i, (block_end(ts, b) - i) as nat);
    assert(((i + 1) - 1) / 64 == b);
}

proof fn lemma_step_to_block(ts: Seq<TermView>, b: int)
    requires
        writable(ts),
        0 <= b,
        64 * b < ts.len(),
    ensures
        term_next(file_of(ts), toc_of(ts), TermState { block: b, scan: None }) == Ok::<
            _,
            FormatErrorView,
        >(Some((term_item(ts, 64 * b), term_state(ts, 64 * b + 1)))),
{
    lemma_offs(ts, -1);
    lemma_block_at(ts, b);
    lemma_step_in_block(ts, b, 64 * b);
}

proof fn lemma_step_past_block(ts: Seq<TermView>, b: int, sc: Scan)
    requires
        sc.remaining == 0,
    ensures
        term_next(file_of(ts), toc_of(ts), TermState { block: b, scan: Some(sc) }) == term_next(
            file_of(ts),
            toc_of(ts),
            TermState { block: b, scan: None },
        ),
{
}

/// Iterating over a written file yields every term in order, each with its
/// document count and its list, and then ends.
pub proof fn lemma_iteration(ts: Seq<TermView>, i: int)
    requires
        writable(ts),
        0 <= i <= ts.len(),
    ensures
        term_next(file_of(ts), toc_of(ts), term_state(ts, i)) == Ok::<_, FormatErrorView>(
            if i < ts.len() {
                Some((term_item(ts, i), term_state(ts, i + 1)))
            } else {
                None
            },
        ),
{
    lemma_offs(ts, -1);
    if i > 0 && (i % 64 == 0 || i == ts.len()) {
        let b = (i - 1) / 64;
        let sc = term_state(ts, i).scan->Some_0;
        lemma_step_past_block(ts, b + 1, sc);
    }
    if i < ts.len() {
        let b = i / 64;
        if i % 64 == 0 {
            lemma_step_to_block(ts, b);
        } else {
            assert((i - 1) / 64 == b);
            lemma_step_in_block(ts, b, i);
        }
    }
}

proof fn lemma_scan_end(ts: Seq<TermView>, b: int, i: int)
    requires
        writable(ts),
        0 <= b,
        64 * b < ts.len(),
        64 * b <= i <= block_end(ts, b),
    ensures
        scan_end(
            file_of(ts),
            dict_end(toc_of(ts)),
            scan_at(ts, i, scan_term(ts, b, i), (block_end(ts, b) - i) as nat),
        ) == Ok::<_, FormatErrorView>(dict_off(ts) + dict_region(ts.take(block_end(ts, b))).len()),
    decreases block_end(ts, b) - i,
{
    if i < block_end(ts, b) {
        lemma_scan_term(ts, b, i);
        lemma_next_at(ts, i, (block_end(ts, b) - i) as nat);
        lemma_scan_end(ts, b, i + 1);
    }
}

spec fn tally_at(ts: Seq<TermView>, i: int) -> TallyView {
    TallyView {
        count: i as nat,
        prev: if i > 0 {
            Some(ts[i - 1].term)
        } else {
            None
        },
        expected: HEADER_LEN as nat + postings_region(ts.take(i)).len(),
    }
}

proof fn lemma_entries_checked(ts: Seq<TermView>, b: int, i: int)
    requires
        writable(ts),
        0 <= b,
        64 * b < ts.len(),
        64 * b <= i <= block_end(ts, b),
    ensures
        entries_checked(
            file_of(ts),
            toc_of(ts),
            b,
            ts[64 * b].term,
            i - 64 * b,
            scan_at(ts, i, scan_term(ts, b, i), (block_end(ts, b) - i) as nat),
            tally_at(ts, i),
        ) == Ok::<_, FormatErrorView>(tally_at(ts, block_end(ts, b))),
    decreases block_end(ts, b) - i,
{
    if i < block_end(ts, b) {
        let here = ts[i];
        lemma_scan_term(ts, b, i);
        lemma_next_at(ts, i, (block_end(ts, b) - i) as nat);
        lemma_list_in(ts, i);
        lemma_list_roundtrip(here.list);
        lemma_postings_piece(ts, i);
        if i > 0 {
            lemma_key_order(ts, i - 1, i);
        }
        lemma_entries_checked(ts, b, i + 1);
    }
}

proof fn lemma_blocks_from(ts: Seq<TermView>, b: int)
    requires
        writable(ts),
        0 <= b <= toc_of(ts).num_blocks,
    ensures
        blocks_from(
            file_of(ts),
            toc_of(ts),
            b,
            tally_at(
                ts,
                if 64 * b < ts.len() {
                    64 * b
                } else {
                    ts.len() as int
                },
            ),
        ) == Ok::<_, FormatErrorView>(tally_at(ts, ts.len() as int)),
    decreases toc_of(ts).num_blocks - b,
{
    lemma_offs(ts, -1);
    lemma_parses(ts);
    if b < toc_of(ts).num_blocks {
        assert(64 * b < ts.len());
        lemma_sparse_at(ts, b);
        lemma_block_at(ts, b);
        lemma_entries_checked(ts, b, 64 * b);
        if b > 0 {
            lemma_block_at(ts, b - 1);
            lemma_scan_end(ts, b - 1, 64 * (b - 1));
        }
        lemma_blocks_from(ts, b + 1);
    }
}

proof fn lemma_body(ts: Seq<TermView>)
    requires
        writable(ts),
    ensures
        body_of(file_of(ts)) == idx_body(ts),
{
    reveal(file_of);
    lemma_layout(ts);
    lemma_sealed_parses(Kind::Idx, idx_body(ts));
}

/// A written file passes the full check.
pub proof fn lemma_verifies(ts: Seq<TermView>)
    requires
        writable(ts),
    ensures
        verified(file_of(ts), toc_of(ts), crc32(idx_body(ts))) is Ok,
{
    lemma_parses(ts);
    lemma_blocks_from(ts, 0);
    lemma_body(ts);
    lemma_layout(ts);
    lemma_terms_len(ts, ts.len() as int);
    assert(ts.take(ts.len() as int) =~= ts);
    assert(postings_region(ts.take(0)).len() == 0);
    assert(tally_at(ts, 0) == start_tally(toc_of(ts)));
    assert(toc_of(ts).num_terms == ts.len());
}

} // verus!
