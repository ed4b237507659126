//! What decoding and checking make sure of.

use vstd::bytes::{
    lemma_auto_spec_u32_to_from_le_bytes, lemma_auto_spec_u64_to_from_le_bytes,
    spec_u32_from_le_bytes, spec_u32_to_le_bytes, spec_u64_from_le_bytes, spec_u64_to_le_bytes,
};
use vstd::prelude::*;
use vstd::utf8::{decode_utf8, decode_utf8_encode_utf8, encode_utf8};

use super::del::{bit_at, bit_seq, count_set};
use super::doc::{
    doc_path, first_fault, record_fault, record_in, record_off, stored_count, stored_len, verified,
    TableView,
};
use super::envelope::{
    body_of, crc32, footer_magic, lemma_sealed_parses, magic_of, parse_verified_view, sealed, Kind,
    FORMAT_VERSION,
};
use super::fault_laws::{lemma_counts_marked, marked};
use super::idx::{
    all_terms, block_at, blocks_from, dict_end, entries_checked, next_at, postings_in, sparse_at,
    start_tally, term_next, terms_from, Scan, TallyView, TermState, Toc,
};
use super::postings::{
    checked_from, checked_list, decoded_list, entries_from, header_at, positions_at, positions_of,
};
use super::varint::{varint32_at, varint_at, varint_tail};
use super::FormatErrorView;
use crate::index::postings::{from_target, Entry};
use crate::order::{bytes_lt, lemma_transitive};

verus! {

/// The number that these bytes encode: seven bits in each, the least first.
pub open spec fn value(b: Seq<u8>) -> nat
    decreases b.len(),
{
    if b.len() == 0 {
        0
    } else {
        (b[0] % 128) as nat + 128 * value(b.drop_first())
    }
}

/// A number of `i` bytes and those up to `e` ends there: each but the last has its high bit
/// set, there are no more than ten, and the tenth has room for one bit.
pub open spec fn number_ends(s: Seq<u8>, pos: int, e: int, i: int) -> bool {
    &&& pos < e <= s.len()
    &&& i + (e - pos) <= 10
    &&& forall|k: int| pos <= k < e - 1 ==> #[trigger] s[k] >= 128
    &&& s[e - 1] < 128
    &&& i + (e - pos) == 10 ==> s[e - 1] <= 1
}

proof fn lemma_tail(s: Seq<u8>, pos: int, i: nat)
    requires
        0 <= pos,
        i <= 9,
    ensures
        forall|e: int| #[trigger]
            number_ends(s, pos, e, i as int) ==> varint_tail(s, pos, i).0 == Ok::<nat, FormatErrorView>(
                value(s.subrange(pos, e)),
            ) && varint_tail(s, pos, i).1 == e,
        varint_tail(s, pos, i).0 is Ok ==> number_ends(s, pos, varint_tail(s, pos, i).1, i as int),
    decreases 10 - i,
{
    if pos < s.len() && !(i >= 9 && s[pos] > 1) {
        if s[pos] < 128 {
            assert forall|e: int| #[trigger] number_ends(s, pos, e, i as int) implies varint_tail(
                s,
                pos,
                i,
            ).0 == Ok::<nat, FormatErrorView>(value(s.subrange(pos, e))) && varint_tail(s, pos, i).1 == e by {
                if e > pos + 1 {
                    assert(s[pos] >= 128);
                }
                let b = s.subrange(pos, e);
                assert(b.drop_first() =~= Seq::empty());
                assert(value(b.drop_first()) == 0);
                assert(b[0] == s[pos]);
            }
            assert(number_ends(s, pos, pos + 1, i as int));
        } else {
            lemma_tail(s, pos + 1, i + 1);
            let rest = varint_tail(s, pos + 1, i + 1);
            assert forall|e: int| #[trigger] number_ends(s, pos, e, i as int) implies varint_tail(
                s,
                pos,
                i,
            ).0 == Ok::<nat, FormatErrorView>(value(s.subrange(pos, e))) && varint_tail(s, pos, i).1 == e by {
                assert(e > pos + 1);
                assert(number_ends(s, pos + 1, e, i as int + 1));
                let b = s.subrange(pos, e);
                assert(b.drop_first() =~= s.subrange(pos + 1, e));
                assert(b[0] == s[pos]);
                assert(s[pos] % 128 == s[pos] - 128);
            }
            if rest.0 is Ok {
                assert(number_ends(s, pos + 1, rest.1, i as int + 1));
                assert(number_ends(s, pos, rest.1, i as int));
            }
        }
    } else {
        assert forall|e: int| !#[trigger] number_ends(s, pos, e, i as int) by {
            if number_ends(s, pos, e, i as int) && e > pos + 1 {
                assert(s[pos] >= 128);
            }
        }
    }
}

/// A number is read exactly where one ends in time, as the number that its bytes encode.
pub proof fn lemma_varint_reads(s: Seq<u8>, pos: int, e: int)
    requires
        0 <= pos,
    ensures
        number_ends(s, pos, e, 0) ==> varint_at(s, pos).0 == Ok::<nat, FormatErrorView>(
            value(s.subrange(pos, e)),
        ) && varint_at(s, pos).1 == e,
        varint_at(s, pos).0 is Ok ==> number_ends(s, pos, varint_at(s, pos).1, 0),
        varint32_at(s, pos).0 is Ok <==> (varint_at(s, pos).0 matches Ok(v) && v <= u32::MAX),
        varint32_at(s, pos).0 is Ok ==> varint32_at(s, pos) == varint_at(s, pos),
{
    lemma_tail(s, pos, 0);
}

proof fn lemma_positions_ascend(s: Seq<u8>, p: int, k: nat, prev: Option<u32>)
    ensures
        positions_at(s, p, k, prev) matches Ok(ps) ==> {
            &&& ps.len() == k
            &&& forall|i: int, j: int|
                0 <= i < j < ps.len() ==> (#[trigger] ps[i]) < (#[trigger] ps[j])
            &&& prev matches Some(q) ==> forall|i: int|
                0 <= i < ps.len() ==> q < #[trigger] ps[i]
        },
    decreases k,
{
    if k > 0 {
        let d = varint32_at(s, p);
        if positions_at(s, p, k, prev) is Ok {
            let gap = d.0->Ok_0;
            let v = match prev {
                Some(q) => q + gap,
                None => gap as int,
            };
            lemma_positions_ascend(s, d.1, (k - 1) as nat, Some(v as u32));
            let ps = positions_at(s, p, k, prev)->Ok_0;
            let rest = positions_at(s, d.1, (k - 1) as nat, Some(v as u32))->Ok_0;
            assert forall|i: int| 0 < i < ps.len() implies #[trigger] ps[i] == rest[i - 1] by {}
        }
    }
}

proof fn lemma_checked_from(s: Seq<u8>, pos: int, n: nat, prev: Option<u32>)
    ensures
        checked_from(s, pos, n, prev) is Ok ==> {
            let es = entries_from(s, pos, n, prev);
            &&& es.len() == n
            &&& forall|i: int|
                0 <= i < es.len() ==> ((#[trigger] es[i]).positions matches Some(ps) && ps.len()
                    == es[i].tf && ps.len() > 0 && forall|j: int, k: int|
                    0 <= j < k < ps.len() ==> (#[trigger] ps[j]) < (#[trigger] ps[k]))
        },
    decreases n,
{
    if n > 0 && checked_from(s, pos, n, prev) is Ok {
        let h = header_at(s, pos, prev)->Ok_0;
        lemma_checked_from(s, h.end, (n - 1) as nat, Some(h.doc));
        lemma_positions_ascend(s.take(h.end), h.start, h.tf as nat, None);
        let es = entries_from(s, pos, n, prev);
        let rest = entries_from(s, h.end, (n - 1) as nat, Some(h.doc));
        assert(positions_of(s, h) is Ok);
        assert forall|i: int| 0 < i < es.len() implies #[trigger] es[i] == rest[i - 1] by {}
    }
}

/// A list that passes the full check has as many documents as it should, each with as many
/// positions as it says, in ascending order.
pub proof fn lemma_checked_list(s: Seq<u8>, doc_freq: u32)
    requires
        checked_list(s, doc_freq) is Ok,
    ensures
        decoded_list(s).len() == doc_freq,
        forall|i: int|
            0 <= i < decoded_list(s).len() ==> ((#[trigger] decoded_list(
                s,
            )[i]).positions matches Some(ps) && ps.len() == decoded_list(s)[i].tf && ps.len() > 0
                && forall|j: int, k: int|
                0 <= j < k < ps.len() ==> (#[trigger] ps[j]) < (#[trigger] ps[k])),
{
    let c = varint32_at(s, 0);
    lemma_checked_from(s, c.1, c.0->Ok_0, None);
}

/// The records of a table that are indexed.
pub open spec fn indexed_records(s: Seq<u8>, n: int) -> Set<int> {
    Set::new(|i: int| 0 <= i < n && record_in(s, i).status == 1)
}

proof fn lemma_stored(s: Seq<u8>, n: int)
    requires
        0 <= n,
    ensures
        indexed_records(s, n).finite(),
        stored_count(s, n) == indexed_records(s, n).len(),
        stored_len(s, n) == Seq::new(n as nat, |i: int| record_in(s, i)).fold_left(
            0int,
            |a: int, r: super::doc::DocRecord|
                if r.status == 1 {
                    a + r.len
                } else {
                    a
                },
        ),
    decreases n,
{
    let now = indexed_records(s, n);
    let rs = Seq::new(n as nat, |i: int| record_in(s, i));
    if n > 0 {
        lemma_stored(s, n - 1);
        assert(rs.drop_last() =~= Seq::new((n - 1) as nat, |i: int| record_in(s, i)));
        assert(rs.last() == record_in(s, n - 1));
        if record_in(s, n - 1).status == 1 {
            assert(now =~= indexed_records(s, n - 1).insert(n - 1));
        } else {
            assert(now =~= indexed_records(s, n - 1));
        }
    } else {
        assert(now =~= Set::empty());
        assert(rs =~= Seq::empty());
    }
}

/// The record is sound: its status is known, only indexed documents have a length, what is
/// reserved is zero, and it has a path.
pub open spec fn record_sound(s: Seq<u8>, num_docs: u32, i: int) -> bool {
    let r = record_in(s, i);
    &&& r.status <= 3
    &&& r.status == 1 || r.len == 0
    &&& s[record_off(i) + 37] == 0 && s[record_off(i) + 38] == 0 && s[record_off(i) + 39] == 0
    &&& doc_path(s, num_docs, i) is Some
}

proof fn lemma_first_fault(s: Seq<u8>, num_docs: u32, i: int)
    requires
        0 <= i <= num_docs,
    ensures
        first_fault(s, num_docs, i) is None <==> forall|k: int|
            i <= k < num_docs ==> #[trigger] record_sound(s, num_docs, k),
    decreases num_docs - i,
{
    if i < num_docs {
        lemma_first_fault(s, num_docs, i + 1);
        assert(record_fault(s, num_docs, i) is None <==> record_sound(s, num_docs, i));
    }
}

/// A table of documents passes the full check exactly where its checksum is right, every
/// record is sound, and it counts its indexed documents and their lengths right.
pub proof fn lemma_verified_table(s: Seq<u8>, t: TableView)
    ensures
        verified(s, t) is Ok <==> {
            &&& crc32(body_of(s)) == t.crc
            &&& forall|i: int| 0 <= i < t.num_docs ==> #[trigger] record_sound(s, t.num_docs, i)
            &&& t.num_indexed == indexed_records(s, t.num_docs as int).len()
            &&& t.total_len == Seq::new(t.num_docs as nat, |i: int| record_in(s, i)).fold_left(
                0int,
                |a: int, r: super::doc::DocRecord|
                    if r.status == 1 {
                        a + r.len
                    } else {
                        a
                    },
            )
        },
{
    lemma_first_fault(s, t.num_docs, 0);
    lemma_stored(s, t.num_docs as int);
}

/// A file of deletions that is read has a bit for each document, as many of them set as it
/// says, and none beyond.
pub proof fn lemma_read_deletions(s: Seq<u8>)
    ensures
        super::del::parsed(s) matches Ok((n, deleted, bits, _)) ==> {
            &&& 8 * (bits.len() - 1) < n <= 8 * bits.len()
            &&& deleted == marked(bit_seq(bits, 8 * bits.len())).len()
            &&& forall|i: int| n <= i < 8 * bits.len() ==> !#[trigger] bit_at(bits, i)
        },
{
    if let Ok((n, deleted, bits, _)) = super::del::parsed(s) {
        lemma_counts_marked(bit_seq(bits, 8 * bits.len()));
        assert(count_set(bit_seq(bits, 8 * bits.len())) == deleted);
    }
}

/// Seeking skips the postings of smaller documents that come first, and no others.
pub proof fn lemma_from_target(rest: Seq<Entry>, target: u32)
    ensures
        exists|k: int| #[trigger] sought_at(rest, target, k) && from_target(rest, target)
            == rest.skip(k),
    decreases rest.len(),
{
    if rest.len() > 0 && rest[0].doc < target {
        lemma_from_target(rest.drop_first(), target);
        let k = choose|k: int| #[trigger]
            sought_at(rest.drop_first(), target, k) && from_target(rest.drop_first(), target)
                == rest.drop_first().skip(k);
        assert(rest.drop_first().skip(k) =~= rest.skip(k + 1));
        assert forall|i: int| 0 <= i < k + 1 implies (#[trigger] rest[i]).doc < target by {
            if i > 0 {
                assert(rest.drop_first()[i - 1].doc < target);
            }
        }
        assert(sought_at(rest, target, k + 1));
    } else {
        assert(rest.skip(0) =~= rest);
        assert(sought_at(rest, target, 0));
    }
}

/// The first posting from which on a document of `target` or more comes is `k`.
pub open spec fn sought_at(rest: Seq<Entry>, target: u32, k: int) -> bool {
    &&& 0 <= k <= rest.len()
    &&& forall|i: int| 0 <= i < k ==> (#[trigger] rest[i]).doc < target
    &&& k < rest.len() ==> rest[k].doc >= target
}

/// The terms come in strictly ascending order of their bytes, behind `prev`, and each list
/// passes the check against its number of documents.
pub open spec fn terms_sound(
    items: Seq<(Seq<char>, u32, Seq<u8>)>,
    prev: Option<Seq<u8>>,
) -> bool {
    &&& forall|i: int|
        0 <= i < items.len() ==> checked_list((#[trigger] items[i]).2, items[i].1) is Ok
    &&& forall|i: int, j: int|
        0 <= i < j < items.len() ==> bytes_lt(
            encode_utf8((#[trigger] items[i]).0),
            encode_utf8((#[trigger] items[j]).0),
        )
    &&& prev matches Some(p) ==> forall|i: int|
        0 <= i < items.len() ==> bytes_lt(p, encode_utf8((#[trigger] items[i]).0))
}

proof fn lemma_blocks_sound(s: Seq<u8>, t: Toc, b: int, tally: TallyView)
    requires
        0 <= b <= t.num_blocks,
        blocks_from(s, t, b, tally) is Ok,
    ensures
        ({
            let items = terms_from(s, t, TermState { block: b, scan: None });
            &&& items is Ok
            &&& tally.count + items->Ok_0.len() == blocks_from(s, t, b, tally)->Ok_0.count
            &&& terms_sound(items->Ok_0, tally.prev)
        }),
    decreases t.num_blocks - b, 0int,
{
    let here = TermState { block: b, scan: None };
    if b < t.num_blocks {
        let sc = block_at(s, t, b)->Ok_0;
        let first = sparse_at(s, t, b)->Ok_0.0;
        let inside = TermState { block: b + 1, scan: Some(sc) };
        lemma_entries_sound(s, t, b, first, 0, sc, tally);
        assert(term_next(s, t, here) == term_next(s, t, inside));
        assert(terms_from(s, t, here) == terms_from(s, t, inside));
    } else {
        assert(term_next(s, t, here) == Ok::<_, FormatErrorView>(
            None::<((Seq<char>, u32, Seq<u8>), TermState)>,
        ));
    }
}

proof fn lemma_entries_sound(
    s: Seq<u8>,
    t: Toc,
    b: int,
    first: Seq<u8>,
    k: int,
    sc: Scan,
    tally: TallyView,
)
    requires
        0 <= b < t.num_blocks,
        entries_checked(s, t, b, first, k, sc, tally) is Ok,
        blocks_from(s, t, b + 1, entries_checked(s, t, b, first, k, sc, tally)->Ok_0) is Ok,
    ensures
        ({
            let items = terms_from(s, t, TermState { block: b + 1, scan: Some(sc) });
            let after = entries_checked(s, t, b, first, k, sc, tally)->Ok_0;
            &&& items is Ok
            &&& tally.count + items->Ok_0.len() == blocks_from(s, t, b + 1, after)->Ok_0.count
            &&& terms_sound(items->Ok_0, tally.prev)
        }),
    decreases t.num_blocks - b - 1, sc.remaining + 1,
{
    let here = TermState { block: b + 1, scan: Some(sc) };
    match next_at(s, dict_end(t), sc)->Ok_0 {
        None => {
            lemma_blocks_sound(s, t, b + 1, tally);
            let outside = TermState { block: b + 1, scan: None };
            assert(term_next(s, t, here) == term_next(s, t, outside));
            assert(terms_from(s, t, here) == terms_from(s, t, outside));
        },
        Some((e, next)) => {
            let data = postings_in(s, t, e.postings_off, e.postings_len)->Ok_0;
            let after = TallyView {
                count: tally.count + 1,
                prev: Some(e.term),
                expected: e.postings_off + e.postings_len,
            };
            lemma_entries_sound(s, t, b, first, k + 1, next, after);
            let item = (decode_utf8(e.term), e.doc_freq, data);
            let then_on = TermState { block: b + 1, scan: Some(next) };
            assert(term_next(s, t, here) == Ok::<_, FormatErrorView>(Some((item, then_on))));
            let rest = terms_from(s, t, then_on)->Ok_0;
            let items = seq![item] + rest;
            assert(terms_from(s, t, here) == Ok::<_, FormatErrorView>(items));
            decode_utf8_encode_utf8(e.term);
            assert(encode_utf8(item.0) == e.term);
            assert forall|i: int| 0 < i < items.len() implies #[trigger] items[i] == rest[i - 1] by {}
            assert forall|i: int, j: int| 0 <= i < j < items.len() implies bytes_lt(
                encode_utf8((#[trigger] items[i]).0),
                encode_utf8((#[trigger] items[j]).0),
            ) by {
                assert(items[j] == rest[j - 1]);
                if i > 0 {
                    assert(items[i] == rest[i - 1]);
                }
            }
            if let Some(p) = tally.prev {
                assert forall|i: int| 0 <= i < items.len() implies bytes_lt(
                    p,
                    encode_utf8((#[trigger] items[i]).0),
                ) by {
                    if i > 0 {
                        assert(items[i] == rest[i - 1]);
                        lemma_transitive(p, e.term, encode_utf8(rest[i - 1].0));
                    }
                }
            }
        },
    }
}

/// An index file that passes the full check can be iterated over to its end, has as many terms
/// as it says, in strictly ascending order, and lists that pass the check.
pub proof fn lemma_verified_index(s: Seq<u8>, t: Toc, crc: u32)
    requires
        super::idx::verified(s, t, crc) is Ok,
    ensures
        crc32(body_of(s)) == crc,
        all_terms(s, t) is Ok,
        all_terms(s, t)->Ok_0.len() == t.num_terms,
        terms_sound(all_terms(s, t)->Ok_0, None),
{
    lemma_blocks_sound(s, t, 0, start_tally(t));
}

/// The first eight bytes of a file say its kind.
pub open spec fn kind_bytes(kind: Kind) -> Seq<u8> {
    match kind {
        Kind::Manifest => seq![0x46u8, 0x53, 0x52, 0x43, 0x48, 0x4d, 0x41, 0x4e],
        Kind::Idx => seq![0x46u8, 0x53, 0x52, 0x43, 0x48, 0x49, 0x44, 0x58],
        Kind::Doc => seq![0x46u8, 0x53, 0x52, 0x43, 0x48, 0x44, 0x4f, 0x43],
        Kind::Del => seq![0x46u8, 0x53, 0x52, 0x43, 0x48, 0x44, 0x45, 0x4c],
        Kind::Overlay => seq![0x46u8, 0x53, 0x52, 0x43, 0x48, 0x4f, 0x56, 0x4c],
    }
}

/// A file around a body: the kind, the version and no flags before it, its length and its
/// checksum and the final mark behind it.
pub open spec fn around(kind: Kind, body: Seq<u8>) -> Seq<u8> {
    kind_bytes(kind) + spec_u32_to_le_bytes(2) + spec_u32_to_le_bytes(0) + body
        + spec_u64_to_le_bytes(body.len() as u64) + spec_u32_to_le_bytes(crc32(body)) + seq![
        0x46u8,
        0x53,
        0x52,
        0x46,
    ]
}

/// A file is read as one of a kind, checksum and all, exactly where it is written as such a
/// file around some body.
pub proof fn lemma_read_is_sealed(kind: Kind, s: Seq<u8>)
    requires
        s.len() <= u64::MAX,
    ensures
        parse_verified_view(kind, s) is Ok <==> exists|body: Seq<u8>| s == #[trigger] around(
            kind,
            body,
        ),
        parse_verified_view(kind, s) is Ok ==> s == around(kind, body_of(s)),
        sealed(kind, s) == around(kind, s),
{
    lemma_auto_spec_u32_to_from_le_bytes();
    lemma_auto_spec_u64_to_from_le_bytes();
    lemma_kind(kind);
    assert(sealed(kind, s) =~= around(kind, s));
    if parse_verified_view(kind, s) is Ok {
        let body = body_of(s);
        let n = s.len() as int;
        let a = s.subrange(8, 12);
        let b = s.subrange(12, 16);
        let c = s.subrange(n - 16, n - 8);
        let d = s.subrange(n - 8, n - 4);
        assert(spec_u32_to_le_bytes(spec_u32_from_le_bytes(a)) == a);
        assert(spec_u32_to_le_bytes(spec_u32_from_le_bytes(b)) == b);
        assert(spec_u64_to_le_bytes(spec_u64_from_le_bytes(c)) == c);
        assert(spec_u32_to_le_bytes(spec_u32_from_le_bytes(d)) == d);
        assert(s.subrange(n - 16 + 8, n - 4) =~= d);
        assert(s =~= s.subrange(0, 8) + a + b + body + c + d + s.subrange(n - 4, n));
        assert(s =~= around(kind, body));
    }
    if exists|body: Seq<u8>| s == #[trigger] around(kind, body) {
        let body = choose|body: Seq<u8>| s == #[trigger] around(kind, body);
        assert(body.len() <= s.len());
        assert(sealed(kind, body) =~= around(kind, body));
        lemma_sealed_parses(kind, body);
    }
}

proof fn lemma_kind(kind: Kind)
    ensures
        magic_of(kind) == kind_bytes(kind),
        footer_magic() == seq![0x46u8, 0x53, 0x52, 0x46],
        FORMAT_VERSION == 2,
{
    reveal_strlit("FSRCHMAN");
    reveal_strlit("FSRCHIDX");
    reveal_strlit("FSRCHDOC");
    reveal_strlit("FSRCHDEL");
    reveal_strlit("FSRCHOVL");
    reveal_strlit("FSRF");
    assert(magic_of(kind) =~= kind_bytes(kind));
    assert(footer_magic() =~= seq![0x46u8, 0x53, 0x52, 0x46]);
}

} // verus!
