//! Term dictionaries: posting lists, a front-coded dictionary in 64-term
//! blocks, and a sparse index over the first term of each block.

use super::envelope::{
    self, body_of, crc32, envelope_of, parse_view, sealed, BodyWriter, Envelope, Kind, FOOTER_LEN,
    HEADER_LEN,
};
pub use super::postings::{encode_postings, DiskCursor, DiskPostingList};
use super::postings::{
    checked_list, lemma_list_bytes_len, list_bytes, list_fault, list_view, starts_with, token_count,
};
use super::varint::{
    leb128, lemma_varint_bounds, put_u32, put_u64, read_u32, read_u64, varint32_at, varint_at,
};
use super::{
    corrupt_view, push_u32, push_u64, slice, slice_view, u32_at, u32_of, u64_at, u64_of, Decoded,
    FormatError, FormatErrorView, Result,
};
use crate::index::postings::{DocId, Position};
use crate::order::{
    byte_order, bytes_le, bytes_lt, common_len, common_prefix, lemma_common_len, lemma_total,
    strictly_ascending, ByteOrder,
};
use crate::text::{
    debug_string, debug_text, decimal, lossy_string, push_decimal, utf8_lossy, utf8_str,
};
use vstd::bytes::{spec_u32_to_le_bytes, spec_u64_to_le_bytes};
use vstd::prelude::*;
use vstd::slice::slice_to_vec;
use vstd::utf8::{decode_utf8, encode_utf8, valid_utf8};

verus! {

pub const BLOCK_SIZE: usize = 64;

pub const TOC_LEN: usize = 64;

/// Longer terms are not indexed.
pub const MAX_TERM_BYTES: usize = 512;

/// Where the regions of a file lie.
#[derive(Debug, Clone, Copy, PartialEq, Eq, Structural)]
pub struct Toc {
    pub postings_off: u64,
    pub postings_len: u64,
    pub dict_off: u64,
    pub dict_len: u64,
    pub sparse_off: u64,
    pub sparse_len: u64,
    pub num_terms: u64,
    pub num_blocks: u32,
    pub block_size: u32,
}

/// The encoding of a table of contents.
pub open spec fn toc_bytes(t: Toc) -> Seq<u8> {
    spec_u64_to_le_bytes(t.postings_off) + spec_u64_to_le_bytes(t.postings_len)
        + spec_u64_to_le_bytes(t.dict_off) + spec_u64_to_le_bytes(t.dict_len)
        + spec_u64_to_le_bytes(t.sparse_off) + spec_u64_to_le_bytes(t.sparse_len)
        + spec_u64_to_le_bytes(t.num_terms) + spec_u32_to_le_bytes(t.num_blocks)
        + spec_u32_to_le_bytes(t.block_size)
}

/// The table of contents at `at`.
pub open spec fn toc_in(s: Seq<u8>, at: int) -> Toc {
    Toc {
        postings_off: u64_at(s, at),
        postings_len: u64_at(s, at + 8),
        dict_off: u64_at(s, at + 16),
        dict_len: u64_at(s, at + 24),
        sparse_off: u64_at(s, at + 32),
        sparse_len: u64_at(s, at + 40),
        num_terms: u64_at(s, at + 48),
        num_blocks: u32_at(s, at + 56),
        block_size: u32_at(s, at + 60),
    }
}

impl Toc {
    fn encode(&self) -> (out: Vec<u8>)
        ensures
            out@ == toc_bytes(*self),
    {
        let mut out: Vec<u8> = Vec::new();
        push_u64(&mut out, self.postings_off);
        push_u64(&mut out, self.postings_len);
        push_u64(&mut out, self.dict_off);
        push_u64(&mut out, self.dict_len);
        push_u64(&mut out, self.sparse_off);
        push_u64(&mut out, self.sparse_len);
        push_u64(&mut out, self.num_terms);
        push_u32(&mut out, self.num_blocks);
        push_u32(&mut out, self.block_size);
        assert(out@ =~= toc_bytes(*self));
        out
    }

    fn decode(b: &[u8], at: usize) -> (t: Self)
        requires
            at + TOC_LEN <= b@.len(),
        ensures
            t == toc_in(b@, at as int),
    {
        assert(b@.len() == b.len());
        Toc {
            postings_off: u64_of(b, at),
            postings_len: u64_of(b, at + 8),
            dict_off: u64_of(b, at + 16),
            dict_len: u64_of(b, at + 24),
            sparse_off: u64_of(b, at + 32),
            sparse_len: u64_of(b, at + 40),
            num_terms: u64_of(b, at + 48),
            num_blocks: u32_of(b, at + 56),
            block_size: u32_of(b, at + 60),
        }
    }
}

/// What was written, in numbers.
#[derive(Debug, Clone, Copy, PartialEq, Eq, Structural)]
pub struct IdxSummary {
    /// Whole file length.
    pub len: u64,
    pub crc: u32,
    pub num_terms: u64,
    pub num_postings: u64,
    pub num_tokens: u64,
}

impl Default for IdxSummary {
    fn default() -> (s: Self)
        ensures
            s == (IdxSummary { len: 0, crc: 0, num_terms: 0, num_postings: 0, num_tokens: 0 }),
    {
        IdxSummary { len: 0, crc: 0, num_terms: 0, num_postings: 0, num_tokens: 0 }
    }
}

/// Something [`write`] can encode: a list of `(document, positions)`.
pub trait PostingSource {
    /// The list.
    spec fn list(&self) -> Seq<(u32, Seq<u32>)>;

    /// The number of documents, as stored in the dictionary.
    fn doc_freq(&self) -> (n: u32)
        ensures
            n == self.list().len() as u32,
    ;

    /// Appends the encoded list; returns the number of positions.
    fn encode(&self, out: &mut Vec<u8>, scratch: &mut Vec<u8>) -> (r: Result<u64>)
        ensures
            starts_with(final(out)@, old(out)@),
            match r {
                Ok(tokens) => list_fault(self.list(), 0) is None && final(out)@ == old(out)@
                    + list_bytes(self.list()) && tokens == token_count(
                    self.list(),
                    self.list().len() as int,
                ),
                Err(e) => list_fault(self.list(), 0) matches Some(msg) && e@
                    == FormatErrorView::Invariant(msg),
            },
    ;
}

impl PostingSource for Vec<(DocId, Vec<Position>)> {
    open spec fn list(&self) -> Seq<(u32, Seq<u32>)> {
        Seq::new(self@.len(), |i: int| (self@[i].0, self@[i].1@))
    }

    fn doc_freq(&self) -> (n: u32) {
        self.len() as u32
    }

    fn encode(&self, out: &mut Vec<u8>, scratch: &mut Vec<u8>) -> (r: Result<u64>) {
        let mut refs: Vec<(DocId, &[Position])> = Vec::new();
        let mut i: usize = 0;
        while i < self.len()
            invariant
                i <= self@.len(),
                refs@.len() == i,
                forall|k: int|
                    #![trigger refs@[k]]
                    0 <= k < i ==> refs@[k].0 == self@[k].0 && refs@[k].1@ == self@[k].1@,
            decreases self@.len() - i,
        {
            refs.push((self[i].0, self[i].1.as_slice()));
            i = i + 1;
        }
        assert(list_view(refs@) =~= self.list());
        encode_postings(refs.as_slice(), out, scratch)
    }
}

/// A term and its list.
pub ghost struct TermView {
    pub term: Seq<u8>,
    pub list: Seq<(u32, Seq<u32>)>,
}

/// The terms handed to [`write`], by value.
pub open spec fn term_views<P: PostingSource>(terms: Seq<(&str, P)>) -> Seq<TermView> {
    Seq::new(
        terms.len(),
        |i: int| TermView { term: encode_utf8(terms[i].0@), list: terms[i].1.list() },
    )
}

/// The byte strings of the terms.
pub open spec fn term_keys(ts: Seq<TermView>) -> Seq<Seq<u8>> {
    Seq::new(ts.len(), |i: int| ts[i].term)
}

/// The terms that are written: all but overlong ones.
pub open spec fn kept(ts: Seq<TermView>) -> Seq<TermView>
    decreases ts.len(),
{
    if ts.len() == 0 {
        Seq::empty()
    } else if ts.last().term.len() <= MAX_TERM_BYTES {
        kept(ts.drop_last()).push(ts.last())
    } else {
        kept(ts.drop_last())
    }
}

/// The first fault among the lists that are written, from term `i` on.
pub open spec fn write_fault(ts: Seq<TermView>, i: int) -> Option<Seq<char>>
    decreases ts.len() - i,
{
    if i >= ts.len() {
        None
    } else if ts[i].term.len() > MAX_TERM_BYTES {
        write_fault(ts, i + 1)
    } else {
        match list_fault(ts[i].list, 0) {
            Some(msg) => Some(msg),
            None => write_fault(ts, i + 1),
        }
    }
}

/// The posting lists, one behind the other.
pub open spec fn postings_region(ts: Seq<TermView>) -> Seq<u8>
    decreases ts.len(),
{
    if ts.len() == 0 {
        Seq::empty()
    } else {
        postings_region(ts.drop_last()) + list_bytes(ts.last().list)
    }
}

/// The term that the one behind `front` shares a prefix with; none at the start
/// of a block.
pub open spec fn prev_term(front: Seq<TermView>) -> Seq<u8> {
    if front.len() % (BLOCK_SIZE as nat) == 0 {
        Seq::empty()
    } else {
        front.last().term
    }
}

/// A front-coded dictionary entry: the length of the prefix shared with `prev`,
/// the rest of the term, its document count, the length of its list.
pub open spec fn front_coded(prev: Seq<u8>, term: Seq<u8>, df: u32, len: nat) -> Seq<u8> {
    let prefix = common_len(prev, term);
    leb128((prefix as u32) as nat) + leb128(((term.len() - prefix) as u32) as nat) + term.skip(
        prefix as int,
    ) + leb128(df as nat) + leb128(len)
}

/// The dictionary entry of a term behind `front`.
pub open spec fn dict_entry(front: Seq<TermView>, t: TermView) -> Seq<u8> {
    front_coded(prev_term(front), t.term, t.list.len() as u32, list_bytes(t.list).len())
}

/// The dictionary.
pub open spec fn dict_region(ts: Seq<TermView>) -> Seq<u8>
    decreases ts.len(),
{
    if ts.len() == 0 {
        Seq::empty()
    } else {
        dict_region(ts.drop_last()) + dict_entry(ts.drop_last(), ts.last())
    }
}

/// A sparse entry: the first term of a block, where the block starts in the
/// dictionary, and where its lists start in the postings.
pub open spec fn sparse_bytes(term: Seq<u8>, block_off: nat, postings_off: nat) -> Seq<u8> {
    leb128((term.len() as u32) as nat) + term + leb128(block_off) + leb128(postings_off)
}

/// The sparse entry of a block that starts behind `front` with this term.
pub open spec fn sparse_entry(front: Seq<TermView>, t: TermView) -> Seq<u8> {
    sparse_bytes(t.term, dict_region(front).len(), postings_region(front).len())
}

/// The sparse entries, one a block.
pub open spec fn sparse_region(ts: Seq<TermView>) -> Seq<u8>
    decreases ts.len(),
{
    if ts.len() == 0 {
        Seq::empty()
    } else {
        let front = ts.drop_last();
        if front.len() % (BLOCK_SIZE as nat) == 0 {
            sparse_region(front) + sparse_entry(front, ts.last())
        } else {
            sparse_region(front)
        }
    }
}

/// Where each sparse entry starts.
pub open spec fn sparse_offs(ts: Seq<TermView>) -> Seq<u32>
    decreases ts.len(),
{
    if ts.len() == 0 {
        Seq::empty()
    } else {
        let front = ts.drop_last();
        if front.len() % (BLOCK_SIZE as nat) == 0 {
            sparse_offs(front).push(sparse_region(front).len() as u32)
        } else {
            sparse_offs(front)
        }
    }
}

/// 32-bit little-endian values, one behind the other.
pub open spec fn u32s_bytes(v: Seq<u32>) -> Seq<u8>
    decreases v.len(),
{
    if v.len() == 0 {
        Seq::empty()
    } else {
        u32s_bytes(v.drop_last()) + spec_u32_to_le_bytes(v.last())
    }
}

/// The table of contents of a file with these terms.
pub open spec fn toc_of(ts: Seq<TermView>) -> Toc {
    let p = postings_region(ts).len();
    let d = dict_region(ts).len();
    let x = u32s_bytes(sparse_offs(ts)).len() + sparse_region(ts).len();
    Toc {
        postings_off: HEADER_LEN as u64,
        postings_len: p as u64,
        dict_off: (HEADER_LEN + p) as u64,
        dict_len: d as u64,
        sparse_off: (HEADER_LEN + p + d) as u64,
        sparse_len: x as u64,
        num_terms: ts.len() as u64,
        num_blocks: sparse_offs(ts).len() as u32,
        block_size: BLOCK_SIZE as u32,
    }
}

/// The body of a file with these terms.
pub open spec fn idx_body(ts: Seq<TermView>) -> Seq<u8> {
    postings_region(ts) + dict_region(ts) + (u32s_bytes(sparse_offs(ts)) + sparse_region(ts))
        + toc_bytes(toc_of(ts))
}

/// The number of `(term, document)` pairs, as stored.
pub open spec fn posting_count(ts: Seq<TermView>) -> nat
    decreases ts.len(),
{
    if ts.len() == 0 {
        0
    } else {
        posting_count(ts.drop_last()) + (ts.last().list.len() as u32) as nat
    }
}

/// The number of positions.
pub open spec fn term_tokens(ts: Seq<TermView>) -> nat
    decreases ts.len(),
{
    if ts.len() == 0 {
        0
    } else {
        term_tokens(ts.drop_last()) + token_count(ts.last().list, ts.last().list.len() as int)
    }
}

/// What was written for these terms.
pub open spec fn summary_of(ts: Seq<TermView>) -> IdxSummary {
    IdxSummary {
        len: (HEADER_LEN + idx_body(ts).len() + FOOTER_LEN) as u64,
        crc: crc32(idx_body(ts)),
        num_terms: ts.len() as u64,
        num_postings: posting_count(ts) as u64,
        num_tokens: term_tokens(ts) as u64,
    }
}

fn push_sparse(out: &mut Vec<u8>, term: &[u8], block_off: u64, postings_off: u64)
    ensures
        final(out)@ == old(out)@ + sparse_bytes(term@, block_off as nat, postings_off as nat),
{
    let ghost before = out@;
    put_u32(out, term.len() as u32);
    out.extend_from_slice(term);
    put_u64(out, block_off);
    put_u64(out, postings_off);
    assert(out@ =~= before + sparse_bytes(term@, block_off as nat, postings_off as nat));
}

fn push_dict(out: &mut Vec<u8>, prev: &[u8], term: &[u8], df: u32, len: u64)
    ensures
        final(out)@ == old(out)@ + front_coded(prev@, term@, df, len as nat),
{
    let ghost before = out@;
    let prefix: usize = common_prefix(prev, term);
    proof {
        lemma_common_len(prev@, term@);
    }
    put_u32(out, prefix as u32);
    put_u32(out, (term.len() - prefix) as u32);
    let suffix = &term[prefix..term.len()];
    assert(suffix@ =~= term@.skip(prefix as int));
    out.extend_from_slice(suffix);
    put_u32(out, df);
    put_u64(out, len);
    assert(out@ =~= before + front_coded(prev@, term@, df, len as nat));
}

/// Appends a complete file for `terms` to `w`. The terms are sorted by bytes and
/// unique; an overlong one is left out. The first list the encoder refuses is
/// the error.
pub fn write<P: PostingSource>(w: Vec<u8>, terms: &[(&str, P)]) -> (r: Result<(Vec<u8>, IdxSummary)>)
    requires
        strictly_ascending(term_keys(term_views(terms@))),
    ensures
        ({
            let ts = term_views(terms@);
            match r {
                Ok((out, summary)) => write_fault(ts, 0) is None && out@ == w@ + sealed(
                    Kind::Idx,
                    idx_body(kept(ts)),
                ) && summary == summary_of(kept(ts)),
                Err(e) => write_fault(ts, 0) matches Some(msg) && e@ == FormatErrorView::Invariant(
                    msg,
                ),
            }
        }),
{
    let ghost start = w@;
    let ghost all = term_views(terms@);
    let mut w: Vec<u8> = w;
    w.extend_from_slice(&envelope::header(Kind::Idx));
    let ghost head = w@;
    let mut body = BodyWriter::new(w);
    let mut dict: Vec<u8> = Vec::new();
    let mut offsets: Vec<u32> = Vec::new();
    let mut entries: Vec<u8> = Vec::new();
    let mut buf: Vec<u8> = Vec::new();
    let mut scratch: Vec<u8> = Vec::new();
    let mut prev: &[u8] = &[];
    let mut num_terms: u64 = 0;
    let mut num_postings: u64 = 0;
    let mut num_tokens: u64 = 0;
    let mut i: usize = 0;
    proof {
        assert(all.take(0) =~= Seq::empty());
        assert(head + Seq::<u8>::empty() =~= head);
        envelope::lemma_envelope_lens(Kind::Idx, 0, 0);
    }
    while i < terms.len()
        invariant
            i <= terms@.len(),
            all == term_views(terms@),
            head == start + envelope::header_view(Kind::Idx),
            head.len() >= HEADER_LEN,
            body.wf(),
            body.written() == head + body.body(),
            body.body() == postings_region(kept(all.take(i as int))),
            dict@ == dict_region(kept(all.take(i as int))),
            entries@ == sparse_region(kept(all.take(i as int))),
            offsets@ == sparse_offs(kept(all.take(i as int))),
            num_terms == kept(all.take(i as int)).len(),
            num_postings == posting_count(kept(all.take(i as int))),
            num_tokens == term_tokens(kept(all.take(i as int))),
            num_terms <= body.body().len(),
            num_postings <= body.body().len(),
            num_tokens <= body.body().len(),
            num_terms > 0 ==> prev@ == kept(all.take(i as int)).last().term,
            write_fault(all, 0) == write_fault(all, i as int),
        decreases terms@.len() - i,
    {
        let ghost front = kept(all.take(i as int));
        let ghost t = all[i as int];
        assert(all.take(i as int + 1).drop_last() =~= all.take(i as int));
        assert(all.take(i as int + 1).last() == t);
        let term: &[u8] = terms[i].0.as_bytes();
        let list = &terms[i].1;
        assert(term@ == t.term);
        if term.len() <= MAX_TERM_BYTES {
            assert(kept(all.take(i as int + 1)) == front.push(t));
            assert(front.push(t).drop_last() =~= front);
            buf.clear();
            let tokens: u64 = list.encode(&mut buf, &mut scratch)?;
            assert(buf@ =~= list_bytes(t.list));
            let fresh: bool = num_terms % (BLOCK_SIZE as u64) == 0;
            if fresh {
                offsets.push(entries.len() as u32);
                push_sparse(&mut entries, term, dict.len() as u64, body.len());
                prev = &[];
            }
            assert(prev@ =~= prev_term(front));
            let df: u32 = list.doc_freq();
            push_dict(&mut dict, prev, term, df, buf.len() as u64);
            proof {
                lemma_list_bytes_len(t.list, t.list.len() as int);
                body.lemma_written_len();
            }
            body.write_all(buf.as_slice());
            proof {
                body.lemma_written_len();
                assert(body.written() =~= head + body.body());
            }
            prev = term;
            num_terms = num_terms + 1;
            num_postings = num_postings + df as u64;
            num_tokens = num_tokens + tokens;
        } else {
            assert(kept(all.take(i as int + 1)) == front);
        }
        i = i + 1;
    }
    assert(all.take(i as int) =~= all);
    let ghost ts = kept(all);
    proof {
        body.lemma_written_len();
    }
    let postings_len: u64 = body.len();
    let dict_off: u64 = HEADER_LEN as u64 + postings_len;
    body.write_all(dict.as_slice());
    proof {
        assert(body.written() =~= head + body.body());
        body.lemma_written_len();
    }
    let sparse_off: u64 = dict_off + dict.len() as u64;
    let mut sparse: Vec<u8> = Vec::new();
    let mut k: usize = 0;
    while k < offsets.len()
        invariant
            k <= offsets@.len(),
            sparse@ == u32s_bytes(offsets@.take(k as int)),
        decreases offsets@.len() - k,
    {
        push_u32(&mut sparse, offsets[k]);
        assert(offsets@.take(k as int + 1).drop_last() =~= offsets@.take(k as int));
        k = k + 1;
    }
    assert(offsets@.take(k as int) =~= offsets@);
    sparse.extend_from_slice(entries.as_slice());
    body.write_all(sparse.as_slice());
    let toc = Toc {
        postings_off: HEADER_LEN as u64,
        postings_len,
        dict_off,
        dict_len: dict.len() as u64,
        sparse_off,
        sparse_len: sparse.len() as u64,
        num_terms,
        num_blocks: offsets.len() as u32,
        block_size: BLOCK_SIZE as u32,
    };
    assert(toc == toc_of(ts));
    let toc_enc: Vec<u8> = toc.encode();
    body.write_all(toc_enc.as_slice());
    proof {
        assert(body.body() =~= idx_body(ts));
        assert(body.written() =~= head + body.body());
        body.lemma_written_len();
    }
    let (out, body_len, crc): (Vec<u8>, u64, u32) = body.finish();
    let mut out: Vec<u8> = out;
    out.extend_from_slice(&envelope::footer(body_len, crc));
    assert(out@ =~= start + sealed(Kind::Idx, idx_body(ts)));
    proof {
        envelope::lemma_envelope_lens(Kind::Idx, body_len, crc);
        assert(out@.len() == out.len());
    }
    let summary = IdxSummary {
        len: body_len + (HEADER_LEN + FOOTER_LEN) as u64,
        crc,
        num_terms,
        num_postings,
        num_tokens,
    };
    Ok((out, summary))
}

/// The regions tile the body of a file of this length.
pub open spec fn tiles(t: Toc, file_len: nat) -> bool {
    &&& t.postings_off == HEADER_LEN
    &&& t.postings_off + t.postings_len == t.dict_off
    &&& t.dict_off + t.dict_len == t.sparse_off
    &&& t.sparse_off + t.sparse_len == file_len - FOOTER_LEN - TOC_LEN
    &&& t.block_size == BLOCK_SIZE
    &&& t.num_blocks == (t.num_terms + 63) / 64
    &&& t.sparse_len >= 4 * t.num_blocks
}

/// What the head and table of contents of a file say: the stored checksum and
/// the regions. The checksum is not verified.
pub open spec fn parsed(s: Seq<u8>) -> Decoded<(u32, Toc)> {
    match parse_view(Kind::Idx, s) {
        Err(e) => Err(e),
        Ok(crc) => {
            let len = s.len() - HEADER_LEN - FOOTER_LEN;
            let toc = toc_in(s, s.len() - FOOTER_LEN - TOC_LEN);
            if len < TOC_LEN {
                Err(FormatErrorView::Truncated { at: len, needed: TOC_LEN as int })
            } else if !tiles(toc, s.len()) {
                corrupt_view("idx TOC regions do not tile the body"@)
            } else {
                Ok((crc, toc))
            }
        },
    }
}

/// The sparse entry of block `b`: first term, start in the dictionary, start in
/// the postings.
pub open spec fn sparse_at(s: Seq<u8>, t: Toc, b: int) -> Decoded<(Seq<u8>, nat, nat)> {
    let end = t.sparse_off + t.sparse_len;
    let at = t.sparse_off + 4 * t.num_blocks + u32_at(s, t.sparse_off + 4 * b);
    if at >= end {
        corrupt_view("sparse entry offset out of range"@)
    } else {
        let n = varint32_at(s, at);
        match n.0 {
            Err(e) => Err(e),
            Ok(len) => match slice_view(s, n.1, len as int) {
                Err(e) => Err(e),
                Ok(term) => {
                    let bo = varint_at(s, n.1 + len);
                    let po = varint_at(s, bo.1);
                    match (bo.0, po.0) {
                        (Err(e), _) => Err(e),
                        (_, Err(e)) => Err(e),
                        (Ok(block_off), Ok(postings_off)) => if po.1 > end {
                            corrupt_view("sparse entry overruns region"@)
                        } else {
                            Ok((term, block_off, postings_off))
                        },
                    }
                },
            },
        }
    }
}

/// A place in the front-coded scan of a block.
pub ghost struct Scan {
    pub pos: int,
    pub remaining: nat,
    pub term: Seq<u8>,
    pub postings_pos: nat,
}

/// A decoded dictionary entry.
pub ghost struct DictEntry {
    pub term: Seq<u8>,
    pub doc_freq: u32,
    pub postings_off: nat,
    pub postings_len: nat,
}

/// The end of the dictionary.
pub open spec fn dict_end(t: Toc) -> int {
    t.dict_off + t.dict_len
}

/// The next entry of a scan and the place behind it, or `None` at the end of
/// the block.
pub open spec fn next_at(s: Seq<u8>, end: int, sc: Scan) -> Decoded<Option<(DictEntry, Scan)>> {
    if sc.remaining == 0 {
        Ok(None)
    } else {
        let p = varint32_at(s, sc.pos);
        let x = varint32_at(s, p.1);
        match (p.0, x.0) {
            (Err(e), _) => Err(e),
            (_, Err(e)) => Err(e),
            (Ok(prefix), Ok(len)) => if prefix > sc.term.len() {
                corrupt_view("front-coding prefix longer than previous term"@)
            } else {
                match slice_view(s, x.1, len as int) {
                    Err(e) => Err(e),
                    Ok(suffix) => {
                        let df = varint32_at(s, x.1 + len);
                        let pl = varint_at(s, df.1);
                        match (df.0, pl.0) {
                            (Err(e), _) => Err(e),
                            (_, Err(e)) => Err(e),
                            (Ok(doc_freq), Ok(plen)) => if pl.1 > end {
                                corrupt_view("dictionary entry overruns region"@)
                            } else if sc.postings_pos + plen > u64::MAX {
                                corrupt_view("postings offset overflow"@)
                            } else {
                                let term = sc.term.take(prefix as int) + suffix;
                                Ok(
                                    Some(
                                        (
                                            DictEntry {
                                                term,
                                                doc_freq: doc_freq as u32,
                                                postings_off: sc.postings_pos,
                                                postings_len: plen,
                                            },
                                            Scan {
                                                pos: pl.1,
                                                remaining: (sc.remaining - 1) as nat,
                                                term,
                                                postings_pos: sc.postings_pos + plen,
                                            },
                                        ),
                                    ),
                                )
                            },
                        }
                    },
                }
            },
        }
    }
}

/// How many terms block `b` holds.
pub open spec fn block_terms(t: Toc, b: int) -> int {
    if t.num_terms - b * BLOCK_SIZE < BLOCK_SIZE {
        t.num_terms - b * BLOCK_SIZE
    } else {
        BLOCK_SIZE as int
    }
}

/// The start of the scan of block `b`.
pub open spec fn block_at(s: Seq<u8>, t: Toc, b: int) -> Decoded<Scan> {
    match sparse_at(s, t, b) {
        Err(e) => Err(e),
        Ok((_, block_off, postings_rel)) => if t.dict_off + block_off > dict_end(t) {
            corrupt_view("block offset outside dictionary"@)
        } else if t.postings_off + postings_rel > u64::MAX {
            corrupt_view("postings offset overflow"@)
        } else {
            Ok(
                Scan {
                    pos: t.dict_off + block_off,
                    remaining: block_terms(t, b) as nat,
                    term: Seq::empty(),
                    postings_pos: (t.postings_off + postings_rel) as nat,
                },
            )
        },
    }
}

/// The encoded list at this place of the file, which lies in the postings
/// region.
pub open spec fn postings_in(s: Seq<u8>, t: Toc, off: nat, len: nat) -> Decoded<Seq<u8>> {
    if off + len > u64::MAX {
        corrupt_view("postings offset overflow"@)
    } else if off + len > t.postings_off + t.postings_len {
        corrupt_view("posting list extends past the postings region"@)
    } else {
        Ok(s.subrange(off as int, (off + len) as int))
    }
}

/// Binary search for the first block whose first term comes after `target`.
pub open spec fn block_search(s: Seq<u8>, t: Toc, target: Seq<u8>, lo: int, hi: int) -> Decoded<int>
    decreases hi - lo,
{
    if lo >= hi {
        Ok(lo)
    } else {
        let mid = lo + (hi - lo) / 2;
        match sparse_at(s, t, mid) {
            Err(e) => Err(e),
            Ok((first, _, _)) => if bytes_le(first, target) {
                block_search(s, t, target, mid + 1, hi)
            } else {
                block_search(s, t, target, lo, mid)
            },
        }
    }
}

/// The list of `target` among the entries from a place on: its encoding and
/// document count.
pub open spec fn find_from(s: Seq<u8>, t: Toc, target: Seq<u8>, sc: Scan) -> Decoded<
    Option<(Seq<u8>, u32)>,
>
    decreases sc.remaining,
{
    match next_at(s, dict_end(t), sc) {
        Err(e) => Err(e),
        Ok(None) => Ok(None),
        Ok(Some((e, next))) => if e.term == target {
            match postings_in(s, t, e.postings_off, e.postings_len) {
                Err(err) => Err(err),
                Ok(data) => Ok(Some((data, e.doc_freq))),
            }
        } else if bytes_lt(e.term, target) && next.remaining < sc.remaining {
            find_from(s, t, target, next)
        } else {
            Ok(None)
        },
    }
}

/// Looking a term up: the only block that can hold it, then a scan of that
/// block.
pub open spec fn lookup_at(s: Seq<u8>, t: Toc, target: Seq<u8>) -> Decoded<
    Option<(Seq<u8>, u32)>,
> {
    match block_search(s, t, target, 0, t.num_blocks as int) {
        Err(e) => Err(e),
        Ok(b) => if b == 0 {
            Ok(None)
        } else {
            match block_at(s, t, b - 1) {
                Err(e) => Err(e),
                Ok(sc) => find_from(s, t, target, sc),
            }
        },
    }
}

/// What a full check has seen so far: how many terms, the last of them, and
/// where the next list starts.
pub ghost struct TallyView {
    pub count: nat,
    pub prev: Option<Seq<u8>>,
    pub expected: nat,
}

/// The tally before the first block.
pub open spec fn start_tally(t: Toc) -> TallyView {
    TallyView { count: 0, prev: None, expected: t.postings_off as nat }
}

/// A message about a block.
pub open spec fn block_msg(b: int, rest: Seq<char>) -> Seq<char> {
    "block "@ + decimal(b as nat) + rest
}

/// The message for a term that does not come after the one before.
pub open spec fn order_msg(term: Seq<u8>) -> Seq<char> {
    "terms out of order at "@ + debug_text(utf8_lossy(term))
}

/// Where the scan of a block ends.
pub open spec fn scan_end(s: Seq<u8>, end: int, sc: Scan) -> Decoded<int>
    decreases sc.remaining,
{
    match next_at(s, end, sc) {
        Err(e) => Err(e),
        Ok(None) => Ok(sc.pos),
        Ok(Some((_, next))) => if next.remaining < sc.remaining {
            scan_end(s, end, next)
        } else {
            Ok(sc.pos)
        },
    }
}

/// The check of the entries of block `b` from number `k` on.
pub open spec fn entries_checked(
    s: Seq<u8>,
    t: Toc,
    b: int,
    first: Seq<u8>,
    k: int,
    sc: Scan,
    tally: TallyView,
) -> Decoded<TallyView>
    decreases sc.remaining,
{
    match next_at(s, dict_end(t), sc) {
        Err(e) => Err(e),
        Ok(None) => Ok(tally),
        Ok(Some((e, next))) => if k == 0 && e.term != first {
            corrupt_view(block_msg(b, ": sparse term differs from first entry"@))
        } else if tally.prev matches Some(p) && !bytes_lt(p, e.term) {
            corrupt_view(order_msg(e.term))
        } else if !valid_utf8(e.term) {
            corrupt_view("term is not UTF-8"@)
        } else {
            match postings_in(s, t, e.postings_off, e.postings_len) {
                Err(err) => Err(err),
                Ok(data) => match checked_list(data, e.doc_freq) {
                    Err(err) => Err(err),
                    Ok(_) => {
                        let after = TallyView {
                            count: tally.count + 1,
                            prev: Some(e.term),
                            expected: e.postings_off + e.postings_len,
                        };
                        if next.remaining < sc.remaining {
                            entries_checked(s, t, b, first, k + 1, next, after)
                        } else {
                            Ok(after)
                        }
                    },
                },
            }
        },
    }
}

/// The check of block `b`: its sparse entry against what came before, then its
/// entries.
pub open spec fn block_checked(s: Seq<u8>, t: Toc, b: int, tally: TallyView) -> Decoded<TallyView> {
    match sparse_at(s, t, b) {
        Err(e) => Err(e),
        Ok((first, block_off, postings_rel)) => if t.postings_off + postings_rel
            != tally.expected {
            corrupt_view(block_msg(b, ": sparse postings_off disagrees with running total"@))
        } else {
            match block_at(s, t, b) {
                Err(e) => Err(e),
                Ok(sc) => if b > 0 {
                    match block_at(s, t, b - 1) {
                        Err(e) => Err(e),
                        Ok(before) => match scan_end(s, dict_end(t), before) {
                            Err(e) => Err(e),
                            Ok(end) => if end != t.dict_off + block_off {
                                corrupt_view(
                                    block_msg(b, ": block_off disagrees with previous block end"@),
                                )
                            } else {
                                entries_checked(s, t, b, first, 0, sc, tally)
                            },
                        },
                    }
                } else {
                    entries_checked(s, t, b, first, 0, sc, tally)
                },
            }
        },
    }
}

/// The check of the blocks from `b` on.
pub open spec fn blocks_from(s: Seq<u8>, t: Toc, b: int, tally: TallyView) -> Decoded<TallyView>
    decreases t.num_blocks - b,
{
    if b >= t.num_blocks {
        Ok(tally)
    } else {
        match block_checked(s, t, b, tally) {
            Err(e) => Err(e),
            Ok(after) => blocks_from(s, t, b + 1, after),
        }
    }
}

/// The full check of a file.
pub open spec fn verified(s: Seq<u8>, t: Toc, crc: u32) -> Decoded<()> {
    if crc32(body_of(s)) != crc {
        Err(FormatErrorView::Checksum { stored: crc, computed: crc32(body_of(s)) })
    } else {
        match blocks_from(s, t, 0, start_tally(t)) {
            Err(e) => Err(e),
            Ok(tally) => if tally.count != t.num_terms {
                corrupt_view("num_terms disagrees with dictionary"@)
            } else if tally.expected != t.postings_off + t.postings_len {
                corrupt_view("postings region has trailing bytes"@)
            } else {
                Ok(())
            },
        }
    }
}

/// Front-coded scan of one dictionary block.
struct BlockScan<'a> {
    bytes: &'a [u8],
    pos: usize,
    end: usize,
    remaining: usize,
    term: Vec<u8>,
    postings_pos: u64,
}

struct Hit {
    doc_freq: u32,
    postings_off: u64,
    postings_len: u64,
}

impl<'a> BlockScan<'a> {
    spec fn place(&self) -> Scan {
        Scan {
            pos: self.pos as int,
            remaining: self.remaining as nat,
            term: self.term@,
            postings_pos: self.postings_pos as nat,
        }
    }

    spec fn wf(&self) -> bool {
        self.pos <= self.bytes@.len()
    }

    fn next_entry(&mut self) -> (r: Result<Option<Hit>>)
        requires
            old(self).wf(),
        ensures
            final(self).wf(),
            final(self).bytes@ == old(self).bytes@,
            final(self).end == old(self).end,
            final(self).remaining <= old(self).remaining,
            match r {
                Ok(Some(h)) => next_at(old(self).bytes@, old(self).end as int, old(self).place())
                    == Ok::<_, FormatErrorView>(
                    Some(
                        (
                            DictEntry {
                                term: final(self).term@,
                                doc_freq: h.doc_freq,
                                postings_off: h.postings_off as nat,
                                postings_len: h.postings_len as nat,
                            },
                            final(self).place(),
                        ),
                    ),
                ),
                Ok(None) => next_at(old(self).bytes@, old(self).end as int, old(self).place())
                    == Ok::<_, FormatErrorView>(None::<(DictEntry, Scan)>) && final(self).place()
                    == old(self).place(),
                Err(e) => next_at(old(self).bytes@, old(self).end as int, old(self).place())
                    == Err::<Option<(DictEntry, Scan)>, _>(e@),
            },
    {
        if self.remaining == 0 {
            return Ok(None);
        }
        let bytes = self.bytes;
        let mut pos: usize = self.pos;
        proof {
            let s = bytes@;
            lemma_varint_bounds(s, pos as int);
            let p = varint32_at(s, pos as int);
            lemma_varint_bounds(s, p.1);
            let x = varint32_at(s, p.1);
            if let Ok(len) = x.0 {
                lemma_varint_bounds(s, x.1 + len);
                let df = varint32_at(s, x.1 + len);
                lemma_varint_bounds(s, df.1);
            }
        }
        let prefix: u32 = read_u32(bytes, &mut pos)?;
        let suffix_len: u32 = read_u32(bytes, &mut pos)?;
        if prefix as u64 > self.term.len() as u64 {
            return Err(FormatError::corrupt("front-coding prefix longer than previous term"));
        }
        let suffix = slice(bytes, pos, suffix_len as usize)?;
        assert(bytes@.len() == bytes.len());
        pos = pos + suffix_len as usize;
        let doc_freq: u32 = read_u32(bytes, &mut pos)?;
        let postings_len: u64 = read_u64(bytes, &mut pos)?;
        if pos > self.end {
            return Err(FormatError::corrupt("dictionary entry overruns region"));
        }
        let postings_off: u64 = self.postings_pos;
        if postings_len > u64::MAX - postings_off {
            return Err(FormatError::corrupt("postings offset overflow"));
        }
        self.pos = pos;
        self.term.truncate(prefix as usize);
        self.term.extend_from_slice(suffix);
        assert(self.term@ =~= old(self).term@.take(prefix as int) + suffix@);
        self.postings_pos = postings_off + postings_len;
        self.remaining = self.remaining - 1;
        Ok(Some(Hit { doc_freq, postings_off, postings_len }))
    }

    fn pos_after_block(self) -> (r: Result<usize>)
        requires
            self.wf(),
        ensures
            match r {
                Ok(p) => scan_end(self.bytes@, self.end as int, self.place()) == Ok::<
                    _,
                    FormatErrorView,
                >(p as int),
                Err(e) => scan_end(self.bytes@, self.end as int, self.place()) == Err::<int, _>(e@),
            },
    {
        let mut scan = self;
        let ghost want = scan_end(self.bytes@, self.end as int, self.place());
        loop
            invariant
                scan.wf(),
                scan.bytes@ == self.bytes@,
                scan.end == self.end,
                want == scan_end(self.bytes@, self.end as int, self.place()),
                want == scan_end(scan.bytes@, scan.end as int, scan.place()),
            decreases scan.remaining,
        {
            match scan.next_entry()? {
                None => {
                    return Ok(scan.pos);
                },
                Some(_) => {},
            }
        }
    }
}

struct Tally {
    count: u64,
    prev: Option<Vec<u8>>,
    expected: u64,
}

impl Tally {
    spec fn value(&self) -> TallyView {
        TallyView {
            count: self.count as nat,
            prev: match self.prev {
                Some(p) => Some(p@),
                None => None,
            },
            expected: self.expected as nat,
        }
    }
}

fn block_text(b: usize, rest: &str) -> (msg: String)
    ensures
        msg@ == block_msg(b as int, rest@),
{
    let mut msg = "block ".to_string();
    push_decimal(&mut msg, b as u64);
    msg.push_str(rest);
    msg
}

fn order_text(term: &[u8]) -> (msg: String)
    ensures
        msg@ == order_msg(term@),
{
    let mut msg = "terms out of order at ".to_string();
    let shown: String = lossy_string(term);
    let quoted: String = debug_string(shown.as_str());
    msg.push_str(quoted.as_str());
    msg
}

/// Zero-copy view over a complete file.
#[derive(Debug)]
pub struct IdxView<'a> {
    bytes: &'a [u8],
    env: Envelope,
    toc: Toc,
}

impl<'a> Clone for IdxView<'a> {
    fn clone(&self) -> (r: Self)
        ensures
            r == *self,
    {
        IdxView { bytes: self.bytes, env: self.env.clone(), toc: self.toc }
    }
}

impl<'a> IdxView<'a> {
    /// The file under the view.
    pub closed spec fn file(&self) -> Seq<u8> {
        self.bytes@
    }

    /// The regions.
    pub closed spec fn regions(&self) -> Toc {
        self.toc
    }

    /// The stored checksum.
    pub closed spec fn stored_crc(&self) -> u32 {
        self.env.crc
    }

    /// The view is what parsing its file gives.
    pub closed spec fn wf(&self) -> bool {
        &&& parsed(self.bytes@) == Ok::<_, FormatErrorView>((self.env.crc, self.toc))
        &&& envelope_of(self.env, self.bytes@, self.env.crc)
    }

    /// What well-formedness says of the file.
    pub proof fn lemma_wf(&self)
        requires
            self.wf(),
        ensures
            parsed(self.file()) == Ok::<_, FormatErrorView>((self.stored_crc(), self.regions())),
            tiles(self.regions(), self.file().len()),
    {
    }

    /// Envelope, table of contents and region checks; no checksum, no walk of
    /// the dictionary.
    pub fn parse(bytes: &'a [u8]) -> (r: Result<Self>)
        ensures
            match r {
                Ok(v) => v.wf() && v.file() == bytes@ && parsed(bytes@) == Ok::<_, FormatErrorView>(
                    (v.stored_crc(), v.regions()),
                ),
                Err(e) => parsed(bytes@) == Err::<(u32, Toc), _>(e@),
            },
    {
        let env = envelope::parse(Kind::Idx, bytes)?;
        let len: usize = env.body.end - env.body.start;
        if len < TOC_LEN {
            return Err(FormatError::Truncated { at: len, needed: TOC_LEN });
        }
        let toc_at: usize = env.body.end - TOC_LEN;
        let toc = Toc::decode(bytes, toc_at);
        let whole: u64 = toc.num_terms / 64;
        let blocks: u64 = if toc.num_terms % 64 == 0 {
            whole
        } else {
            whole + 1
        };
        let ok: bool = toc.postings_off == HEADER_LEN as u64 && toc.dict_off >= toc.postings_off
            && toc.dict_off - toc.postings_off == toc.postings_len && toc.sparse_off >= toc.dict_off
            && toc.sparse_off - toc.dict_off == toc.dict_len && toc_at as u64 >= toc.sparse_off
            && toc_at as u64 - toc.sparse_off == toc.sparse_len && toc.block_size
            == BLOCK_SIZE as u32 && toc.num_blocks as u64 == blocks && toc.sparse_len >= 4
            * toc.num_blocks as u64;
        assert(ok == tiles(toc, bytes@.len()));
        if !ok {
            return Err(FormatError::corrupt("idx TOC regions do not tile the body"));
        }
        Ok(IdxView { bytes, env, toc })
    }

    /// Rebuilds a view from parts that an earlier [`IdxView::parse`] validated.
    pub fn from_parts(bytes: &'a [u8], env: Envelope, toc: Toc) -> (v: Self)
        requires
            parsed(bytes@) == Ok::<_, FormatErrorView>((env.crc, toc)),
            envelope_of(env, bytes@, env.crc),
        ensures
            v.wf(),
            v.file() == bytes@,
            v.regions() == toc,
            v.stored_crc() == env.crc,
    {
        IdxView { bytes, env, toc }
    }

    /// Where the body lies, and its stored checksum.
    pub fn envelope(&self) -> (e: &Envelope)
        requires
            self.wf(),
        ensures
            envelope_of(*e, self.file(), self.stored_crc()),
    {
        &self.env
    }

    pub fn crc(&self) -> (c: u32)
        ensures
            c == self.stored_crc(),
    {
        self.env.crc
    }

    pub fn toc(&self) -> (t: &Toc)
        ensures
            *t == self.regions(),
    {
        &self.toc
    }

    pub fn num_terms(&self) -> (n: u64)
        ensures
            n == self.regions().num_terms,
    {
        self.toc.num_terms
    }

    fn sparse_entry(&self, b: usize) -> (r: Result<(&'a [u8], u64, u64)>)
        requires
            self.wf(),
            b < self.toc.num_blocks,
        ensures
            match r {
                Ok((term, block_off, postings_off)) => sparse_at(self.bytes@, self.toc, b as int)
                    == Ok::<_, FormatErrorView>(
                    (term@, block_off as nat, postings_off as nat),
                ),
                Err(e) => sparse_at(self.bytes@, self.toc, b as int) == Err::<
                    (Seq<u8>, nat, nat),
                    _,
                >(e@),
            },
    {
        let bytes = self.bytes;
        assert(bytes@.len() == bytes.len());
        let table: usize = self.toc.sparse_off as usize;
        let off: u32 = u32_of(bytes, table + 4 * b);
        let entries: usize = table + 4 * self.toc.num_blocks as usize;
        let end: usize = (self.toc.sparse_off + self.toc.sparse_len) as usize;
        if off as u64 >= (end - entries) as u64 {
            return Err(FormatError::corrupt("sparse entry offset out of range"));
        }
        let mut pos: usize = entries + off as usize;
        proof {
            let s = bytes@;
            lemma_varint_bounds(s, pos as int);
            let n = varint32_at(s, pos as int);
            if let Ok(len) = n.0 {
                lemma_varint_bounds(s, n.1 + len);
                let bo = varint_at(s, n.1 + len);
                lemma_varint_bounds(s, bo.1);
            }
        }
        let term_len: u32 = read_u32(bytes, &mut pos)?;
        let term = slice(bytes, pos, term_len as usize)?;
        pos = pos + term_len as usize;
        let block_off: u64 = read_u64(bytes, &mut pos)?;
        let postings_off: u64 = read_u64(bytes, &mut pos)?;
        if pos > end {
            return Err(FormatError::corrupt("sparse entry overruns region"));
        }
        Ok((term, block_off, postings_off))
    }

    fn block(&self, b: usize) -> (r: Result<BlockScan<'a>>)
        requires
            self.wf(),
            b < self.toc.num_blocks,
        ensures
            match r {
                Ok(sc) => sc.wf() && sc.bytes@ == self.bytes@ && sc.end == dict_end(self.toc)
                    && block_at(self.bytes@, self.toc, b as int) == Ok::<_, FormatErrorView>(
                    sc.place(),
                ) && sc.remaining <= BLOCK_SIZE,
                Err(e) => block_at(self.bytes@, self.toc, b as int) == Err::<Scan, _>(e@),
            },
    {
        let (_, block_off, postings_rel): (&[u8], u64, u64) = self.sparse_entry(b)?;
        if block_off > self.toc.dict_len {
            return Err(FormatError::corrupt("block offset outside dictionary"));
        }
        if postings_rel > u64::MAX - self.toc.postings_off {
            return Err(FormatError::corrupt("postings offset overflow"));
        }
        let bytes = self.bytes;
        assert(bytes@.len() == bytes.len());
        let start: usize = (self.toc.dict_off + block_off) as usize;
        let end: usize = (self.toc.dict_off + self.toc.dict_len) as usize;
        let left: u64 = self.toc.num_terms - b as u64 * BLOCK_SIZE as u64;
        let remaining: usize = if left < BLOCK_SIZE as u64 {
            left as usize
        } else {
            BLOCK_SIZE
        };
        let term: Vec<u8> = Vec::new();
        assert(term@ =~= Seq::empty());
        Ok(
            BlockScan {
                bytes,
                pos: start,
                end,
                remaining,
                term,
                postings_pos: self.toc.postings_off + postings_rel,
            },
        )
    }

    fn postings_at(&self, off: u64, len: u64, doc_freq: u32) -> (r: Result<DiskPostingList<'a>>)
        requires
            self.wf(),
        ensures
            match r {
                Ok(l) => postings_in(self.bytes@, self.toc, off as nat, len as nat) == Ok::<
                    _,
                    FormatErrorView,
                >(l.data@) && l.doc_freq == doc_freq,
                Err(e) => postings_in(self.bytes@, self.toc, off as nat, len as nat) == Err::<
                    Seq<u8>,
                    _,
                >(e@),
            },
    {
        if len > u64::MAX - off {
            return Err(FormatError::corrupt("postings offset overflow"));
        }
        let end: u64 = off + len;
        if end > self.toc.postings_off + self.toc.postings_len {
            return Err(FormatError::corrupt("posting list extends past the postings region"));
        }
        let bytes = self.bytes;
        assert(bytes@.len() == bytes.len());
        Ok(DiskPostingList { data: &bytes[off as usize..end as usize], doc_freq })
    }

    /// Dictionary lookup: binary search over the first terms of the blocks, then
    /// a scan of one block. `None` on absence; bytes that cannot be decoded are
    /// absence too.
    pub fn lookup(&self, term: &str) -> (r: Option<DiskPostingList<'a>>)
        requires
            self.wf(),
        ensures
            ({
                let want = lookup_at(self.file(), self.regions(), encode_utf8(term@));
                match r {
                    Some(l) => want == Ok::<_, FormatErrorView>(Some((l.data@, l.doc_freq))),
                    None => want is Err || want == Ok::<_, FormatErrorView>(
                        None::<(Seq<u8>, u32)>,
                    ),
                }
            }),
    {
        match self.lookup_inner(term.as_bytes()) {
            Ok(r) => r,
            Err(_) => None,
        }
    }

    fn lookup_inner(&self, target: &[u8]) -> (r: Result<Option<DiskPostingList<'a>>>)
        requires
            self.wf(),
        ensures
            ({
                let want = lookup_at(self.bytes@, self.toc, target@);
                match r {
                    Ok(Some(l)) => want == Ok::<_, FormatErrorView>(
                        Some((l.data@, l.doc_freq)),
                    ),
                    Ok(None) => want == Ok::<_, FormatErrorView>(None::<(Seq<u8>, u32)>),
                    Err(e) => want == Err::<Option<(Seq<u8>, u32)>, _>(e@),
                }
            }),
    {
        let mut lo: usize = 0;
        let mut hi: usize = self.toc.num_blocks as usize;
        while lo < hi
            invariant
                self.wf(),
                lo <= hi <= self.toc.num_blocks,
                block_search(self.bytes@, self.toc, target@, 0, self.toc.num_blocks as int)
                    == block_search(self.bytes@, self.toc, target@, lo as int, hi as int),
            decreases hi - lo,
        {
            let mid: usize = lo + (hi - lo) / 2;
            let (first, _, _): (&[u8], u64, u64) = self.sparse_entry(mid)?;
            match byte_order(first, target) {
                ByteOrder::Greater => {
                    proof {
                        lemma_total(target@, first@);
                    }
                    hi = mid;
                },
                _ => {
                    lo = mid + 1;
                },
            }
        }
        if lo == 0 {
            return Ok(None);
        }
        let mut block = self.block(lo - 1)?;
        loop
            invariant
                self.wf(),
                block.wf(),
                block.bytes@ == self.bytes@,
                block.end == dict_end(self.toc),
                lookup_at(self.bytes@, self.toc, target@) == find_from(
                    self.bytes@,
                    self.toc,
                    target@,
                    block.place(),
                ),
            decreases block.remaining,
        {
            match block.next_entry()? {
                None => {
                    return Ok(None);
                },
                Some(h) => {
                    match byte_order(block.term.as_slice(), target) {
                        ByteOrder::Less => {
                            proof {
                                lemma_total(block.term@, target@);
                            }
                        },
                        ByteOrder::Equal => {
                            let list = self.postings_at(h.postings_off, h.postings_len, h.doc_freq)?;
                            return Ok(Some(list));
                        },
                        ByteOrder::Greater => {
                            proof {
                                lemma_total(target@, block.term@);
                            }
                            return Ok(None);
                        },
                    }
                },
            }
        }
    }

    /// Every term in order.
    pub fn terms(&self) -> (it: TermIter<'a>)
        requires
            self.wf(),
        ensures
            it.wf(),
            it.over() == (self.file(), self.regions()),
            it.state() == (TermState { block: 0, scan: None }),
    {
        TermIter { view: self.clone(), block: 0, scan: None }
    }

    /// Full check: checksum, then every block, entry, sparse entry and posting
    /// list is decoded and cross-checked.
    pub fn verify(&self) -> (r: Result<()>)
        requires
            self.wf(),
        ensures
            match r {
                Ok(_) => verified(self.file(), self.regions(), self.stored_crc()) is Ok,
                Err(e) => verified(self.file(), self.regions(), self.stored_crc()) == Err::<(), _>(
                    e@,
                ),
            },
    {
        envelope::verify_crc(self.bytes, &self.env)?;
        let mut tally = Tally { count: 0, prev: None, expected: self.toc.postings_off };
        let mut b: usize = 0;
        while b < self.toc.num_blocks as usize
            invariant
                self.wf(),
                crc32(body_of(self.bytes@)) == self.env.crc,
                b <= self.toc.num_blocks,
                tally.count <= 64 * b,
                blocks_from(self.bytes@, self.toc, 0, start_tally(self.toc)) == blocks_from(
                    self.bytes@,
                    self.toc,
                    b as int,
                    tally.value(),
                ),
            decreases self.toc.num_blocks - b,
        {
            self.verify_block(b, &mut tally)?;
            b = b + 1;
        }
        if tally.count != self.toc.num_terms {
            return Err(FormatError::corrupt("num_terms disagrees with dictionary"));
        }
        if tally.expected != self.toc.postings_off + self.toc.postings_len {
            return Err(FormatError::corrupt("postings region has trailing bytes"));
        }
        Ok(())
    }

    fn verify_block(&self, b: usize, tally: &mut Tally) -> (r: Result<()>)
        requires
            self.wf(),
            b < self.toc.num_blocks,
            old(tally).count <= 64 * b,
        ensures
            final(tally).count <= 64 * (b + 1),
            match r {
                Ok(_) => block_checked(self.bytes@, self.toc, b as int, old(tally).value()) == Ok::<
                    _,
                    FormatErrorView,
                >(final(tally).value()),
                Err(e) => block_checked(self.bytes@, self.toc, b as int, old(tally).value())
                    == Err::<TallyView, _>(e@),
            },
    {
        let (first, block_off, postings_rel): (&[u8], u64, u64) = self.sparse_entry(b)?;
        if postings_rel > u64::MAX - self.toc.postings_off || self.toc.postings_off + postings_rel
            != tally.expected {
            return Err(
                FormatError::Corrupt(
                    block_text(b, ": sparse postings_off disagrees with running total"),
                ),
            );
        }
        let mut scan = self.block(b)?;
        if b > 0 {
            let before = self.block(b - 1)?;
            let end: usize = before.pos_after_block()?;
            if end as u64 != self.toc.dict_off + block_off {
                return Err(
                    FormatError::Corrupt(
                        block_text(b, ": block_off disagrees with previous block end"),
                    ),
                );
            }
        }
        let ghost start = tally.value();
        let ghost want = entries_checked(
            self.bytes@,
            self.toc,
            b as int,
            first@,
            0,
            scan.place(),
            start,
        );
        let mut k: usize = 0;
        loop
            invariant
                self.wf(),
                scan.wf(),
                scan.bytes@ == self.bytes@,
                scan.end == dict_end(self.toc),
                b < self.toc.num_blocks,
                k + scan.remaining <= 64,
                tally.count <= 64 * b + k,
                block_checked(self.bytes@, self.toc, b as int, old(tally).value()) == want,
                want == entries_checked(
                    self.bytes@,
                    self.toc,
                    b as int,
                    first@,
                    k as int,
                    scan.place(),
                    tally.value(),
                ),
            decreases scan.remaining,
        {
            match scan.next_entry()? {
                None => {
                    return Ok(());
                },
                Some(h) => {
                    let term = scan.term.as_slice();
                    if k == 0 && !envelope::bytes_equal(term, first) {
                        return Err(
                            FormatError::Corrupt(
                                block_text(b, ": sparse term differs from first entry"),
                            ),
                        );
                    }
                    if let Some(p) = &tally.prev {
                        match byte_order(p.as_slice(), term) {
                            ByteOrder::Less => {
                            },
                            _ => {
                                proof {
                                    lemma_total(term@, p@);
                                }
                                return Err(FormatError::Corrupt(order_text(term)));
                            },
                        }
                    }
                    if utf8_str(term).is_err() {
                        return Err(FormatError::corrupt("term is not UTF-8"));
                    }
                    let list = self.postings_at(h.postings_off, h.postings_len, h.doc_freq)?;
                    list.verify()?;
                    tally.prev = Some(slice_to_vec(term));
                    tally.count = tally.count + 1;
                    tally.expected = h.postings_off + h.postings_len;
                    k = k + 1;
                },
            }
        }
    }
}

/// Where an iteration over the terms stands: the next block to open, and the
/// scan of the open one.
pub ghost struct TermState {
    pub block: int,
    pub scan: Option<Scan>,
}

/// The next term of an iteration: `(term, document count, encoded list)`, and
/// the state behind it.
pub open spec fn term_next(s: Seq<u8>, t: Toc, st: TermState) -> Decoded<
    Option<((Seq<char>, u32, Seq<u8>), TermState)>,
>
    decreases
            t.num_blocks - st.block,
            if st.scan is Some {
                1int
            } else {
                0int
            },
{
    match st.scan {
        None => if st.block >= t.num_blocks {
            Ok(None)
        } else {
            match block_at(s, t, st.block) {
                Err(e) => Err(e),
                Ok(sc) => term_next(s, t, TermState { block: st.block + 1, scan: Some(sc) }),
            }
        },
        Some(sc) => match next_at(s, dict_end(t), sc) {
            Err(e) => Err(e),
            Ok(None) => term_next(s, t, TermState { block: st.block, scan: None }),
            Ok(Some((e, next))) => if !valid_utf8(e.term) {
                corrupt_view("term is not UTF-8"@)
            } else {
                match postings_in(s, t, e.postings_off, e.postings_len) {
                    Err(err) => Err(err),
                    Ok(data) => Ok(
                        Some(
                            (
                                (decode_utf8(e.term), e.doc_freq, data),
                                TermState { block: st.block, scan: Some(next) },
                            ),
                        ),
                    ),
                }
            },
        },
    }
}

/// How far an iteration has to go in its block.
pub open spec fn scan_left(st: TermState) -> int {
    match st.scan {
        Some(sc) => sc.remaining as int + 1,
        None => 0,
    }
}

/// Every step of an iteration leaves less to do.
pub proof fn lemma_term_next_advances(s: Seq<u8>, t: Toc, st: TermState)
    ensures
        term_next(s, t, st) matches Ok(Some((_, next))) ==> {
            ||| st.block < next.block <= t.num_blocks
            ||| next.block == st.block && scan_left(next) < scan_left(st)
        },
    decreases
            t.num_blocks - st.block,
            if st.scan is Some {
                1int
            } else {
                0int
            },
{
    match st.scan {
        None => if st.block < t.num_blocks {
            if let Ok(sc) = block_at(s, t, st.block) {
                lemma_term_next_advances(s, t, TermState { block: st.block + 1, scan: Some(sc) });
            }
        },
        Some(sc) => {
            if next_at(s, dict_end(t), sc) == Ok::<_, FormatErrorView>(
                None::<(DictEntry, Scan)>,
            ) {
                lemma_term_next_advances(s, t, TermState { block: st.block, scan: None });
            }
        },
    }
}

/// The terms from this state of an iteration on.
pub open spec fn terms_from(s: Seq<u8>, t: Toc, st: TermState) -> Decoded<
    Seq<(Seq<char>, u32, Seq<u8>)>,
>
    decreases t.num_blocks - st.block, scan_left(st),
{
    proof {
        lemma_term_next_advances(s, t, st);
    }
    match term_next(s, t, st) {
        Err(e) => Err(e),
        Ok(None) => Ok(Seq::empty()),
        Ok(Some((item, next))) => match terms_from(s, t, next) {
            Err(e) => Err(e),
            Ok(rest) => Ok(seq![item] + rest),
        },
    }
}

/// Every term of a file with its document count and its encoded list, in the
/// order of the file.
pub open spec fn all_terms(s: Seq<u8>, t: Toc) -> Decoded<Seq<(Seq<char>, u32, Seq<u8>)>> {
    terms_from(s, t, TermState { block: 0, scan: None })
}

/// Terms with their lists, by value.
pub open spec fn item_views(items: Seq<(String, u32, DiskPostingList<'_>)>) -> Seq<
    (Seq<char>, u32, Seq<u8>),
> {
    Seq::new(items.len(), |i: int| (items[i].0@, items[i].1, items[i].2.data@))
}

/// Iteration over every term of a file.
pub struct TermIter<'a> {
    view: IdxView<'a>,
    block: usize,
    scan: Option<BlockScan<'a>>,
}

impl<'a> TermIter<'a> {
    /// The file and its regions.
    pub closed spec fn over(&self) -> (Seq<u8>, Toc) {
        (self.view.bytes@, self.view.toc)
    }

    /// Where the iteration stands.
    pub closed spec fn state(&self) -> TermState {
        TermState {
            block: self.block as int,
            scan: match self.scan {
                Some(sc) => Some(sc.place()),
                None => None,
            },
        }
    }

    /// The iteration is in a proper state.
    pub closed spec fn wf(&self) -> bool {
        &&& self.view.wf()
        &&& self.block <= self.view.toc.num_blocks
        &&& self.scan matches Some(sc) ==> sc.wf() && sc.bytes@ == self.view.bytes@ && sc.end
            == dict_end(self.view.toc)
    }

    /// The next term with its document count and list; `Ok(None)` at the end.
    /// Where the bytes cannot be decoded the error says why.
    pub fn try_next(&mut self) -> (r: Result<Option<(String, u32, DiskPostingList<'a>)>>)
        requires
            old(self).wf(),
        ensures
            final(self).wf(),
            final(self).over() == old(self).over(),
            ({
                let want = term_next(old(self).over().0, old(self).over().1, old(self).state());
                match r {
                    Ok(Some((term, df, list))) => want == Ok::<_, FormatErrorView>(
                        Some(((term@, df, list.data@), final(self).state())),
                    ) && list.doc_freq == df,
                    Ok(None) => want == Ok::<_, FormatErrorView>(
                        None::<((Seq<char>, u32, Seq<u8>), TermState)>,
                    ) && final(self).state() == (TermState {
                        block: old(self).over().1.num_blocks as int,
                        scan: None,
                    }),
                    Err(e) => want == Err::<
                        Option<((Seq<char>, u32, Seq<u8>), TermState)>,
                        _,
                    >(e@),
                }
            }),
    {
        let view = self.view.clone();
        let mut block: usize = self.block;
        let mut scan: Option<BlockScan<'a>> = self.scan.take();
        assert(self.wf());
        let ghost want = term_next(view.bytes@, view.toc, old(self).state());
        loop
            invariant
                self.wf(),
                self.view == view,
                self.scan is None,
                old(self).over() == (view.bytes@, view.toc),
                view.wf(),
                block <= view.toc.num_blocks,
                scan matches Some(sc) ==> sc.wf() && sc.bytes@ == view.bytes@ && sc.end == dict_end(
                    view.toc,
                ),
                want == term_next(view.bytes@, view.toc, old(self).state()),
                want == term_next(
                    view.bytes@,
                    view.toc,
                    TermState {
                        block: block as int,
                        scan: match scan {
                            Some(sc) => Some(sc.place()),
                            None => None,
                        },
                    },
                ),
            decreases
                    view.toc.num_blocks - block,
                    if scan is Some {
                        1int
                    } else {
                        0int
                    },
        {
            match scan {
                None => {
                    if block >= view.toc.num_blocks as usize {
                        self.block = block;
                        return Ok(None);
                    }
                    scan = Some(view.block(block)?);
                    block = block + 1;
                },
                Some(mut sc) => {
                    match sc.next_entry()? {
                        None => {
                            scan = None;
                        },
                        Some(h) => {
                            let term: String = match utf8_str(sc.term.as_slice()) {
                                Ok(s) => s.to_string(),
                                Err(_) => {
                                    return Err(FormatError::corrupt("term is not UTF-8"));
                                },
                            };
                            let list = view.postings_at(h.postings_off, h.postings_len, h.doc_freq)?;
                            self.block = block;
                            self.scan = Some(sc);
                            return Ok(Some((term, h.doc_freq, list)));
                        },
                    }
                },
            }
        }
    }

    /// All terms that are left. Where the bytes cannot be decoded the error says
    /// why.
    pub fn collect(self) -> (r: Result<Vec<(String, u32, DiskPostingList<'a>)>>)
        requires
            self.wf(),
        ensures
            ({
                let want = terms_from(self.over().0, self.over().1, self.state());
                match r {
                    Ok(items) => want == Ok::<_, FormatErrorView>(item_views(items@)),
                    Err(e) => want == Err::<Seq<(Seq<char>, u32, Seq<u8>)>, _>(e@),
                }
            }),
    {
        let mut it = self;
        let ghost (s, t) = it.over();
        let ghost want = terms_from(s, t, it.state());
        let mut items: Vec<(String, u32, DiskPostingList<'a>)> = Vec::new();
        assert(item_views(items@) =~= Seq::empty());
        proof {
            if let Ok(rest) = want {
                assert(Seq::empty() + rest =~= rest);
            }
        }
        loop
            invariant
                it.wf(),
                it.over() == (s, t),
                want == terms_from(self.over().0, self.over().1, self.state()),
                match terms_from(s, t, it.state()) {
                    Ok(rest) => want == Ok::<_, FormatErrorView>(item_views(items@) + rest),
                    Err(e) => want == Err::<Seq<(Seq<char>, u32, Seq<u8>)>, _>(e),
                },
            decreases t.num_blocks - it.state().block, scan_left(it.state()),
        {
            let ghost st = it.state();
            let ghost had = item_views(items@);
            proof {
                lemma_term_next_advances(s, t, st);
            }
            match it.try_next()? {
                None => {
                    assert(had + Seq::empty() =~= had);
                    return Ok(items);
                },
                Some((term, df, list)) => {
                    items.push((term, df, list));
                    proof {
                        let item = (term@, df, list.data@);
                        assert(item_views(items@) =~= had.push(item));
                        if let Ok(rest) = terms_from(s, t, it.state()) {
                            assert(had + (seq![item] + rest) =~= had.push(item) + rest);
                        }
                    }
                },
            }
        }
    }
}

} // verus!
