//! Posting lists: delta-encoded documents and positions.
//!
//! A list is its document count, then for each document the delta to the
//! previous one, the number of positions, the byte length of the positions, and
//! the positions as deltas. Documents can be skipped without decoding positions.

use super::varint::{
    leb128, lemma_leb128_len, lemma_varint_bounds, lemma_varint_roundtrip, put_u32, read_u32,
    varint32_at,
};
use super::{corrupt_view, holds, lemma_holds_concat, Decoded, FormatError, FormatErrorView, Result};
use crate::index::postings::{
    from_target, positions_ascend, DocId, Entry, Position, PostingCursor, PostingList,
};
use vstd::prelude::*;

verus! {

/// The delta to the value before, or the value itself at the start.
pub open spec fn delta(ps: Seq<u32>, i: int) -> nat {
    if i <= 0 {
        ps[i] as nat
    } else {
        (ps[i] - ps[i - 1]) as nat
    }
}

/// Strictly ascending positions.
pub open spec fn ascending(ps: Seq<u32>) -> bool {
    forall|i: int, j: int| 0 <= i < j < ps.len() ==> ps[i] < ps[j]
}

/// The first `n` positions, as deltas.
pub open spec fn position_bytes(ps: Seq<u32>, n: int) -> Seq<u8>
    decreases n,
{
    if n <= 0 {
        Seq::empty()
    } else {
        position_bytes(ps, n - 1) + leb128(delta(ps, n - 1))
    }
}

/// The delta of document `i` to the one before.
pub open spec fn doc_delta(list: Seq<(u32, Seq<u32>)>, i: int) -> nat {
    if i <= 0 {
        list[i].0 as nat
    } else {
        (list[i].0 - list[i - 1].0) as nat
    }
}

/// The encoding of posting `i`.
pub open spec fn posting_bytes(list: Seq<(u32, Seq<u32>)>, i: int) -> Seq<u8> {
    let ps = list[i].1;
    let pb = position_bytes(ps, ps.len() as int);
    leb128(doc_delta(list, i)) + leb128((ps.len() as u32) as nat) + leb128((pb.len() as u32) as nat)
        + pb
}

/// The first `n` postings.
pub open spec fn postings_bytes(list: Seq<(u32, Seq<u32>)>, n: int) -> Seq<u8>
    decreases n,
{
    if n <= 0 {
        Seq::empty()
    } else {
        postings_bytes(list, n - 1) + posting_bytes(list, n - 1)
    }
}

/// The encoding of a list.
pub open spec fn list_bytes(list: Seq<(u32, Seq<u32>)>) -> Seq<u8> {
    leb128((list.len() as u32) as nat) + postings_bytes(list, list.len() as int)
}

/// Why the encoder refuses posting `i`, if it does.
pub open spec fn posting_fault(list: Seq<(u32, Seq<u32>)>, i: int) -> Option<Seq<char>> {
    if i > 0 && list[i].0 <= list[i - 1].0 {
        Some("doc ids must strictly increase"@)
    } else if list[i].1.len() == 0 {
        Some("posting with no positions"@)
    } else if !ascending(list[i].1) {
        Some("positions must strictly increase"@)
    } else {
        None
    }
}

/// The first fault among the postings from `i` on.
pub open spec fn list_fault(list: Seq<(u32, Seq<u32>)>, i: int) -> Option<Seq<char>>
    decreases list.len() - i,
{
    if i >= list.len() {
        None
    } else {
        match posting_fault(list, i) {
            Some(msg) => Some(msg),
            None => list_fault(list, i + 1),
        }
    }
}

/// The number of positions in the first `n` postings.
pub open spec fn token_count(list: Seq<(u32, Seq<u32>)>, n: int) -> nat
    decreases n,
{
    if n <= 0 {
        0
    } else {
        token_count(list, n - 1) + list[n - 1].1.len()
    }
}

/// A list of `(document, positions)` by value.
pub open spec fn list_view(postings: Seq<(DocId, &[Position])>) -> Seq<(u32, Seq<u32>)> {
    Seq::new(postings.len(), |i: int| (postings[i].0, postings[i].1@))
}

/// `a` starts with `b`.
pub open spec fn starts_with(a: Seq<u8>, b: Seq<u8>) -> bool {
    b.len() <= a.len() && a.take(b.len() as int) == b
}

proof fn lemma_position_bytes_len(ps: Seq<u32>, n: int)
    requires
        0 <= n <= ps.len(),
    ensures
        position_bytes(ps, n).len() >= n,
    decreases n,
{
    if n > 0 {
        lemma_position_bytes_len(ps, n - 1);
        lemma_leb128_len(delta(ps, n - 1));
    }
}

/// Every position and every document takes at least one byte.
pub proof fn lemma_list_bytes_len(list: Seq<(u32, Seq<u32>)>, n: int)
    requires
        0 <= n <= list.len(),
    ensures
        postings_bytes(list, n).len() >= token_count(list, n),
        postings_bytes(list, n).len() >= n,
        list_bytes(list).len() >= 1,
        n == list.len() ==> list_bytes(list).len() >= token_count(list, n),
        n == list.len() ==> list_bytes(list).len() >= list.len(),
    decreases n,
{
    lemma_leb128_len((list.len() as u32) as nat);
    if n > 0 {
        lemma_list_bytes_len(list, n - 1);
        let ps = list[n - 1].1;
        lemma_position_bytes_len(ps, ps.len() as int);
        lemma_leb128_len(doc_delta(list, n - 1));
    }
}

fn encode_positions(positions: &[Position], out: &mut Vec<u8>) -> (r: Result<()>)
    requires
        old(out)@.len() == 0,
    ensures
        match r {
            Ok(_) => ascending(positions@) && final(out)@ == position_bytes(
                positions@,
                positions@.len() as int,
            ),
            Err(e) => !ascending(positions@) && e@ == FormatErrorView::Invariant(
                "positions must strictly increase"@,
            ),
        },
{
    let mut i: usize = 0;
    while i < positions.len()
        invariant
            i <= positions@.len(),
            out@ =~= position_bytes(positions@, i as int),
            forall|a: int, b: int| 0 <= a < b < i ==> positions@[a] < positions@[b],
        decreases positions@.len() - i,
    {
        let p: Position = positions[i];
        if i > 0 {
            let q: Position = positions[i - 1];
            if p <= q {
                assert(!ascending(positions@)) by {
                    assert(positions@[i - 1] >= positions@[i as int]);
                }
                return Err(FormatError::Invariant("positions must strictly increase"));
            }
            put_u32(out, p - q);
        } else {
            put_u32(out, p);
        }
        i = i + 1;
    }
    Ok(())
}

/// Appends the encoding of a list to `out`; `scratch` is working space. Returns
/// the number of positions. Refuses documents or positions that do not strictly
/// increase, and postings without positions.
pub fn encode_postings(
    postings: &[(DocId, &[Position])],
    out: &mut Vec<u8>,
    scratch: &mut Vec<u8>,
) -> (r: Result<u64>)
    ensures
        starts_with(final(out)@, old(out)@),
        ({
            let list = list_view(postings@);
            match r {
                Ok(tokens) => list_fault(list, 0) is None && final(out)@ == old(out)@ + list_bytes(
                    list,
                ) && tokens == token_count(list, list.len() as int),
                Err(e) => list_fault(list, 0) matches Some(msg) && e@ == FormatErrorView::Invariant(
                    msg,
                ),
            }
        }),
{
    let ghost list = list_view(postings@);
    let ghost start = out@;
    put_u32(out, postings.len() as u32);
    let ghost head = out@;
    let mut tokens: u64 = 0;
    let mut i: usize = 0;
    assert(out@.take(start.len() as int) =~= start);
    while i < postings.len()
        invariant
            i <= postings@.len(),
            list == list_view(postings@),
            start == old(out)@,
            head == start + leb128((list.len() as u32) as nat),
            out@ =~= head + postings_bytes(list, i as int),
            tokens == token_count(list, i as int),
            tokens <= out@.len(),
            list_fault(list, 0) == list_fault(list, i as int),
        decreases postings@.len() - i,
    {
        let ghost before = out@;
        let doc: DocId = postings[i].0;
        let positions = postings[i].1;
        assert(list[i as int] == (doc, positions@));
        if i > 0 {
            let p: DocId = postings[i - 1].0;
            assert(list[i - 1].0 == p);
            if doc <= p {
                assert(out@.take(start.len() as int) =~= start);
                return Err(FormatError::Invariant("doc ids must strictly increase"));
            }
            put_u32(out, doc - p);
        } else {
            put_u32(out, doc);
        }
        assert(out@ =~= before + leb128(doc_delta(list, i as int)));
        if positions.len() == 0 {
            assert(out@.take(start.len() as int) =~= start);
            return Err(FormatError::Invariant("posting with no positions"));
        }
        put_u32(out, positions.len() as u32);
        scratch.clear();
        match encode_positions(positions, scratch) {
            Ok(_) => {},
            Err(e) => {
                assert(out@.take(start.len() as int) =~= start);
                return Err(e);
            },
        }
        put_u32(out, scratch.len() as u32);
        out.extend_from_slice(scratch.as_slice());
        assert(out@ =~= before + posting_bytes(list, i as int));
        proof {
            lemma_position_bytes_len(positions@, positions@.len() as int);
        }
        assert(out@.len() == out.len());
        tokens = tokens + positions.len() as u64;
        i = i + 1;
    }
    assert(out@.take(start.len() as int) =~= start);
    assert(out@ =~= start + list_bytes(list));
    Ok(tokens)
}

/// A document header: the document, its term frequency, and where its positions
/// lie.
pub ghost struct Header {
    pub doc: u32,
    pub tf: u32,
    pub start: int,
    pub end: int,
}

/// The header at `pos`, behind document `prev`.
pub open spec fn header_at(s: Seq<u8>, pos: int, prev: Option<u32>) -> Decoded<Header> {
    let d = varint32_at(s, pos);
    let t = varint32_at(s, d.1);
    let b = varint32_at(s, t.1);
    match d.0 {
        Err(e) => Err(e),
        Ok(gap) => {
            let doc = match prev {
                Some(p) => p + gap,
                None => gap as int,
            };
            if prev is Some && gap == 0 {
                corrupt_view("zero doc delta"@)
            } else if doc > u32::MAX {
                corrupt_view("doc id overflow"@)
            } else {
                match t.0 {
                    Err(e) => Err(e),
                    Ok(tf) => if tf == 0 {
                        corrupt_view("zero term frequency"@)
                    } else {
                        match b.0 {
                            Err(e) => Err(e),
                            Ok(n) => if b.1 + n <= s.len() {
                                Ok(Header { doc: doc as u32, tf: tf as u32, start: b.1, end: b.1 + n })
                            } else {
                                Err(FormatErrorView::Truncated { at: b.1, needed: n as int })
                            },
                        }
                    },
                }
            }
        },
    }
}

/// `k` positions from `p` up to exactly the end of `s`, behind position `prev`.
pub open spec fn positions_at(s: Seq<u8>, p: int, k: nat, prev: Option<u32>) -> Decoded<Seq<u32>>
    decreases k,
{
    let d = varint32_at(s, p);
    if k == 0 {
        if p == s.len() {
            Ok(Seq::empty())
        } else {
            corrupt_view("pos_bytes disagrees with position varints"@)
        }
    } else {
        match d.0 {
            Err(e) => Err(e),
            Ok(gap) => {
                let v = match prev {
                    Some(q) => q + gap,
                    None => gap as int,
                };
                if prev is Some && gap == 0 {
                    corrupt_view("zero position delta"@)
                } else if v > u32::MAX {
                    corrupt_view("position overflow"@)
                } else {
                    match positions_at(s, d.1, (k - 1) as nat, Some(v as u32)) {
                        Err(e) => Err(e),
                        Ok(rest) => Ok(seq![v as u32] + rest),
                    }
                }
            },
        }
    }
}

/// The positions of a header.
pub open spec fn positions_of(s: Seq<u8>, h: Header) -> Decoded<Seq<u32>> {
    positions_at(s.take(h.end), h.start, h.tf as nat, None)
}

/// The posting of a header.
pub open spec fn entry_of(s: Seq<u8>, h: Header) -> Entry {
    Entry {
        doc: h.doc,
        tf: h.tf,
        positions: match positions_of(s, h) {
            Ok(p) => Some(p),
            Err(_) => None,
        },
    }
}

/// The next `n` postings, up to the first header that cannot be decoded.
pub open spec fn entries_from(s: Seq<u8>, pos: int, n: nat, prev: Option<u32>) -> Seq<Entry>
    decreases n,
{
    if n == 0 {
        Seq::empty()
    } else {
        match header_at(s, pos, prev) {
            Err(_) => Seq::empty(),
            Ok(h) => seq![entry_of(s, h)] + entries_from(s, h.end, (n - 1) as nat, Some(h.doc)),
        }
    }
}

/// The postings of an encoded list.
pub open spec fn decoded_list(s: Seq<u8>) -> Seq<Entry> {
    match varint32_at(s, 0).0 {
        Err(_) => Seq::empty(),
        Ok(n) => entries_from(s, varint32_at(s, 0).1, n, None),
    }
}

/// The full check of the next `n` postings, which end the list.
pub open spec fn checked_from(s: Seq<u8>, pos: int, n: nat, prev: Option<u32>) -> Decoded<()>
    decreases n,
{
    if n == 0 {
        if pos == s.len() {
            Ok(())
        } else {
            corrupt_view("posting list length disagrees with doc_count"@)
        }
    } else {
        match header_at(s, pos, prev) {
            Err(e) => Err(e),
            Ok(h) => match positions_of(s, h) {
                Err(e) => Err(e),
                Ok(_) => checked_from(s, h.end, (n - 1) as nat, Some(h.doc)),
            },
        }
    }
}

/// The full check of a list against the number of documents it should have.
pub open spec fn checked_list(s: Seq<u8>, doc_freq: u32) -> Decoded<()> {
    let c = varint32_at(s, 0);
    match c.0 {
        Err(e) => Err(e),
        Ok(n) => if n != doc_freq {
            corrupt_view("posting list doc_count disagrees with dictionary doc_freq"@)
        } else {
            checked_from(s, c.1, n, None)
        },
    }
}

#[derive(Debug, Clone, Copy)]
struct Current {
    doc: DocId,
    tf: u32,
    pos_start: usize,
    pos_end: usize,
}

spec fn header_of(c: Current) -> Header {
    Header { doc: c.doc, tf: c.tf, start: c.pos_start as int, end: c.pos_end as int }
}

proof fn lemma_header_bounds(s: Seq<u8>, pos: int, prev: Option<u32>)
    requires
        0 <= pos <= s.len(),
    ensures
        header_at(s, pos, prev) matches Ok(h) ==> pos < h.start <= h.end <= s.len() && h.tf > 0
            && (prev matches Some(p) ==> p < h.doc),
{
    lemma_varint_bounds(s, pos);
    let d = varint32_at(s, pos);
    lemma_varint_bounds(s, d.1);
    let t = varint32_at(s, d.1);
    lemma_varint_bounds(s, t.1);
}

fn decode_header(data: &[u8], pos: &mut usize, prev: Option<DocId>) -> (r: Result<Current>)
    requires
        *old(pos) <= data@.len(),
    ensures
        *final(pos) <= data@.len(),
        match r {
            Ok(c) => header_at(data@, *old(pos) as int, prev) == Ok::<_, FormatErrorView>(
                header_of(c),
            ) && *final(pos) == c.pos_end && c.pos_start <= c.pos_end,
            Err(e) => header_at(data@, *old(pos) as int, prev) == Err::<Header, _>(e@),
        },
{
    proof {
        lemma_varint_bounds(data@, *pos as int);
        let d = varint32_at(data@, *pos as int);
        lemma_varint_bounds(data@, d.1);
        let t = varint32_at(data@, d.1);
        lemma_varint_bounds(data@, t.1);
    }
    let gap: u32 = read_u32(data, pos)?;
    let doc: DocId = match prev {
        None => gap,
        Some(p) => {
            if gap == 0 {
                return Err(FormatError::corrupt("zero doc delta"));
            }
            if gap > u32::MAX - p {
                return Err(FormatError::corrupt("doc id overflow"));
            }
            p + gap
        },
    };
    let tf: u32 = read_u32(data, pos)?;
    if tf == 0 {
        return Err(FormatError::corrupt("zero term frequency"));
    }
    let n: u32 = read_u32(data, pos)?;
    let pos_start: usize = *pos;
    if n as u64 > (data.len() - pos_start) as u64 {
        return Err(FormatError::Truncated { at: pos_start, needed: n as usize });
    }
    let pos_end: usize = pos_start + n as usize;
    *pos = pos_end;
    Ok(Current { doc, tf, pos_start, pos_end })
}

fn decode_positions(data: &[u8], c: Current, out: &mut Vec<Position>) -> (r: Result<()>)
    requires
        c.pos_start <= c.pos_end <= data@.len(),
    ensures
        match r {
            Ok(_) => positions_of(data@, header_of(c)) == Ok::<_, FormatErrorView>(final(out)@),
            Err(e) => positions_of(data@, header_of(c)) == Err::<Seq<u32>, _>(e@),
        },
{
    out.clear();
    let slice = &data[0..c.pos_end];
    assert(slice@ =~= data@.take(c.pos_end as int));
    let ghost s = slice@;
    let ghost want = positions_at(s, c.pos_start as int, c.tf as nat, None);
    let mut p: usize = c.pos_start;
    let mut prev: Option<Position> = None;
    let mut left: u32 = c.tf;
    assert(want == prefixed(Seq::empty(), want)) by {
        if let Ok(x) = want {
            assert(Seq::<u32>::empty() + x =~= x);
        }
    }
    while left > 0
        invariant
            s == slice@,
            c.pos_start <= p <= s.len(),
            want == prefixed(out@, positions_at(s, p as int, left as nat, prev)),
            positions_of(data@, header_of(c)) == want,
        decreases left,
    {
        proof {
            lemma_varint_bounds(s, p as int);
        }
        let gap: u32 = read_u32(slice, &mut p)?;
        let v: Position = match prev {
            None => gap,
            Some(q) => {
                if gap == 0 {
                    return Err(FormatError::corrupt("zero position delta"));
                }
                if gap > u32::MAX - q {
                    return Err(FormatError::corrupt("position overflow"));
                }
                q + gap
            },
        };
        let ghost before = out@;
        out.push(v);
        proof {
            if let Ok(rest) = positions_at(s, p as int, (left - 1) as nat, Some(v)) {
                assert(before + (seq![v] + rest) =~= out@ + rest);
            }
        }
        prev = Some(v);
        left = left - 1;
    }
    if p != slice.len() {
        return Err(FormatError::corrupt("pos_bytes disagrees with position varints"));
    }
    assert(out@ + Seq::<u32>::empty() =~= out@);
    Ok(())
}

/// Positions already decoded, in front of what decoding the rest gives.
spec fn prefixed(front: Seq<u32>, r: Decoded<Seq<u32>>) -> Decoded<Seq<u32>> {
    match r {
        Ok(rest) => Ok(front + rest),
        Err(e) => Err(e),
    }
}

/// A term's encoded postings.
#[derive(Debug, Clone, Copy)]
pub struct DiskPostingList<'a> {
    pub data: &'a [u8],
    pub doc_freq: u32,
}

impl<'a> DiskPostingList<'a> {
    /// Length of the encoded form.
    pub fn encoded_len(&self) -> (n: usize)
        ensures
            n == self.data@.len(),
    {
        self.data.len()
    }

    /// Decodes everything, checking the deltas and the document count.
    pub fn verify(&self) -> (r: Result<()>)
        ensures
            match r {
                Ok(_) => checked_list(self.data@, self.doc_freq) is Ok,
                Err(e) => checked_list(self.data@, self.doc_freq) == Err::<(), _>(e@),
            },
    {
        let data = self.data;
        let mut pos: usize = 0;
        proof {
            lemma_varint_bounds(data@, 0);
        }
        let count: u32 = read_u32(data, &mut pos)?;
        if count != self.doc_freq {
            return Err(
                FormatError::corrupt("posting list doc_count disagrees with dictionary doc_freq"),
            );
        }
        let mut left: u32 = count;
        let mut prev: Option<DocId> = None;
        let mut positions: Vec<Position> = Vec::new();
        while left > 0
            invariant
                data@ == self.data@,
                pos <= data@.len(),
                checked_list(self.data@, self.doc_freq) == checked_from(
                    data@,
                    pos as int,
                    left as nat,
                    prev,
                ),
            decreases left,
        {
            let c = decode_header(data, &mut pos, prev)?;
            decode_positions(data, c, &mut positions)?;
            prev = Some(c.doc);
            left = left - 1;
        }
        if pos != data.len() {
            return Err(FormatError::corrupt("posting list length disagrees with doc_count"));
        }
        Ok(())
    }
}

impl<'a> PostingList for DiskPostingList<'a> {
    type Cursor = DiskCursor<'a>;

    open spec fn wf(&self) -> bool {
        true
    }

    open spec fn entries(&self) -> Seq<Entry> {
        decoded_list(self.data@)
    }

    open spec fn freq(&self) -> u32 {
        self.doc_freq
    }

    proof fn lemma_ascends(&self) {
        lemma_entries_ascend(self.data@);
        lemma_varint_bounds(self.data@, 0);
        if let Ok(n) = varint32_at(self.data@, 0).0 {
            lemma_positions_ascend(self.data@, varint32_at(self.data@, 0).1, n, None);
        }
    }

    fn doc_freq(&self) -> (r: u32) {
        self.doc_freq
    }

    fn cursor(&self) -> (c: DiskCursor<'a>) {
        DiskCursor::new(self.data)
    }
}

/// Lazy decoder over one posting list. Headers are decoded on the way;
/// positions only when asked for, into a buffer owned by the cursor.
pub struct DiskCursor<'a> {
    data: &'a [u8],
    pos: usize,
    remaining: u32,
    cur: Option<Current>,
    positions: Vec<Position>,
    decoded: bool,
    error: Option<FormatError>,
}

/// A [`DiskCursor`] by value.
pub ghost struct CursorView {
    pub data: Seq<u8>,
    /// Where the next header starts.
    pub pos: int,
    /// How many headers are to come.
    pub left: nat,
    /// The header of the current posting.
    pub cur: Option<Header>,
    /// The positions of the current posting were asked for.
    pub decoded: bool,
    /// What could not be decoded.
    pub error: Option<FormatErrorView>,
}

/// The cursor behind its current posting. No positions are decoded on the way, and a
/// header that cannot be decoded stops it.
pub open spec fn loaded(c: CursorView) -> CursorView {
    let prev = match c.cur {
        Some(h) => Some(h.doc),
        None => None,
    };
    if c.left == 0 {
        CursorView { cur: None, ..c }
    } else {
        match header_at(c.data, c.pos, prev) {
            Ok(h) => CursorView {
                pos: h.end,
                left: (c.left - 1) as nat,
                cur: Some(h),
                decoded: false,
                ..c
            },
            Err(e) => stopped(c, e),
        }
    }
}

/// The cursor stopped by an error.
pub open spec fn stopped(c: CursorView, e: FormatErrorView) -> CursorView {
    CursorView { left: 0, cur: None, error: Some(e), ..c }
}

/// A cursor on the first posting of an encoded list. A count that cannot be decoded
/// stops it.
pub open spec fn started(s: Seq<u8>) -> CursorView {
    let head = varint32_at(s, 0);
    let c = CursorView { data: s, pos: head.1, left: 0, cur: None, decoded: false, error: None };
    match head.0 {
        Ok(n) => loaded(CursorView { left: n, ..c }),
        Err(e) => stopped(c, e),
    }
}

/// The cursor moved on while its document is below the target.
pub open spec fn sought(c: CursorView, target: u32) -> CursorView
    decreases
            c.left,
            (if c.cur is Some {
                1int
            } else {
                0
            }),
{
    if c.cur matches Some(h) && h.doc < target {
        sought(loaded(c), target)
    } else {
        c
    }
}

/// The cursor once its positions were asked for. Positions that cannot be decoded
/// stop it.
pub open spec fn unfolded(c: CursorView) -> CursorView {
    let now = CursorView { decoded: true, ..c };
    match c.cur {
        Some(h) if !c.decoded => match positions_of(c.data, h) {
            Ok(_) => now,
            Err(e) => stopped(now, e),
        },
        _ => now,
    }
}

impl<'a> View for DiskCursor<'a> {
    type V = CursorView;

    closed spec fn view(&self) -> CursorView {
        CursorView {
            data: self.data@,
            pos: self.pos as int,
            left: self.remaining as nat,
            cur: match self.cur {
                Some(c) => Some(header_of(c)),
                None => None,
            },
            decoded: self.decoded,
            error: match self.error {
                Some(e) => Some(e@),
                None => None,
            },
        }
    }
}

impl<'a> DiskCursor<'a> {
    /// A cursor on the first posting of an encoded list.
    pub fn new(data: &'a [u8]) -> (c: Self)
        ensures
            c.wf(),
            c.rest() == decoded_list(data@),
            c@ == started(data@),
    {
        let mut pos: usize = 0;
        proof {
            lemma_varint_bounds(data@, 0);
        }
        let count = read_u32(data, &mut pos);
        let mut c = DiskCursor {
            data,
            pos,
            remaining: 0,
            cur: None,
            positions: Vec::new(),
            decoded: false,
            error: None,
        };
        match count {
            Ok(n) => {
                c.remaining = n;
                c.load_next();
            },
            Err(e) => {
                c.fail(e);
            },
        }
        c
    }

    /// What stopped the cursor, if decoding failed.
    pub fn error(&self) -> (r: Option<&FormatError>)
        ensures
            match r {
                Some(e) => self@.error == Some(e@),
                None => self@.error is None,
            },
    {
        match &self.error {
            Some(e) => Some(e),
            None => None,
        }
    }

    /// Whether the positions of the current document have been decoded.
    pub fn positions_decoded(&self) -> (r: bool)
        ensures
            r == self@.decoded,
    {
        self.decoded
    }

    /// A cursor that was stopped has no postings left.
    pub proof fn lemma_stopped(&self)
        requires
            self.wf(),
        ensures
            self@.error is Some ==> self.rest().len() == 0,
            self.rest().len() == 0 <==> self@.cur is None,
    {
    }

    spec fn prev(&self) -> Option<u32> {
        match self.cur {
            Some(c) => Some(c.doc),
            None => None,
        }
    }

    fn fail(&mut self, e: FormatError)
        requires
            old(self).pos <= old(self).data@.len(),
        ensures
            final(self).wf(),
            final(self).rest() == Seq::<Entry>::empty(),
            final(self)@ == stopped(old(self)@, e@),
            final(self).positions == old(self).positions,
    {
        self.error = Some(e);
        self.cur = None;
        self.remaining = 0;
    }

    fn is_before(&self, target: DocId) -> (r: bool)
        requires
            self.wf(),
        ensures
            r == (self.rest().len() > 0 && self.rest()[0].doc < target),
    {
        match self.cur {
            Some(c) => c.doc < target,
            None => false,
        }
    }

    fn load_next(&mut self)
        requires
            old(self).pos <= old(self).data@.len(),
            old(self).error is None,
        ensures
            final(self).wf(),
            final(self)@ == loaded(old(self)@),
            final(self).rest() == entries_from(
                old(self).data@,
                old(self).pos as int,
                old(self).remaining as nat,
                old(self).prev(),
            ),
    {
        if self.remaining == 0 {
            self.cur = None;
            return;
        }
        let prev: Option<DocId> = match self.cur {
            Some(c) => Some(c.doc),
            None => None,
        };
        let mut pos: usize = self.pos;
        match decode_header(self.data, &mut pos, prev) {
            Ok(c) => {
                self.pos = pos;
                self.cur = Some(c);
                self.remaining = self.remaining - 1;
                self.decoded = false;
            },
            Err(e) => {
                self.fail(e);
            },
        }
    }
}

impl<'a> PostingCursor for DiskCursor<'a> {
    closed spec fn wf(&self) -> bool {
        &&& self.pos <= self.data@.len()
        &&& self.error is Some ==> self.cur is None
        &&& self.cur matches Some(c) ==> c.pos_start <= c.pos_end <= self.data@.len()
        &&& self.decoded ==> (self.cur matches Some(c) ==> positions_of(self.data@, header_of(c))
            == Ok::<_, FormatErrorView>(self.positions@))
    }

    closed spec fn rest(&self) -> Seq<Entry> {
        match self.cur {
            Some(c) => seq![entry_of(self.data@, header_of(c))] + entries_from(
                self.data@,
                self.pos as int,
                self.remaining as nat,
                Some(c.doc),
            ),
            None => Seq::empty(),
        }
    }

    fn doc(&self) -> (r: Option<DocId>) {
        match self.cur {
            Some(c) => Some(c.doc),
            None => None,
        }
    }

    fn advance(&mut self) -> (r: Option<DocId>)
        ensures
            final(self)@ == if old(self)@.cur is Some {
                loaded(old(self)@)
            } else {
                old(self)@
            },
    {
        if self.cur.is_some() {
            let ghost before = self.rest();
            self.load_next();
            assert(before.drop_first() =~= self.rest());
        }
        self.doc()
    }

    fn seek(&mut self, target: DocId) -> (r: Option<DocId>)
        ensures
            final(self)@ == sought(old(self)@, target),
    {
        let ghost start = self.rest();
        while self.is_before(target)
            invariant
                self.wf(),
                sought(old(self)@, target) == sought(self@, target),
                from_target(start, target) == from_target(self.rest(), target),
            decreases self.rest().len(),
        {
            let ghost before = self.rest();
            self.load_next();
            assert(before.drop_first() =~= self.rest());
        }
        self.doc()
    }

    fn positions(&mut self) -> (r: &[Position])
        ensures
            final(self)@ == unfolded(old(self)@),
    {
        if !self.decoded {
            if let Some(c) = self.cur {
                let mut buf: Vec<Position> = Vec::new();
                match decode_positions(self.data, c, &mut buf) {
                    Ok(_) => {
                        self.positions = buf;
                    },
                    Err(e) => {
                        self.positions = Vec::new();
                        self.fail(e);
                    },
                }
            }
            self.decoded = true;
        }
        self.positions.as_slice()
    }

    fn term_freq(&mut self) -> (r: u32)
        ensures
            final(self)@ == old(self)@,
    {
        match self.cur {
            Some(c) => c.tf,
            None => 0,
        }
    }
}

proof fn lemma_position_prefix(ps: Seq<u32>, i: int, n: int)
    requires
        0 <= i <= n <= ps.len(),
    ensures
        position_bytes(ps, i).len() <= position_bytes(ps, n).len(),
        position_bytes(ps, n).take(position_bytes(ps, i).len() as int) == position_bytes(ps, i),
    decreases n - i,
{
    let a = position_bytes(ps, i);
    if i == n {
        assert(a.take(a.len() as int) =~= a);
    } else {
        lemma_position_prefix(ps, i, n - 1);
        assert(position_bytes(ps, n).take(a.len() as int) =~= position_bytes(ps, n - 1).take(
            a.len() as int,
        ));
    }
}

proof fn lemma_position_held(t: Seq<u8>, start: int, ps: Seq<u32>, i: int)
    requires
        0 <= i < ps.len(),
        holds(t, start, position_bytes(ps, ps.len() as int)),
    ensures
        holds(t, start + position_bytes(ps, i).len(), leb128(delta(ps, i))),
{
    let n = ps.len() as int;
    let all = position_bytes(ps, n);
    let a = position_bytes(ps, i);
    let b = position_bytes(ps, i + 1);
    lemma_position_prefix(ps, i + 1, n);
    assert(all =~= b + all.skip(b.len() as int));
    lemma_holds_concat(t, start, b, all.skip(b.len() as int));
    lemma_holds_concat(t, start, a, leb128(delta(ps, i)));
}

proof fn lemma_positions_from(t: Seq<u8>, start: int, ps: Seq<u32>, i: int)
    requires
        0 <= i <= ps.len(),
        ascending(ps),
        holds(t, start, position_bytes(ps, ps.len() as int)),
        t.len() == start + position_bytes(ps, ps.len() as int).len(),
    ensures
        positions_at(
            t,
            start + position_bytes(ps, i).len(),
            (ps.len() - i) as nat,
            if i > 0 {
                Some(ps[i - 1])
            } else {
                None
            },
        ) == Ok::<_, FormatErrorView>(ps.skip(i)),
    decreases ps.len() - i,
{
    let n = ps.len() as int;
    if i == n {
        assert(ps.skip(i) =~= Seq::empty());
    } else {
        lemma_position_held(t, start, ps, i);
        lemma_varint_roundtrip(t, start + position_bytes(ps, i).len(), delta(ps, i));
        lemma_positions_from(t, start, ps, i + 1);
        assert(ps.skip(i) =~= seq![ps[i]] + ps.skip(i + 1));
    }
}

/// The postings of a list, by value.
pub open spec fn entries_of(list: Seq<(u32, Seq<u32>)>) -> Seq<Entry> {
    Seq::new(
        list.len(),
        |i: int|
            Entry { doc: list[i].0, tf: list[i].1.len() as u32, positions: Some(list[i].1) },
    )
}

/// The counts and lengths that the encoding stores in 32 bits fit.
pub open spec fn fits(list: Seq<(u32, Seq<u32>)>) -> bool {
    &&& list.len() <= u32::MAX
    &&& forall|i: int|
        #![trigger list[i]]
        0 <= i < list.len() ==> position_bytes(list[i].1, list[i].1.len() as int).len() <= u32::MAX
}

proof fn lemma_postings_prefix(list: Seq<(u32, Seq<u32>)>, i: int, n: int)
    requires
        0 <= i <= n <= list.len(),
    ensures
        postings_bytes(list, i).len() <= postings_bytes(list, n).len(),
        postings_bytes(list, n).take(postings_bytes(list, i).len() as int) == postings_bytes(
            list,
            i,
        ),
    decreases n - i,
{
    let a = postings_bytes(list, i);
    if i == n {
        assert(a.take(a.len() as int) =~= a);
    } else {
        lemma_postings_prefix(list, i, n - 1);
        assert(postings_bytes(list, n).take(a.len() as int) =~= postings_bytes(list, n - 1).take(
            a.len() as int,
        ));
    }
}

/// Where posting `i` starts in the encoding.
spec fn posting_off(list: Seq<(u32, Seq<u32>)>, i: int) -> int {
    (leb128((list.len() as u32) as nat).len() + postings_bytes(list, i).len()) as int
}

proof fn lemma_posting_held(list: Seq<(u32, Seq<u32>)>, i: int)
    requires
        0 <= i < list.len(),
    ensures
        holds(list_bytes(list), posting_off(list, i), posting_bytes(list, i)),
{
    let n = list.len() as int;
    let s = list_bytes(list);
    let head = leb128((list.len() as u32) as nat);
    let all = postings_bytes(list, n);
    let a = postings_bytes(list, i);
    let b = postings_bytes(list, i + 1);
    lemma_postings_prefix(list, i + 1, n);
    assert(all =~= b + all.skip(b.len() as int));
    assert(holds(s, 0, head + all)) by {
        assert(s.subrange(0, s.len() as int) =~= s);
    }
    lemma_holds_concat(s, 0, head, all);
    lemma_holds_concat(s, head.len() as int, b, all.skip(b.len() as int));
    lemma_holds_concat(s, head.len() as int, a, posting_bytes(list, i));
}

proof fn lemma_header_of_posting(s: Seq<u8>, pos: int, list: Seq<(u32, Seq<u32>)>, i: int)
    requires
        0 <= i < list.len(),
        fits(list),
        posting_fault(list, i) is None,
        holds(s, pos, posting_bytes(list, i)),
    ensures
        ({
            let prev: Option<u32> = if i > 0 {
                Some(list[i - 1].0)
            } else {
                None
            };
            &&& header_at(s, pos, prev) matches Ok(h)
            &&& h.doc == list[i].0
            &&& h.tf == list[i].1.len()
            &&& h.end == pos + posting_bytes(list, i).len()
            &&& positions_of(s, h) == Ok::<_, FormatErrorView>(list[i].1)
        }),
{
    let ps = list[i].1;
    let n = ps.len() as int;
    let pb = position_bytes(ps, n);
    let e = list[i];
    lemma_position_bytes_len(ps, n);
    let d = leb128(doc_delta(list, i));
    let t = leb128((ps.len() as u32) as nat);
    let b = leb128((pb.len() as u32) as nat);
    lemma_holds_concat(s, pos, d + t + b, pb);
    lemma_holds_concat(s, pos, d + t, b);
    lemma_holds_concat(s, pos, d, t);
    lemma_varint_roundtrip(s, pos, doc_delta(list, i));
    lemma_varint_roundtrip(s, pos + d.len(), (ps.len() as u32) as nat);
    lemma_varint_roundtrip(s, pos + d.len() + t.len(), (pb.len() as u32) as nat);
    let start = pos + d.len() + t.len() + b.len();
    let end = start + pb.len();
    let cut = s.take(end);
    assert(cut.subrange(start, end) =~= s.subrange(start, end));
    assert(holds(cut, start, pb));
    lemma_positions_from(cut, start, ps, 0);
    assert(ps.skip(0) =~= ps);
}

proof fn lemma_entries_from(list: Seq<(u32, Seq<u32>)>, i: int)
    requires
        0 <= i <= list.len(),
        fits(list),
        forall|k: int| 0 <= k < list.len() ==> #[trigger] posting_fault(list, k) is None,
    ensures
        ({
            let s = list_bytes(list);
            let prev: Option<u32> = if i > 0 {
                Some(list[i - 1].0)
            } else {
                None
            };
            let n = (list.len() - i) as nat;
            &&& entries_from(s, posting_off(list, i), n, prev) == entries_of(list).skip(i)
            &&& checked_from(s, posting_off(list, i), n, prev) is Ok
        }),
    decreases list.len() - i,
{
    let s = list_bytes(list);
    if i == list.len() {
        assert(entries_of(list).skip(i) =~= Seq::empty());
    } else {
        let f = posting_fault(list, i);
        lemma_posting_held(list, i);
        lemma_header_of_posting(s, posting_off(list, i), list, i);
        lemma_entries_from(list, i + 1);
        assert(posting_off(list, i + 1) == posting_off(list, i) + posting_bytes(list, i).len());
        assert(entries_of(list).skip(i) =~= seq![entries_of(list)[i]] + entries_of(list).skip(i + 1));
    }
}

proof fn lemma_no_fault(list: Seq<(u32, Seq<u32>)>, i: int)
    requires
        0 <= i,
        list_fault(list, i) is None,
    ensures
        forall|k: int| i <= k < list.len() ==> #[trigger] posting_fault(list, k) is None,
    decreases list.len() - i,
{
    if i < list.len() {
        lemma_no_fault(list, i + 1);
    }
}

/// Decoding an encoded list gives its postings back, and it passes the full
/// check.
pub proof fn lemma_list_roundtrip(list: Seq<(u32, Seq<u32>)>)
    requires
        fits(list),
        list_fault(list, 0) is None,
    ensures
        decoded_list(list_bytes(list)) == entries_of(list),
        checked_list(list_bytes(list), list.len() as u32) is Ok,
{
    let s = list_bytes(list);
    let head = leb128((list.len() as u32) as nat);
    let all = postings_bytes(list, list.len() as int);
    assert(holds(s, 0, head + all)) by {
        assert(s.subrange(0, s.len() as int) =~= s);
    }
    lemma_holds_concat(s, 0, head, all);
    lemma_varint_roundtrip(s, 0, (list.len() as u32) as nat);
    lemma_no_fault(list, 0);
    lemma_entries_from(list, 0);
    assert(entries_of(list).skip(0) =~= entries_of(list));
}

proof fn lemma_entries_ascend_from(s: Seq<u8>, pos: int, n: nat, prev: Option<u32>)
    requires
        0 <= pos <= s.len(),
    ensures
        ({
            let es = entries_from(s, pos, n, prev);
            &&& forall|i: int, j: int| 0 <= i < j < es.len() ==> es[i].doc < es[j].doc
            &&& forall|i: int|
                #![trigger es[i]]
                0 <= i < es.len() ==> (prev matches Some(p) ==> p < es[i].doc)
            &&& es.len() <= n
        }),
    decreases n,
{
    if n > 0 {
        lemma_header_bounds(s, pos, prev);
        if let Ok(h) = header_at(s, pos, prev) {
            lemma_entries_ascend_from(s, h.end, (n - 1) as nat, Some(h.doc));
            let es = entries_from(s, pos, n, prev);
            let rest = entries_from(s, h.end, (n - 1) as nat, Some(h.doc));
            assert forall|i: int, j: int| 0 <= i < j < es.len() implies es[i].doc < es[j].doc by {
                assert(es[j] == rest[j - 1]);
                if i > 0 {
                    assert(es[i] == rest[i - 1]);
                }
            }
            assert forall|i: int| #![trigger es[i]] 0 <= i < es.len() implies (
            prev matches Some(p) ==> p < es[i].doc) by {
                if i > 0 {
                    assert(es[i] == rest[i - 1]);
                }
            }
        }
    }
}

/// Whatever the bytes, the documents that decoding yields strictly ascend.
pub proof fn lemma_entries_ascend(s: Seq<u8>)
    ensures
        forall|i: int, j: int|
            0 <= i < j < decoded_list(s).len() ==> decoded_list(s)[i].doc < decoded_list(s)[j].doc,
        decoded_list(s).len() <= u32::MAX,
{
    lemma_varint_bounds(s, 0);
    if let Ok(n) = varint32_at(s, 0).0 {
        lemma_entries_ascend_from(s, varint32_at(s, 0).1, n, None);
    }
}

proof fn lemma_decoded_rise(s: Seq<u8>, p: int, k: nat, prev: Option<u32>)
    requires
        0 <= p,
    ensures
        positions_at(s, p, k, prev) matches Ok(ps) ==> ascending(ps) && (prev matches Some(v) ==> forall|
            i: int,
        |
            0 <= i < ps.len() ==> v < #[trigger] ps[i]),
    decreases k,
{
    if k > 0 {
        lemma_varint_bounds(s, p);
        let d = varint32_at(s, p);
        if let Ok(ps) = positions_at(s, p, k, prev) {
            let v = ps[0];
            lemma_decoded_rise(s, d.1, (k - 1) as nat, Some(v));
            let rest = positions_at(s, d.1, (k - 1) as nat, Some(v))->Ok_0;
            assert(ps =~= seq![v] + rest);
            assert forall|i: int, j: int| 0 <= i < j < ps.len() implies ps[i] < ps[j] by {
                assert(ps[j] == rest[j - 1]);
                if i > 0 {
                    assert(ps[i] == rest[i - 1]);
                }
            }
            assert forall|i: int| 0 <= i < ps.len() implies (prev matches Some(w) ==> w
                < #[trigger] ps[i]) by {
                if i > 0 {
                    assert(ps[i] == rest[i - 1]);
                }
            }
        }
    }
}

/// Whatever the bytes, the positions that decoding yields strictly ascend.
proof fn lemma_positions_ascend(s: Seq<u8>, pos: int, n: nat, prev: Option<u32>)
    requires
        0 <= pos <= s.len(),
    ensures
        positions_ascend(entries_from(s, pos, n, prev)),
    decreases n,
{
    if n > 0 {
        lemma_header_bounds(s, pos, prev);
        if let Ok(h) = header_at(s, pos, prev) {
            lemma_positions_ascend(s, h.end, (n - 1) as nat, Some(h.doc));
            lemma_decoded_rise(s.take(h.end), h.start, h.tf as nat, None);
            let es = entries_from(s, pos, n, prev);
            let rest = entries_from(s, h.end, (n - 1) as nat, Some(h.doc));
            assert forall|i: int| 0 <= i < es.len() implies ((#[trigger] es[i]).positions matches Some(
                p,
            ) ==> ascending(p)) by {
                if i > 0 {
                    assert(es[i] == rest[i - 1]);
                }
            }
        }
    }
}

} // verus!
