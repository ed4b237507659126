//! Deletion bitmaps over the local document ids of a segment.

use super::envelope::{self, body_of, lemma_sealed_parses, parse_verified_view, sealed, Kind};
use super::{corrupt_view, read_u32_le, u32_at, Decoded, FormatError, FormatErrorView, Result};
use vstd::bytes::{lemma_auto_spec_u32_to_from_le_bytes, spec_u32_to_le_bytes, u32_to_le_bytes};
use vstd::prelude::*;
use vstd::slice::slice_to_vec;

verus! {

pub const BODY_HEADER_LEN: usize = 8;

/// Bit `i` of a bitmap, least significant bit first.
pub open spec fn bit_at(bits: Seq<u8>, i: int) -> bool {
    bits[i / 8] & (1u8 << ((i % 8) as u32)) != 0
}

/// The first `n` bits of a bitmap.
pub open spec fn bit_seq(bits: Seq<u8>, n: nat) -> Seq<bool> {
    Seq::new(n, |i: int| bit_at(bits, i))
}

/// How many of these are set.
pub open spec fn count_set(s: Seq<bool>) -> nat
    decreases s.len(),
{
    if s.len() == 0 {
        0
    } else {
        count_set(s.drop_last()) + if s.last() {
            1nat
        } else {
            0nat
        }
    }
}

/// The bytes that `n` bits take.
pub open spec fn bytes_for(n: int) -> int {
    (n + 7) / 8
}

/// No more are set than there are.
pub proof fn lemma_count_set_bound(s: Seq<bool>)
    ensures
        count_set(s) <= s.len(),
    decreases s.len(),
{
    if s.len() > 0 {
        lemma_count_set_bound(s.drop_last());
    }
}

proof fn lemma_count_push(bits: Seq<u8>, n: nat)
    ensures
        count_set(bit_seq(bits, n + 1)) == count_set(bit_seq(bits, n)) + if bit_at(bits, n as int) {
            1nat
        } else {
            0nat
        },
{
    assert(bit_seq(bits, n + 1).drop_last() =~= bit_seq(bits, n));
}

proof fn lemma_count_clear_tail(bits: Seq<u8>, n: nat, m: nat)
    requires
        n <= m,
        forall|i: int| n <= i < m ==> !bit_at(bits, i),
    ensures
        count_set(bit_seq(bits, m)) == count_set(bit_seq(bits, n)),
    decreases m - n,
{
    if n < m {
        lemma_count_push(bits, (m - 1) as nat);
        lemma_count_clear_tail(bits, n, (m - 1) as nat);
    }
}

/// Setting a bit changes that bit alone.
proof fn lemma_set_bit(b: u8, k: u32, j: u32)
    requires
        k < 8,
        j < 8,
    ensures
        ((b | (1u8 << k)) & (1u8 << j) != 0) == (b & (1u8 << j) != 0 || j == k),
{
    assert(((b | (1u8 << k)) & (1u8 << j) != 0) == (b & (1u8 << j) != 0 || j == k)) by (bit_vector)
        requires
            k < 8,
            j < 8,
    ;
}

fn test_bit(bits: &[u8], i: u64) -> (r: bool)
    requires
        i / 8 < bits@.len(),
    ensures
        r == bit_at(bits@, i as int),
{
    bits[(i / 8) as usize] & (1u8 << ((i % 8) as u32)) != 0
}

fn count_bits(bits: &[u8], n: u64) -> (c: u64)
    requires
        bytes_for(n as int) <= bits@.len(),
    ensures
        c == count_set(bit_seq(bits@, n as nat)),
{
    let mut c: u64 = 0;
    let mut i: u64 = 0;
    while i < n
        invariant
            i <= n,
            bytes_for(n as int) <= bits@.len(),
            c == count_set(bit_seq(bits@, i as nat)),
            c <= i,
        decreases n - i,
    {
        proof {
            lemma_count_push(bits@, i as nat);
        }
        if test_bit(bits, i) {
            c = c + 1;
        }
        i = i + 1;
    }
    c
}

fn any_bit(bits: &[u8], from: u64, to: u64) -> (r: bool)
    requires
        from <= to,
        bytes_for(to as int) <= bits@.len(),
    ensures
        r == exists|i: int| from <= i < to && bit_at(bits@, i),
{
    let mut i: u64 = from;
    while i < to
        invariant
            from <= i <= to,
            bytes_for(to as int) <= bits@.len(),
            forall|j: int| from <= j < i ==> !bit_at(bits@, j),
        decreases to - i,
    {
        if test_bit(bits, i) {
            return true;
        }
        i = i + 1;
    }
    false
}

/// Mutable bitmap used to build the next generation.
#[derive(Debug, PartialEq, Eq)]
pub struct Bitmap {
    num_docs: u32,
    bits: Vec<u8>,
}

impl View for Bitmap {
    type V = Seq<bool>;

    /// Which documents are deleted, by local id.
    closed spec fn view(&self) -> Seq<bool> {
        bit_seq(self.bits@, self.num_docs as nat)
    }
}

impl Clone for Bitmap {
    fn clone(&self) -> (r: Self)
        ensures
            r@ == self@,
            r.bytes() == self.bytes(),
            self.wf() ==> r.wf(),
    {
        Bitmap { num_docs: self.num_docs, bits: slice_to_vec(self.bits.as_slice()) }
    }
}

impl Bitmap {
    /// The bits, packed.
    pub closed spec fn bytes(&self) -> Seq<u8> {
        self.bits@
    }

    /// One bit a document, and no bit past the last document.
    pub closed spec fn wf(&self) -> bool {
        &&& self.bits@.len() == bytes_for(self.num_docs as int)
        &&& forall|i: int| self.num_docs <= i < 8 * self.bits@.len() ==> !bit_at(self.bits@, i)
    }

    /// What well-formedness says of the packed bits.
    pub proof fn lemma_wf(&self)
        requires
            self.wf(),
        ensures
            self@.len() <= u32::MAX,
            self@ == bit_seq(self.bytes(), self@.len()),
            self.bytes().len() == bytes_for(self@.len() as int),
            forall|i: int|
                self@.len() <= i < 8 * self.bytes().len() ==> !bit_at(self.bytes(), i),
    {
        assert(bit_seq(self.bits@, self.num_docs as nat) =~= bit_seq(self.bytes(), self@.len()));
    }

    /// A bitmap with no document deleted.
    pub fn new(num_docs: u32) -> (b: Self)
        ensures
            b.wf(),
            b@ == Seq::new(num_docs as nat, |i: int| false),
    {
        let n: usize = ((num_docs as u64 + 7) / 8) as usize;
        let bits: Vec<u8> = vec![0u8; n];
        let b = Bitmap { num_docs, bits };
        assert forall|i: int| 0 <= i < 8 * b.bits@.len() implies !bit_at(b.bits@, i) by {
            let k = (i % 8) as u32;
            assert(0u8 & (1u8 << k) == 0) by (bit_vector);
        }
        assert(b@ =~= Seq::new(num_docs as nat, |i: int| false));
        b
    }

    /// How many documents the bitmap is over.
    pub fn num_docs(&self) -> (n: u32)
        ensures
            n == self@.len(),
    {
        self.num_docs
    }

    /// Marks a document deleted; returns whether it was newly marked. An id out
    /// of range is ignored.
    pub fn set(&mut self, i: u32) -> (newly: bool)
        requires
            old(self).wf(),
        ensures
            final(self).wf(),
            final(self)@.len() == old(self)@.len(),
            newly == (i < old(self)@.len() && !old(self)@[i as int]),
            final(self)@ == if i < old(self)@.len() {
                old(self)@.update(i as int, true)
            } else {
                old(self)@
            },
    {
        if i >= self.num_docs {
            return false;
        }
        let at: usize = (i / 8) as usize;
        let k: u32 = i % 8;
        let was: bool = test_bit(self.bits.as_slice(), i as u64);
        let byte: u8 = self.bits[at];
        let ghost before = self.bits@;
        self.bits.set(at, byte | (1u8 << k));
        assert forall|j: int|
            #![trigger bit_at(self.bits@, j)]
            0 <= j < 8 * before.len() implies bit_at(self.bits@, j) == (bit_at(before, j) || j == i) by {
            if j / 8 == at {
                lemma_set_bit(byte, k, (j % 8) as u32);
            }
        }
        assert(self@ =~= old(self)@.update(i as int, true));
        !was
    }

    /// Whether a document is deleted; `false` out of range.
    pub fn get(&self, i: u32) -> (r: bool)
        requires
            self.wf(),
        ensures
            r == (i < self@.len() && self@[i as int]),
    {
        i < self.num_docs && test_bit(self.bits.as_slice(), i as u64)
    }

    /// How many documents are deleted.
    pub fn count(&self) -> (n: u32)
        requires
            self.wf(),
        ensures
            n == count_set(self@),
    {
        proof {
            lemma_count_set_bound(self@);
        }
        count_bits(self.bits.as_slice(), self.num_docs as u64) as u32
    }

    /// The complete deletion file.
    pub fn encode(&self) -> (out: Vec<u8>)
        requires
            self.wf(),
        ensures
            out@ == encoded(self@.len() as u32, count_set(self@) as u32, self.bytes()),
    {
        let mut body: Vec<u8> = Vec::new();
        let n: Vec<u8> = u32_to_le_bytes(self.num_docs);
        let c: Vec<u8> = u32_to_le_bytes(self.count());
        body.extend_from_slice(n.as_slice());
        body.extend_from_slice(c.as_slice());
        body.extend_from_slice(self.bits.as_slice());
        assert(body@ =~= body_view(self@.len() as u32, count_set(self@) as u32, self.bytes()));
        envelope::seal(Kind::Del, body.as_slice())
    }
}

/// The body of a deletion file: both counts, then the bits.
pub open spec fn body_view(num_docs: u32, num_deleted: u32, bits: Seq<u8>) -> Seq<u8> {
    spec_u32_to_le_bytes(num_docs) + spec_u32_to_le_bytes(num_deleted) + bits
}

/// A deletion file.
pub open spec fn encoded(num_docs: u32, num_deleted: u32, bits: Seq<u8>) -> Seq<u8> {
    sealed(Kind::Del, body_view(num_docs, num_deleted, bits))
}

/// What a deletion file says: `(documents, deleted, bits, checksum)`.
pub open spec fn parsed(s: Seq<u8>) -> Decoded<(u32, u32, Seq<u8>, u32)> {
    match parse_verified_view(Kind::Del, s) {
        Err(e) => Err(e),
        Ok(crc) => {
            let body = body_of(s);
            let num_docs = u32_at(body, 0);
            let num_deleted = u32_at(body, 4);
            let bits = body.subrange(BODY_HEADER_LEN as int, body.len() as int);
            if body.len() < BODY_HEADER_LEN {
                Err(
                    FormatErrorView::Truncated {
                        at: body.len() as int,
                        needed: BODY_HEADER_LEN as int,
                    },
                )
            } else if bits.len() != bytes_for(num_docs as int) {
                corrupt_view("deletion bitmap length does not match num_docs"@)
            } else if count_set(bit_seq(bits, 8 * bits.len())) != num_deleted {
                corrupt_view("num_deleted does not match bitmap popcount"@)
            } else if exists|i: int| num_docs <= i < 8 * bits.len() && bit_at(bits, i) {
                corrupt_view("deletion bitmap has bits past num_docs"@)
            } else {
                Ok((num_docs, num_deleted, bits, crc))
            }
        },
    }
}

/// Zero-copy view over a verified deletion file.
#[derive(Debug, Clone, Copy)]
pub struct DelView<'a> {
    num_docs: u32,
    num_deleted: u32,
    bits: &'a [u8],
    crc: u32,
}

impl<'a> DelView<'a> {
    /// The parts of the view, as [`parsed`] gives them.
    pub closed spec fn parts(&self) -> (u32, u32, Seq<u8>, u32) {
        (self.num_docs, self.num_deleted, self.bits@, self.crc)
    }

    /// One bit a document.
    pub closed spec fn wf(&self) -> bool {
        &&& self.bits@.len() == bytes_for(self.num_docs as int)
        &&& forall|i: int| self.num_docs <= i < 8 * self.bits@.len() ==> !bit_at(self.bits@, i)
        &&& self.num_deleted == count_set(bit_seq(self.bits@, self.num_docs as nat))
    }

    /// Deletion files are small and always verified against their checksum.
    pub fn parse_verified(bytes: &'a [u8]) -> (r: Result<Self>)
        ensures
            match r {
                Ok(v) => parsed(bytes@) == Ok::<_, FormatErrorView>(v.parts()) && v.wf(),
                Err(e) => parsed(bytes@) == Err::<(u32, u32, Seq<u8>, u32), _>(e@),
            },
    {
        let env = envelope::parse_verified(Kind::Del, bytes)?;
        let body = &bytes[env.body.start..env.body.end];
        if body.len() < BODY_HEADER_LEN {
            return Err(FormatError::Truncated { at: body.len(), needed: BODY_HEADER_LEN });
        }
        let num_docs: u32 = read_u32_le(body, 0)?;
        let num_deleted: u32 = read_u32_le(body, 4)?;
        let bits = &body[BODY_HEADER_LEN..body.len()];
        if bits.len() as u64 != (num_docs as u64 + 7) / 8 {
            return Err(FormatError::corrupt("deletion bitmap length does not match num_docs"));
        }
        let total: u64 = 8 * bits.len() as u64;
        if count_bits(bits, total) != num_deleted as u64 {
            return Err(FormatError::corrupt("num_deleted does not match bitmap popcount"));
        }
        if any_bit(bits, num_docs as u64, total) {
            return Err(FormatError::corrupt("deletion bitmap has bits past num_docs"));
        }
        proof {
            lemma_count_clear_tail(bits@, num_docs as nat, total as nat);
        }
        Ok(DelView { num_docs, num_deleted, bits, crc: env.crc })
    }

    pub fn num_docs(&self) -> (n: u32)
        ensures
            n == self.parts().0,
    {
        self.num_docs
    }

    pub fn num_deleted(&self) -> (n: u32)
        ensures
            n == self.parts().1,
    {
        self.num_deleted
    }

    pub fn crc(&self) -> (c: u32)
        ensures
            c == self.parts().3,
    {
        self.crc
    }

    /// Whether a document is deleted; `false` out of range.
    pub fn is_deleted(&self, i: u32) -> (r: bool)
        requires
            self.wf(),
        ensures
            r == (i < self.parts().0 && bit_at(self.parts().2, i as int)),
    {
        i < self.num_docs && test_bit(self.bits, i as u64)
    }

    /// The bitmap that the next generation starts from.
    pub fn to_bitmap(&self) -> (b: Bitmap)
        requires
            self.wf(),
        ensures
            b.wf(),
            b@ == bit_seq(self.parts().2, self.parts().0 as nat),
            b.bytes() == self.parts().2,
            count_set(b@) == self.parts().1,
    {
        Bitmap { num_docs: self.num_docs, bits: slice_to_vec(self.bits) }
    }
}

/// A bitmap read back from its own file is the bitmap that was written.
pub proof fn lemma_roundtrip(b: &Bitmap)
    requires
        b.wf(),
    ensures
        ({
            let n = b@.len() as u32;
            let c = count_set(b@) as u32;
            parsed(encoded(n, c, b.bytes())) matches Ok(p) && p.0 == n && p.1 == c && p.2 == b.bytes()
                && bit_seq(p.2, p.0 as nat) == b@
        }),
{
    lemma_auto_spec_u32_to_from_le_bytes();
    b.lemma_wf();
    lemma_count_set_bound(b@);
    let n = b@.len() as u32;
    let c = count_set(b@) as u32;
    let bits = b.bytes();
    let body = body_view(n, c, bits);
    lemma_sealed_parses(Kind::Del, body);
    lemma_count_clear_tail(bits, n as nat, 8 * bits.len());
    assert(body.subrange(0, 4) =~= spec_u32_to_le_bytes(n));
    assert(body.subrange(4, 8) =~= spec_u32_to_le_bytes(c));
    assert(body.subrange(8, body.len() as int) =~= bits);
}

/// Marking a document deleted adds one to the count when it was not marked
/// before, and leaves the count alone when it was.
pub proof fn lemma_set_counts_once(s: Seq<bool>, i: int)
    requires
        0 <= i < s.len(),
    ensures
        count_set(s.update(i, true)) == count_set(s) + if s[i] {
            0nat
        } else {
            1nat
        },
    decreases s.len(),
{
    if i == s.len() - 1 {
        assert(s.update(i, true).drop_last() =~= s.drop_last());
    } else {
        lemma_set_counts_once(s.drop_last(), i);
        assert(s.update(i, true).drop_last() =~= s.drop_last().update(i, true));
    }
}

} // verus!
