//! The manifest: which segments and which overlay make up a commit.

use super::envelope::{self, body_of, lemma_sealed_parses, parse_verified_view, sealed, Kind};
use super::{
    corrupt_view, i64_at, lemma_i64_bits, push_u32, push_u64, read_i64_le, read_u32_le, read_u64_le,
    u32_at, u64_at, Decoded, FormatError, FormatErrorView, Result,
};
use crate::text::{decimal, push_decimal};
use vstd::bytes::{
    lemma_auto_spec_u32_to_from_le_bytes, lemma_auto_spec_u64_to_from_le_bytes,
    spec_u32_to_le_bytes, spec_u64_to_le_bytes,
};
use vstd::prelude::*;

verus! {

pub const BODY_HEADER_LEN: usize = 48;

pub const ENTRY_LEN: usize = 80;

/// One committed segment.
#[derive(Debug, Clone, Copy, PartialEq, Eq, Structural)]
pub struct SegmentEntry {
    pub segment_id: u32,
    /// Zero where there is no deletions file.
    pub del_gen: u32,
    pub base_doc: u32,
    pub num_docs: u32,
    pub num_deleted: u32,
    pub idx_crc: u32,
    pub doc_crc: u32,
    pub del_crc: u32,
    pub idx_len: u64,
    pub doc_len: u64,
    pub del_len: u64,
    pub num_tokens: u64,
    pub num_postings: u64,
    pub num_terms: u64,
}

/// One commit.
#[derive(Debug, PartialEq, Eq)]
pub struct Manifest {
    pub generation: u64,
    pub next_segment_id: u32,
    pub committed_unix_nanos: i64,
    /// Zero where there is no overlay file.
    pub state_gen: u32,
    pub state_crc: u32,
    pub state_len: u64,
    /// Ascending `base_doc`, non-overlapping.
    pub segments: Vec<SegmentEntry>,
}

/// The value of a [`Manifest`].
pub ghost struct ManifestView {
    pub generation: u64,
    pub next_segment_id: u32,
    pub committed_unix_nanos: i64,
    pub state_gen: u32,
    pub state_crc: u32,
    pub state_len: u64,
    pub segments: Seq<SegmentEntry>,
}

impl View for Manifest {
    type V = ManifestView;

    open spec fn view(&self) -> ManifestView {
        ManifestView {
            generation: self.generation,
            next_segment_id: self.next_segment_id,
            committed_unix_nanos: self.committed_unix_nanos,
            state_gen: self.state_gen,
            state_crc: self.state_crc,
            state_len: self.state_len,
            segments: self.segments@,
        }
    }
}

impl Default for SegmentEntry {
    fn default() -> (e: Self)
        ensures
            e == (SegmentEntry {
                segment_id: 0,
                del_gen: 0,
                base_doc: 0,
                num_docs: 0,
                num_deleted: 0,
                idx_crc: 0,
                doc_crc: 0,
                del_crc: 0,
                idx_len: 0,
                doc_len: 0,
                del_len: 0,
                num_tokens: 0,
                num_postings: 0,
                num_terms: 0,
            }),
    {
        SegmentEntry {
            segment_id: 0,
            del_gen: 0,
            base_doc: 0,
            num_docs: 0,
            num_deleted: 0,
            idx_crc: 0,
            doc_crc: 0,
            del_crc: 0,
            idx_len: 0,
            doc_len: 0,
            del_len: 0,
            num_tokens: 0,
            num_postings: 0,
            num_terms: 0,
        }
    }
}

impl Default for Manifest {
    fn default() -> (m: Self)
        ensures
            m@ == (ManifestView {
                generation: 0,
                next_segment_id: 0,
                committed_unix_nanos: 0,
                state_gen: 0,
                state_crc: 0,
                state_len: 0,
                segments: Seq::empty(),
            }),
    {
        Manifest {
            generation: 0,
            next_segment_id: 0,
            committed_unix_nanos: 0,
            state_gen: 0,
            state_crc: 0,
            state_len: 0,
            segments: Vec::new(),
        }
    }
}

impl Clone for Manifest {
    fn clone(&self) -> (m: Self)
        ensures
            m@ == self@,
    {
        let mut segments: Vec<SegmentEntry> = Vec::new();
        let mut i: usize = 0;
        while i < self.segments.len()
            invariant
                i <= self.segments@.len(),
                segments@ =~= self.segments@.take(i as int),
            decreases self.segments@.len() - i,
        {
            segments.push(self.segments[i]);
            i = i + 1;
        }
        assert(segments@ =~= self.segments@);
        Manifest {
            generation: self.generation,
            next_segment_id: self.next_segment_id,
            committed_unix_nanos: self.committed_unix_nanos,
            state_gen: self.state_gen,
            state_crc: self.state_crc,
            state_len: self.state_len,
            segments,
        }
    }
}

impl SegmentEntry {
    /// One past the last global id of this segment.
    pub open spec fn end(&self) -> int {
        self.base_doc + self.num_docs
    }

    /// Total bytes on disk for this segment.
    pub open spec fn bytes_total(&self) -> int {
        self.idx_len + self.doc_len + self.del_len
    }

    /// The encoding of one entry.
    pub open spec fn bytes(&self) -> Seq<u8> {
        spec_u32_to_le_bytes(self.segment_id) + spec_u32_to_le_bytes(self.del_gen)
            + spec_u32_to_le_bytes(self.base_doc) + spec_u32_to_le_bytes(self.num_docs)
            + spec_u32_to_le_bytes(self.num_deleted) + spec_u32_to_le_bytes(self.idx_crc)
            + spec_u32_to_le_bytes(self.doc_crc) + spec_u32_to_le_bytes(self.del_crc)
            + spec_u64_to_le_bytes(self.idx_len) + spec_u64_to_le_bytes(self.doc_len)
            + spec_u64_to_le_bytes(self.del_len) + spec_u64_to_le_bytes(self.num_tokens)
            + spec_u64_to_le_bytes(self.num_postings) + spec_u64_to_le_bytes(self.num_terms)
    }

    /// The entry encoded at `at`.
    pub open spec fn at(b: Seq<u8>, at: int) -> SegmentEntry {
        SegmentEntry {
            segment_id: u32_at(b, at),
            del_gen: u32_at(b, at + 4),
            base_doc: u32_at(b, at + 8),
            num_docs: u32_at(b, at + 12),
            num_deleted: u32_at(b, at + 16),
            idx_crc: u32_at(b, at + 20),
            doc_crc: u32_at(b, at + 24),
            del_crc: u32_at(b, at + 28),
            idx_len: u64_at(b, at + 32),
            doc_len: u64_at(b, at + 40),
            del_len: u64_at(b, at + 48),
            num_tokens: u64_at(b, at + 56),
            num_postings: u64_at(b, at + 64),
            num_terms: u64_at(b, at + 72),
        }
    }

    fn encode(&self, out: &mut Vec<u8>)
        ensures
            final(out)@ == old(out)@ + self.bytes(),
    {
        let ghost start = out@;
        push_u32(out, self.segment_id);
        push_u32(out, self.del_gen);
        push_u32(out, self.base_doc);
        push_u32(out, self.num_docs);
        push_u32(out, self.num_deleted);
        push_u32(out, self.idx_crc);
        push_u32(out, self.doc_crc);
        push_u32(out, self.del_crc);
        push_u64(out, self.idx_len);
        push_u64(out, self.doc_len);
        push_u64(out, self.del_len);
        push_u64(out, self.num_tokens);
        push_u64(out, self.num_postings);
        push_u64(out, self.num_terms);
        assert(out@ =~= start + self.bytes());
    }

    fn decode(b: &[u8], at: usize) -> (r: Result<Self>)
        requires
            at + ENTRY_LEN <= b@.len(),
        ensures
            r == Ok::<SegmentEntry, FormatError>(SegmentEntry::at(b@, at as int)),
    {
        assert(b@.len() == b.len());
        Ok(
            SegmentEntry {
                segment_id: read_u32_le(b, at)?,
                del_gen: read_u32_le(b, at + 4)?,
                base_doc: read_u32_le(b, at + 8)?,
                num_docs: read_u32_le(b, at + 12)?,
                num_deleted: read_u32_le(b, at + 16)?,
                idx_crc: read_u32_le(b, at + 20)?,
                doc_crc: read_u32_le(b, at + 24)?,
                del_crc: read_u32_le(b, at + 28)?,
                idx_len: read_u64_le(b, at + 32)?,
                doc_len: read_u64_le(b, at + 40)?,
                del_len: read_u64_le(b, at + 48)?,
                num_tokens: read_u64_le(b, at + 56)?,
                num_postings: read_u64_le(b, at + 64)?,
                num_terms: read_u64_le(b, at + 72)?,
            },
        )
    }

    /// One past the last global id of this segment.
    pub fn end_doc(&self) -> (r: u64)
        ensures
            r == self.end(),
    {
        self.base_doc as u64 + self.num_docs as u64
    }

    /// Live (not deleted) documents.
    pub fn live_docs(&self) -> (r: u32)
        requires
            self.num_deleted <= self.num_docs,
        ensures
            r == self.num_docs - self.num_deleted,
    {
        self.num_docs - self.num_deleted
    }

    /// Total bytes on disk for this segment, all files.
    pub fn total_bytes(&self) -> (r: u64)
        requires
            self.bytes_total() <= u64::MAX,
        ensures
            r == self.bytes_total(),
    {
        self.idx_len + self.doc_len + self.del_len
    }
}

/// What is wrong with an entry behind `prev`, if anything.
pub open spec fn entry_fault(
    e: SegmentEntry,
    prev: Option<SegmentEntry>,
    next_segment_id: u32,
) -> Option<Seq<char>> {
    if e.segment_id >= next_segment_id {
        Some("segment id not below next_segment_id"@)
    } else if prev matches Some(p) && e.base_doc < p.end() {
        Some("segment doc ranges overlap or are unordered"@)
    } else if prev matches Some(p) && e.segment_id == p.segment_id {
        Some("duplicate segment id"@)
    } else if e.end() > u32::MAX + 1 {
        Some("segment exceeds the u32 doc id space"@)
    } else if (e.del_gen == 0) != (e.del_len == 0) {
        Some("del_gen and del_len disagree"@)
    } else if e.num_deleted > e.num_docs {
        Some("num_deleted exceeds num_docs"@)
    } else {
        None
    }
}

/// The entry before `i`, if any.
pub open spec fn prev_entry(segments: Seq<SegmentEntry>, i: int) -> Option<SegmentEntry> {
    if i > 0 {
        Some(segments[i - 1])
    } else {
        None
    }
}

/// The first fault among the entries from `i` on.
pub open spec fn first_fault(
    segments: Seq<SegmentEntry>,
    next_segment_id: u32,
    i: int,
) -> Option<Seq<char>>
    decreases segments.len() - i,
{
    if i >= segments.len() {
        None
    } else {
        match entry_fault(segments[i], prev_entry(segments, i), next_segment_id) {
            Some(msg) => Some(msg),
            None => first_fault(segments, next_segment_id, i + 1),
        }
    }
}

/// What a manifest on disk always satisfies.
pub open spec fn valid(m: ManifestView) -> bool {
    &&& (m.state_gen == 0) == (m.state_len == 0)
    &&& m.segments.len() <= u32::MAX
    &&& forall|i: int|
        0 <= i < m.segments.len() ==> (#[trigger] entry_fault(
            m.segments[i],
            prev_entry(m.segments, i),
            m.next_segment_id,
        )) is None
}

/// What a valid manifest says of one entry.
pub proof fn lemma_entry(m: ManifestView, i: int)
    requires
        valid(m),
        0 <= i < m.segments.len(),
    ensures
        m.segments[i].end() <= u32::MAX + 1,
        m.segments[i].num_deleted <= m.segments[i].num_docs,
        m.segments[i].segment_id < m.next_segment_id,
{
    assert(entry_fault(m.segments[i], prev_entry(m.segments, i), m.next_segment_id) is None);
}

/// Segments in a valid manifest do not share document ids.
pub proof fn lemma_segments_disjoint(m: ManifestView, i: int, j: int)
    requires
        valid(m),
        0 <= i < j < m.segments.len(),
    ensures
        m.segments[i].end() <= m.segments[j].base_doc,
    decreases j - i,
{
    assert(entry_fault(m.segments[j], prev_entry(m.segments, j), m.next_segment_id) is None);
    if i + 1 < j {
        lemma_segments_disjoint(m, i, j - 1);
    }
}

/// The entries, one behind the other.
pub open spec fn entries_bytes(segments: Seq<SegmentEntry>) -> Seq<u8>
    decreases segments.len(),
{
    if segments.len() == 0 {
        Seq::empty()
    } else {
        entries_bytes(segments.drop_last()) + segments.last().bytes()
    }
}

/// The fixed part of the body.
pub open spec fn head_bytes(m: ManifestView) -> Seq<u8> {
    spec_u64_to_le_bytes(m.generation) + spec_u32_to_le_bytes(m.next_segment_id)
        + spec_u32_to_le_bytes(m.segments.len() as u32) + spec_u64_to_le_bytes(
        m.committed_unix_nanos as u64,
    ) + spec_u32_to_le_bytes(m.state_gen) + spec_u32_to_le_bytes(m.state_crc)
        + spec_u64_to_le_bytes(m.state_len) + spec_u64_to_le_bytes(0)
}

/// A manifest file.
pub open spec fn encoded(m: ManifestView) -> Seq<u8> {
    sealed(Kind::Manifest, head_bytes(m) + entries_bytes(m.segments))
}

/// The manifest a body holds, before any check on it.
pub open spec fn manifest_in(b: Seq<u8>) -> ManifestView {
    ManifestView {
        generation: u64_at(b, 0),
        next_segment_id: u32_at(b, 8),
        committed_unix_nanos: i64_at(b, 16),
        state_gen: u32_at(b, 24),
        state_crc: u32_at(b, 28),
        state_len: u64_at(b, 32),
        segments: Seq::new(
            u32_at(b, 12) as nat,
            |i: int| SegmentEntry::at(b, BODY_HEADER_LEN + i * ENTRY_LEN),
        ),
    }
}

/// The message for a body that does not have the length its count asks for.
pub open spec fn body_mismatch(len: nat, n: nat) -> Seq<char> {
    "manifest body is "@ + decimal(len) + " bytes, expected "@ + decimal(
        (BODY_HEADER_LEN + ENTRY_LEN * n) as nat,
    ) + " for "@ + decimal(n) + " segments"@
}

/// What a manifest file says.
pub open spec fn decoded(s: Seq<u8>) -> Decoded<ManifestView> {
    match parse_verified_view(Kind::Manifest, s) {
        Err(e) => Err(e),
        Ok(crc) => {
            let b = body_of(s);
            let m = manifest_in(b);
            if b.len() < BODY_HEADER_LEN {
                Err(
                    FormatErrorView::Truncated {
                        at: b.len() as int,
                        needed: BODY_HEADER_LEN as int,
                    },
                )
            } else if u64_at(b, 40) != 0 {
                corrupt_view("manifest reserved field is non-zero"@)
            } else if (m.state_gen == 0) != (m.state_len == 0) {
                corrupt_view("state_gen and state_len disagree"@)
            } else if b.len() != BODY_HEADER_LEN + ENTRY_LEN * u32_at(b, 12) {
                corrupt_view(body_mismatch(b.len(), u32_at(b, 12) as nat))
            } else {
                match first_fault(m.segments, m.next_segment_id, 0) {
                    Some(msg) => corrupt_view(msg),
                    None => Ok(m),
                }
            }
        },
    }
}

impl Manifest {
    /// The complete file.
    pub fn encode(&self) -> (out: Vec<u8>)
        ensures
            out@ == encoded(self@),
    {
        let mut body: Vec<u8> = Vec::new();
        push_u64(&mut body, self.generation);
        push_u32(&mut body, self.next_segment_id);
        push_u32(&mut body, self.segments.len() as u32);
        push_u64(&mut body, self.committed_unix_nanos as u64);
        push_u32(&mut body, self.state_gen);
        push_u32(&mut body, self.state_crc);
        push_u64(&mut body, self.state_len);
        push_u64(&mut body, 0);
        assert(body@ =~= head_bytes(self@));
        let mut i: usize = 0;
        while i < self.segments.len()
            invariant
                i <= self.segments@.len(),
                body@ =~= head_bytes(self@) + entries_bytes(self.segments@.take(i as int)),
            decreases self.segments@.len() - i,
        {
            let e = self.segments[i];
            e.encode(&mut body);
            assert(self.segments@.take(i as int + 1).drop_last() =~= self.segments@.take(i as int));
            i = i + 1;
        }
        assert(self.segments@.take(i as int) =~= self.segments@);
        envelope::seal(Kind::Manifest, body.as_slice())
    }

    /// Envelope and checksum verified, then the structural checks.
    pub fn decode(bytes: &[u8]) -> (r: Result<Self>)
        ensures
            match r {
                Ok(m) => decoded(bytes@) == Ok::<ManifestView, FormatErrorView>(m@),
                Err(e) => decoded(bytes@) == Err::<ManifestView, _>(e@),
            },
    {
        let env = envelope::parse_verified(Kind::Manifest, bytes)?;
        let b = &bytes[env.body.start..env.body.end];
        assert(b@ == body_of(bytes@));
        if b.len() < BODY_HEADER_LEN {
            return Err(FormatError::Truncated { at: b.len(), needed: BODY_HEADER_LEN });
        }
        let ghost want = manifest_in(b@);
        let generation: u64 = read_u64_le(b, 0)?;
        let next_segment_id: u32 = read_u32_le(b, 8)?;
        let num_segments: u32 = read_u32_le(b, 12)?;
        let committed_unix_nanos: i64 = read_i64_le(b, 16)?;
        let state_gen: u32 = read_u32_le(b, 24)?;
        let state_crc: u32 = read_u32_le(b, 28)?;
        let state_len: u64 = read_u64_le(b, 32)?;
        let reserved: u64 = read_u64_le(b, 40)?;
        if reserved != 0 {
            return Err(FormatError::corrupt("manifest reserved field is non-zero"));
        }
        if (state_gen == 0) != (state_len == 0) {
            return Err(FormatError::corrupt("state_gen and state_len disagree"));
        }
        let expected: u64 = BODY_HEADER_LEN as u64 + ENTRY_LEN as u64 * num_segments as u64;
        if b.len() as u64 != expected {
            let mut msg = "manifest body is ".to_string();
            push_decimal(&mut msg, b.len() as u64);
            msg.push_str(" bytes, expected ");
            push_decimal(&mut msg, expected);
            msg.push_str(" for ");
            push_decimal(&mut msg, num_segments as u64);
            msg.push_str(" segments");
            return Err(FormatError::Corrupt(msg));
        }
        let mut segments: Vec<SegmentEntry> = Vec::new();
        let mut i: usize = 0;
        while i < num_segments as usize
            invariant
                i <= num_segments,
                b@.len() == BODY_HEADER_LEN + ENTRY_LEN * num_segments,
                want == manifest_in(b@),
                num_segments == want.segments.len(),
                next_segment_id == want.next_segment_id,
                segments@ =~= want.segments.take(i as int),
                first_fault(want.segments, next_segment_id, 0) == first_fault(
                    want.segments,
                    next_segment_id,
                    i as int,
                ),
                b@ == body_of(bytes@),
                parse_verified_view(Kind::Manifest, bytes@) is Ok,
                u64_at(b@, 40) == 0,
                (want.state_gen == 0) == (want.state_len == 0),
            decreases num_segments - i,
        {
            assert(b@.len() == b.len());
            assert(BODY_HEADER_LEN + i * ENTRY_LEN + ENTRY_LEN <= b@.len()) by (nonlinear_arith)
                requires
                    i < num_segments,
                    b@.len() == 48 + 80 * num_segments,
                    BODY_HEADER_LEN == 48,
                    ENTRY_LEN == 80,
            ;
            let e = SegmentEntry::decode(b, BODY_HEADER_LEN + i * ENTRY_LEN)?;
            assert(e == want.segments[i as int]);
            if e.segment_id >= next_segment_id {
                return Err(FormatError::corrupt("segment id not below next_segment_id"));
            }
            if i > 0 {
                let prev = segments[i - 1];
                assert(prev == want.segments[i - 1]);
                if (e.base_doc as u64) < prev.end_doc() {
                    return Err(FormatError::corrupt("segment doc ranges overlap or are unordered"));
                }
                if e.segment_id == prev.segment_id {
                    return Err(FormatError::corrupt("duplicate segment id"));
                }
            }
            if e.end_doc() > u32::MAX as u64 + 1 {
                return Err(FormatError::corrupt("segment exceeds the u32 doc id space"));
            }
            if (e.del_gen == 0) != (e.del_len == 0) {
                return Err(FormatError::corrupt("del_gen and del_len disagree"));
            }
            if e.num_deleted > e.num_docs {
                return Err(FormatError::corrupt("num_deleted exceeds num_docs"));
            }
            segments.push(e);
            i = i + 1;
        }
        assert(segments@ =~= want.segments);
        Ok(
            Manifest {
                generation,
                next_segment_id,
                committed_unix_nanos,
                state_gen,
                state_crc,
                state_len,
                segments,
            },
        )
    }
}

proof fn lemma_first_fault_none(segments: Seq<SegmentEntry>, next_segment_id: u32, i: int)
    requires
        0 <= i,
    ensures
        first_fault(segments, next_segment_id, i) is None <==> forall|k: int|
            #![trigger segments[k]]
            i <= k < segments.len() ==> entry_fault(
                segments[k],
                prev_entry(segments, k),
                next_segment_id,
            ) is None,
    decreases segments.len() - i,
{
    if i < segments.len() {
        lemma_first_fault_none(segments, next_segment_id, i + 1);
        let here = segments[i];
    }
}

/// Every manifest that decodes is valid.
pub proof fn lemma_decoded_is_valid(s: Seq<u8>)
    ensures
        decoded(s) matches Ok(m) ==> valid(m),
{
    if let Ok(m) = decoded(s) {
        lemma_first_fault_none(m.segments, m.next_segment_id, 0);
    }
}

proof fn lemma_entries_bytes(segments: Seq<SegmentEntry>, i: int)
    ensures
        entries_bytes(segments).len() == ENTRY_LEN * segments.len(),
        0 <= i < segments.len() ==> entries_bytes(segments).subrange(
            i * ENTRY_LEN,
            i * ENTRY_LEN + ENTRY_LEN,
        ) == segments[i].bytes(),
    decreases segments.len(),
{
    lemma_auto_spec_u32_to_from_le_bytes();
    lemma_auto_spec_u64_to_from_le_bytes();
    if segments.len() > 0 {
        lemma_entries_bytes(segments.drop_last(), i);
        let a = entries_bytes(segments.drop_last());
        let b = segments.last().bytes();
        assert(b.len() == ENTRY_LEN);
        if 0 <= i < segments.len() - 1 {
            assert(i * ENTRY_LEN + ENTRY_LEN <= a.len()) by (nonlinear_arith)
                requires
                    i < segments.len() - 1,
                    a.len() == 80 * (segments.len() - 1),
                    ENTRY_LEN == 80,
            ;
            assert((a + b).subrange(i * ENTRY_LEN, i * ENTRY_LEN + ENTRY_LEN) =~= a.subrange(
                i * ENTRY_LEN,
                i * ENTRY_LEN + ENTRY_LEN,
            ));
        } else if i == segments.len() - 1 {
            assert((a + b).subrange(i * ENTRY_LEN, i * ENTRY_LEN + ENTRY_LEN) =~= b);
        }
    }
}

proof fn lemma_entry_at(s: Seq<u8>, at: int, e: SegmentEntry)
    requires
        0 <= at,
        at + ENTRY_LEN <= s.len(),
        s.subrange(at, at + ENTRY_LEN) == e.bytes(),
    ensures
        SegmentEntry::at(s, at) == e,
{
    lemma_auto_spec_u32_to_from_le_bytes();
    lemma_auto_spec_u64_to_from_le_bytes();
    let w = e.bytes();
    assert(s.subrange(at, at + 4) =~= w.subrange(0, 4));
    assert(w.subrange(0, 4) =~= spec_u32_to_le_bytes(e.segment_id));
    assert(s.subrange(at + 4, at + 8) =~= w.subrange(4, 8));
    assert(w.subrange(4, 8) =~= spec_u32_to_le_bytes(e.del_gen));
    assert(s.subrange(at + 8, at + 12) =~= w.subrange(8, 12));
    assert(w.subrange(8, 12) =~= spec_u32_to_le_bytes(e.base_doc));
    assert(s.subrange(at + 12, at + 16) =~= w.subrange(12, 16));
    assert(w.subrange(12, 16) =~= spec_u32_to_le_bytes(e.num_docs));
    assert(s.subrange(at + 16, at + 20) =~= w.subrange(16, 20));
    assert(w.subrange(16, 20) =~= spec_u32_to_le_bytes(e.num_deleted));
    assert(s.subrange(at + 20, at + 24) =~= w.subrange(20, 24));
    assert(w.subrange(20, 24) =~= spec_u32_to_le_bytes(e.idx_crc));
    assert(s.subrange(at + 24, at + 28) =~= w.subrange(24, 28));
    assert(w.subrange(24, 28) =~= spec_u32_to_le_bytes(e.doc_crc));
    assert(s.subrange(at + 28, at + 32) =~= w.subrange(28, 32));
    assert(w.subrange(28, 32) =~= spec_u32_to_le_bytes(e.del_crc));
    assert(s.subrange(at + 32, at + 40) =~= w.subrange(32, 40));
    assert(w.subrange(32, 40) =~= spec_u64_to_le_bytes(e.idx_len));
    assert(s.subrange(at + 40, at + 48) =~= w.subrange(40, 48));
    assert(w.subrange(40, 48) =~= spec_u64_to_le_bytes(e.doc_len));
    assert(s.subrange(at + 48, at + 56) =~= w.subrange(48, 56));
    assert(w.subrange(48, 56) =~= spec_u64_to_le_bytes(e.del_len));
    assert(s.subrange(at + 56, at + 64) =~= w.subrange(56, 64));
    assert(w.subrange(56, 64) =~= spec_u64_to_le_bytes(e.num_tokens));
    assert(s.subrange(at + 64, at + 72) =~= w.subrange(64, 72));
    assert(w.subrange(64, 72) =~= spec_u64_to_le_bytes(e.num_postings));
    assert(s.subrange(at + 72, at + 80) =~= w.subrange(72, 80));
    assert(w.subrange(72, 80) =~= spec_u64_to_le_bytes(e.num_terms));
}

proof fn lemma_head_in(m: ManifestView, tail: Seq<u8>)
    ensures
        ({
            let b = head_bytes(m) + tail;
            &&& head_bytes(m).len() == BODY_HEADER_LEN
            &&& u64_at(b, 0) == m.generation
            &&& u32_at(b, 8) == m.next_segment_id
            &&& u32_at(b, 12) == m.segments.len() as u32
            &&& i64_at(b, 16) == m.committed_unix_nanos
            &&& u32_at(b, 24) == m.state_gen
            &&& u32_at(b, 28) == m.state_crc
            &&& u64_at(b, 32) == m.state_len
            &&& u64_at(b, 40) == 0
        }),
{
    lemma_auto_spec_u32_to_from_le_bytes();
    lemma_auto_spec_u64_to_from_le_bytes();
    lemma_i64_bits(m.committed_unix_nanos);
    let b = head_bytes(m) + tail;
    assert(b.subrange(0, 8) =~= spec_u64_to_le_bytes(m.generation));
    assert(b.subrange(8, 12) =~= spec_u32_to_le_bytes(m.next_segment_id));
    assert(b.subrange(12, 16) =~= spec_u32_to_le_bytes(m.segments.len() as u32));
    assert(b.subrange(16, 24) =~= spec_u64_to_le_bytes(m.committed_unix_nanos as u64));
    assert(b.subrange(24, 28) =~= spec_u32_to_le_bytes(m.state_gen));
    assert(b.subrange(28, 32) =~= spec_u32_to_le_bytes(m.state_crc));
    assert(b.subrange(32, 40) =~= spec_u64_to_le_bytes(m.state_len));
    assert(b.subrange(40, 48) =~= spec_u64_to_le_bytes(0));
}

proof fn lemma_entry_behind(head: Seq<u8>, segments: Seq<SegmentEntry>, i: int)
    requires
        head.len() == BODY_HEADER_LEN,
        0 <= i < segments.len(),
    ensures
        SegmentEntry::at(head + entries_bytes(segments), BODY_HEADER_LEN + i * ENTRY_LEN)
            == segments[i],
{
    let tail = entries_bytes(segments);
    let b = head + tail;
    let at = BODY_HEADER_LEN + i * ENTRY_LEN;
    lemma_entries_bytes(segments, i);
    assert(0 <= i * ENTRY_LEN && i * ENTRY_LEN + ENTRY_LEN <= tail.len()) by (nonlinear_arith)
        requires
            0 <= i < segments.len(),
            tail.len() == 80 * segments.len(),
            ENTRY_LEN == 80,
    ;
    assert(b.subrange(at, at + ENTRY_LEN) =~= tail.subrange(
        i * ENTRY_LEN,
        i * ENTRY_LEN + ENTRY_LEN,
    ));
    lemma_entry_at(b, at, segments[i]);
}

/// The body of an encoded manifest is read as the manifest, valid or not.
proof fn lemma_body(m: ManifestView)
    requires
        m.segments.len() <= u32::MAX,
    ensures
        ({
            let b = head_bytes(m) + entries_bytes(m.segments);
            &&& manifest_in(b) == m
            &&& parse_verified_view(Kind::Manifest, encoded(m)) is Ok
            &&& body_of(encoded(m)) == b
            &&& u64_at(b, 40) == 0
            &&& b.len() == BODY_HEADER_LEN + ENTRY_LEN * u32_at(b, 12)
        }),
{
    let head = head_bytes(m);
    let tail = entries_bytes(m.segments);
    let b = head + tail;
    lemma_head_in(m, tail);
    lemma_entries_bytes(m.segments, -1);
    lemma_sealed_parses(Kind::Manifest, b);
    let got = manifest_in(b);
    assert forall|i: int| 0 <= i < m.segments.len() implies got.segments[i] == m.segments[i] by {
        lemma_entry_behind(head, m.segments, i);
    }
    assert(got.segments =~= m.segments);
}

/// Decoding an encoded manifest gives the manifest back.
pub proof fn lemma_roundtrip(m: ManifestView)
    requires
        valid(m),
    ensures
        decoded(encoded(m)) == Ok::<ManifestView, FormatErrorView>(m),
{
    lemma_body(m);
    lemma_first_fault_none(m.segments, m.next_segment_id, 0);
}

/// A manifest that is not valid is refused, though its checksum is right.
pub proof fn lemma_refuses_invalid(m: ManifestView)
    requires
        !valid(m),
        m.segments.len() <= u32::MAX,
    ensures
        decoded(encoded(m)) matches Err(FormatErrorView::Corrupt(_)),
{
    lemma_body(m);
    if (m.state_gen == 0) == (m.state_len == 0) {
        let i = choose|i: int|
            0 <= i < m.segments.len() && (#[trigger] entry_fault(
                m.segments[i],
                prev_entry(m.segments, i),
                m.next_segment_id,
            )) is Some;
        lemma_fault_found(m.segments, m.next_segment_id, 0, i);
    }
}

/// A fault is found from any entry before it on.
proof fn lemma_fault_found(segments: Seq<SegmentEntry>, next_id: u32, from: int, i: int)
    requires
        0 <= from <= i < segments.len(),
        entry_fault(segments[i], prev_entry(segments, i), next_id) is Some,
    ensures
        first_fault(segments, next_id, from) is Some,
    decreases i - from,
{
    if from < i {
        lemma_fault_found(segments, next_id, from + 1, i);
    }
}

} // verus!
