//! On-disk encodings: pure functions over byte slices, no I/O.

pub mod check_laws;
pub mod del;
pub mod dict_laws;
pub mod doc;
pub mod envelope;
pub mod fault_laws;
pub mod heap;
pub mod idx;
pub mod idx_laws;
pub mod manifest;
pub mod overlay;
pub mod postings;
pub mod varint;

use vstd::bytes::{
    spec_u32_from_le_bytes, spec_u32_to_le_bytes, spec_u64_from_le_bytes, spec_u64_to_le_bytes,
    u32_from_le_bytes, u32_to_le_bytes, u64_from_le_bytes, u64_to_le_bytes,
};
use vstd::prelude::*;

use crate::text::{decimal, hex8, push_decimal, push_hex};

verus! {

/// Anything wrong with bytes being decoded, or with data refused by an encoder.
#[derive(Debug, Clone, PartialEq, Eq)]
pub enum FormatError {
    /// Fewer than `needed` bytes are left at offset `at`.
    Truncated { at: usize, needed: usize },
    /// The file does not start with the expected magic.
    BadMagic,
    /// The file was written in another format version.
    Version(u32),
    /// The bytes contradict themselves.
    Corrupt(String),
    /// The stored checksum is not that of the body.
    Checksum { stored: u32, computed: u32 },
    /// The encoder was handed data that violates a documented invariant.
    Invariant(&'static str),
}

/// The value of a [`FormatError`].
pub ghost enum FormatErrorView {
    Truncated { at: int, needed: int },
    BadMagic,
    Version(u32),
    Corrupt(Seq<char>),
    Checksum { stored: u32, computed: u32 },
    Invariant(Seq<char>),
}

impl View for FormatError {
    type V = FormatErrorView;

    open spec fn view(&self) -> FormatErrorView {
        match self {
            FormatError::Truncated { at, needed } => FormatErrorView::Truncated {
                at: *at as int,
                needed: *needed as int,
            },
            FormatError::BadMagic => FormatErrorView::BadMagic,
            FormatError::Version(v) => FormatErrorView::Version(*v),
            FormatError::Corrupt(s) => FormatErrorView::Corrupt(s@),
            FormatError::Checksum { stored, computed } => FormatErrorView::Checksum {
                stored: *stored,
                computed: *computed,
            },
            FormatError::Invariant(s) => FormatErrorView::Invariant(s@),
        }
    }
}

/// What decoding or encoding yields.
pub type Result<T> = core::result::Result<T, FormatError>;

/// The outcome of a decoding step in specifications.
pub type Decoded<T> = core::result::Result<T, FormatErrorView>;

/// A corrupt-bytes error in specifications.
pub open spec fn corrupt_view<T>(msg: Seq<char>) -> Decoded<T> {
    Err(FormatErrorView::Corrupt(msg))
}

impl FormatError {
    /// A [`FormatError::Corrupt`] with this message.
    pub fn corrupt(msg: &str) -> (e: Self)
        ensures
            e@ == FormatErrorView::Corrupt(msg@),
    {
        FormatError::Corrupt(msg.to_string())
    }

    /// What is told of the error.
    pub fn message(&self) -> (r: String)
        ensures
            r@ == format_message(self@),
    {
        match self {
            FormatError::Truncated { at, needed } => {
                let mut r: String = "truncated: needed ".to_string();
                push_decimal(&mut r, *needed as u64);
                r.push_str(" bytes at offset ");
                push_decimal(&mut r, *at as u64);
                r
            },
            FormatError::BadMagic => "bad magic".to_string(),
            FormatError::Version(v) => {
                let mut r: String = "unsupported format version ".to_string();
                push_decimal(&mut r, *v as u64);
                r
            },
            FormatError::Corrupt(msg) => {
                let mut r: String = "corrupt: ".to_string();
                r.push_str(msg.as_str());
                r
            },
            FormatError::Checksum { stored, computed } => {
                let mut r: String = "checksum mismatch: stored ".to_string();
                push_hex(&mut r, *stored);
                r.push_str(", computed ");
                push_hex(&mut r, *computed);
                r
            },
            FormatError::Invariant(msg) => {
                let mut r: String = "encoder invariant violated: ".to_string();
                r.push_str(*msg);
                r
            },
        }
    }
}

/// What is told of an error.
pub open spec fn format_message(e: FormatErrorView) -> Seq<char> {
    match e {
        FormatErrorView::Truncated { at, needed } => "truncated: needed "@ + decimal(needed as nat)
            + " bytes at offset "@ + decimal(at as nat),
        FormatErrorView::BadMagic => "bad magic"@,
        FormatErrorView::Version(v) => "unsupported format version "@ + decimal(v as nat),
        FormatErrorView::Corrupt(msg) => "corrupt: "@ + msg,
        FormatErrorView::Checksum { stored, computed } => "checksum mismatch: stored "@ + hex8(
            stored,
        ) + ", computed "@ + hex8(computed),
        FormatErrorView::Invariant(msg) => "encoder invariant violated: "@ + msg,
    }
}

/// `s` holds the bytes `b` at offset `at`.
pub open spec fn holds(s: Seq<u8>, at: int, b: Seq<u8>) -> bool {
    &&& 0 <= at
    &&& at + b.len() <= s.len()
    &&& s.subrange(at, at + b.len()) =~= b
}

/// Holding a concatenation is holding its parts one after the other.
pub proof fn lemma_holds_concat(s: Seq<u8>, at: int, a: Seq<u8>, b: Seq<u8>)
    ensures
        holds(s, at, a + b) <==> holds(s, at, a) && holds(s, at + a.len(), b),
{
    if holds(s, at, a + b) {
        let w = s.subrange(at, at + (a + b).len());
        assert(s.subrange(at, at + a.len()) =~= w.subrange(0, a.len() as int));
        assert(s.subrange(at + a.len(), at + a.len() + b.len()) =~= w.subrange(a.len() as int, w.len() as int));
        assert((a + b).subrange(0, a.len() as int) =~= a);
        assert((a + b).subrange(a.len() as int, (a + b).len() as int) =~= b);
    }
    if holds(s, at, a) && holds(s, at + a.len(), b) {
        assert(s.subrange(at, at + (a + b).len()) =~= s.subrange(at, at + a.len()) + s.subrange(
            at + a.len(),
            at + a.len() + b.len(),
        ));
    }
}

/// The 32-bit little-endian value at `at`.
pub open spec fn u32_at(s: Seq<u8>, at: int) -> u32 {
    spec_u32_from_le_bytes(s.subrange(at, at + 4))
}

/// The 64-bit little-endian value at `at`.
pub open spec fn u64_at(s: Seq<u8>, at: int) -> u64 {
    spec_u64_from_le_bytes(s.subrange(at, at + 8))
}

/// The signed 64-bit little-endian value at `at`.
pub open spec fn i64_at(s: Seq<u8>, at: int) -> i64 {
    u64_at(s, at) as i64
}

/// A signed value survives being stored as an unsigned one.
pub proof fn lemma_i64_bits(x: i64)
    ensures
        (x as u64) as i64 == x,
{
    assert((x as u64) as i64 == x) by (bit_vector);
}

/// `len` bytes at `at`, or where they run out.
pub open spec fn slice_view(s: Seq<u8>, at: int, len: int) -> Decoded<Seq<u8>> {
    if at + len <= s.len() {
        Ok(s.subrange(at, at + len))
    } else {
        Err(FormatErrorView::Truncated { at, needed: len })
    }
}

/// Bounds-checked subslice.
pub fn slice(buf: &[u8], at: usize, len: usize) -> (r: Result<&[u8]>)
    ensures
        match r {
            Ok(b) => slice_view(buf@, at as int, len as int) == Ok::<Seq<u8>, FormatErrorView>(b@),
            Err(e) => slice_view(buf@, at as int, len as int) == Err::<Seq<u8>, _>(e@),
        },
{
    if at <= buf.len() && len <= buf.len() - at {
        Ok(&buf[at..at + len])
    } else {
        Err(FormatError::Truncated { at, needed: len })
    }
}

/// Bounds-checked 32-bit little-endian read.
pub fn read_u32_le(buf: &[u8], at: usize) -> (r: Result<u32>)
    ensures
        match r {
            Ok(v) => at + 4 <= buf@.len() && v == u32_at(buf@, at as int),
            Err(e) => at + 4 > buf@.len() && e@ == (FormatErrorView::Truncated {
                at: at as int,
                needed: 4,
            }),
        },
{
    match slice(buf, at, 4) {
        Ok(b) => Ok(u32_from_le_bytes(b)),
        Err(e) => Err(e),
    }
}

/// Bounds-checked 64-bit little-endian read.
pub fn read_u64_le(buf: &[u8], at: usize) -> (r: Result<u64>)
    ensures
        match r {
            Ok(v) => at + 8 <= buf@.len() && v == u64_at(buf@, at as int),
            Err(e) => at + 8 > buf@.len() && e@ == (FormatErrorView::Truncated {
                at: at as int,
                needed: 8,
            }),
        },
{
    match slice(buf, at, 8) {
        Ok(b) => Ok(u64_from_le_bytes(b)),
        Err(e) => Err(e),
    }
}

/// The 32-bit little-endian value at an offset that is in range.
pub fn u32_of(b: &[u8], at: usize) -> (v: u32)
    requires
        at + 4 <= b@.len(),
    ensures
        v == u32_at(b@, at as int),
{
    match read_u32_le(b, at) {
        Ok(v) => v,
        Err(_) => 0,
    }
}

/// The 64-bit little-endian value at an offset that is in range.
pub fn u64_of(b: &[u8], at: usize) -> (v: u64)
    requires
        at + 8 <= b@.len(),
    ensures
        v == u64_at(b@, at as int),
{
    match read_u64_le(b, at) {
        Ok(v) => v,
        Err(_) => 0,
    }
}

/// Bounds-checked signed 64-bit little-endian read.
pub fn read_i64_le(buf: &[u8], at: usize) -> (r: Result<i64>)
    ensures
        match r {
            Ok(v) => at + 8 <= buf@.len() && v == i64_at(buf@, at as int),
            Err(e) => at + 8 > buf@.len() && e@ == (FormatErrorView::Truncated {
                at: at as int,
                needed: 8,
            }),
        },
{
    match read_u64_le(buf, at) {
        Ok(v) => Ok(v as i64),
        Err(e) => Err(e),
    }
}

/// Appends a 32-bit little-endian value.
pub fn push_u32(out: &mut Vec<u8>, v: u32)
    ensures
        final(out)@ == old(out)@ + spec_u32_to_le_bytes(v),
{
    let b: Vec<u8> = u32_to_le_bytes(v);
    out.extend_from_slice(b.as_slice());
}

/// Appends a 64-bit little-endian value.
pub fn push_u64(out: &mut Vec<u8>, v: u64)
    ensures
        final(out)@ == old(out)@ + spec_u64_to_le_bytes(v),
{
    let b: Vec<u8> = u64_to_le_bytes(v);
    out.extend_from_slice(b.as_slice());
}

/// A file offset as an index, on machines whose address space may be smaller.
pub open spec fn usize_view(v: int) -> Decoded<int> {
    if v <= usize::MAX {
        Ok(v)
    } else {
        corrupt_view("offset exceeds address space"@)
    }
}

/// Converts a file offset to an index.
pub fn to_usize(v: u64) -> (r: Result<usize>)
    ensures
        match r {
            Ok(u) => usize_view(v as int) == Ok::<int, FormatErrorView>(u as int) && u == v,
            Err(e) => usize_view(v as int) == Err::<int, _>(e@),
        },
{
    if v <= usize::MAX as u64 {
        Ok(v as usize)
    } else {
        Err(FormatError::corrupt("offset exceeds address space"))
    }
}

} // verus!
