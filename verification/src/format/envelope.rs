//! The 16-byte header and 16-byte footer shared by every file.

use super::{
    corrupt_view, read_u32_le, read_u64_le, u32_at, u64_at, Decoded, FormatError,
    FormatErrorView, Result,
};
use crate::text::{decimal, push_decimal};
use core::ops::Range;
use vstd::bytes::{
    lemma_auto_spec_u32_to_from_le_bytes, lemma_auto_spec_u64_to_from_le_bytes,
    spec_u32_to_le_bytes, spec_u64_to_le_bytes, u32_to_le_bytes, u64_to_le_bytes,
};
use vstd::prelude::*;

verus! {

pub const HEADER_LEN: usize = 16;

pub const FOOTER_LEN: usize = 16;

/// Readers accept exactly this version; a file of another one is never
/// reinterpreted.
pub const FORMAT_VERSION: u32 = 2;

/// The five kinds of file.
#[derive(Debug, Clone, Copy, PartialEq, Eq, Structural)]
pub enum Kind {
    Manifest,
    Idx,
    Doc,
    Del,
    Overlay,
}

/// The characters of a magic, as bytes.
pub open spec fn magic_bytes(s: Seq<char>) -> Seq<u8> {
    s.map_values(|c: char| c as u8)
}

/// The magic that files of a kind start with.
pub open spec fn magic_of(kind: Kind) -> Seq<u8> {
    match kind {
        Kind::Manifest => magic_bytes("FSRCHMAN"@),
        Kind::Idx => magic_bytes("FSRCHIDX"@),
        Kind::Doc => magic_bytes("FSRCHDOC"@),
        Kind::Del => magic_bytes("FSRCHDEL"@),
        Kind::Overlay => magic_bytes("FSRCHOVL"@),
    }
}

/// The magic that files end with.
pub open spec fn footer_magic() -> Seq<u8> {
    magic_bytes("FSRF"@)
}

/// The magic that files end with.
pub const FOOTER_MAGIC: [u8; 4] = [70, 83, 82, 70];

impl Kind {
    /// The magic that files of this kind start with.
    pub fn magic(self) -> (m: [u8; 8])
        ensures
            m@ == magic_of(self),
    {
        proof {
            reveal_strlit("FSRCHMAN");
            reveal_strlit("FSRCHIDX");
            reveal_strlit("FSRCHDOC");
            reveal_strlit("FSRCHDEL");
            reveal_strlit("FSRCHOVL");
        }
        let m: [u8; 8] = match self {
            Kind::Manifest => [70, 83, 82, 67, 72, 77, 65, 78],
            Kind::Idx => [70, 83, 82, 67, 72, 73, 68, 88],
            Kind::Doc => [70, 83, 82, 67, 72, 68, 79, 67],
            Kind::Del => [70, 83, 82, 67, 72, 68, 69, 76],
            Kind::Overlay => [70, 83, 82, 67, 72, 79, 86, 76],
        };
        assert(m@ =~= magic_of(self));
        m
    }
}

proof fn lemma_magic_len(kind: Kind)
    ensures
        magic_of(kind).len() == 8,
        footer_magic() =~= seq![70u8, 83, 82, 70],
{
    reveal_strlit("FSRCHMAN");
    reveal_strlit("FSRCHIDX");
    reveal_strlit("FSRCHDOC");
    reveal_strlit("FSRCHDEL");
    reveal_strlit("FSRCHOVL");
    reveal_strlit("FSRF");
}

/// A header: magic, version, zero flags.
pub open spec fn header_view(kind: Kind) -> Seq<u8> {
    magic_of(kind) + spec_u32_to_le_bytes(FORMAT_VERSION) + spec_u32_to_le_bytes(0)
}

/// A footer: body length, body checksum, magic.
pub open spec fn footer_view(body_len: u64, crc: u32) -> Seq<u8> {
    spec_u64_to_le_bytes(body_len) + spec_u32_to_le_bytes(crc) + footer_magic()
}

/// Headers and footers have fixed lengths.
pub proof fn lemma_envelope_lens(kind: Kind, body_len: u64, crc: u32)
    ensures
        header_view(kind).len() == HEADER_LEN,
        footer_view(body_len, crc).len() == FOOTER_LEN,
{
    lemma_auto_spec_u32_to_from_le_bytes();
    lemma_auto_spec_u64_to_from_le_bytes();
    lemma_magic_len(kind);
}

/// The CRC-32 that `crc32fast::hash` computes of these bytes.
pub uninterp spec fn crc32(s: Seq<u8>) -> u32;

/// A whole file around a body.
pub open spec fn sealed(kind: Kind, body: Seq<u8>) -> Seq<u8> {
    header_view(kind) + body + footer_view(body.len() as u64, crc32(body))
}

/// The header of a file of this kind.
pub fn header(kind: Kind) -> (h: [u8; HEADER_LEN])
    ensures
        h@ == header_view(kind),
{
    let m = kind.magic();
    let v = u32_to_le_bytes(FORMAT_VERSION);
    let f = u32_to_le_bytes(0);
    proof {
        lemma_auto_spec_u32_to_from_le_bytes();
        lemma_magic_len(kind);
    }
    let h: [u8; HEADER_LEN] = [
        m[0], m[1], m[2], m[3], m[4], m[5], m[6], m[7],
        v[0], v[1], v[2], v[3],
        f[0], f[1], f[2], f[3],
    ];
    assert(h@ =~= header_view(kind));
    h
}

/// The footer of a file with this body length and checksum.
pub fn footer(body_len: u64, crc: u32) -> (f: [u8; FOOTER_LEN])
    ensures
        f@ == footer_view(body_len, crc),
{
    let n = u64_to_le_bytes(body_len);
    let c = u32_to_le_bytes(crc);
    proof {
        lemma_auto_spec_u32_to_from_le_bytes();
        lemma_auto_spec_u64_to_from_le_bytes();
        lemma_magic_len(Kind::Doc);
    }
    let f: [u8; FOOTER_LEN] = [
        n[0], n[1], n[2], n[3], n[4], n[5], n[6], n[7],
        c[0], c[1], c[2], c[3],
        FOOTER_MAGIC[0], FOOTER_MAGIC[1], FOOTER_MAGIC[2], FOOTER_MAGIC[3],
    ];
    assert(f@ =~= footer_view(body_len, crc));
    f
}

/// `crc32fast::hash`: the CRC-32 of the bytes, a function of them alone.
#[verifier::external_body]
pub fn crc(body: &[u8]) -> (c: u32)
    ensures
        c == crc32(body@),
{
    crc32fast::hash(body)
}

/// Header, body and footer for a body that is already in memory.
pub fn seal(kind: Kind, body: &[u8]) -> (out: Vec<u8>)
    ensures
        out@ == sealed(kind, body@),
{
    let mut out: Vec<u8> = Vec::new();
    out.extend_from_slice(&header(kind));
    out.extend_from_slice(body);
    out.extend_from_slice(&footer(body.len() as u64, crc(body)));
    assert(out@ =~= sealed(kind, body@));
    out
}

/// Location of the body and the stored checksum.
#[derive(Debug, PartialEq, Eq)]
pub struct Envelope {
    pub body: Range<usize>,
    pub crc: u32,
}

impl Clone for Envelope {
    fn clone(&self) -> (r: Self)
        ensures
            r == *self,
    {
        Envelope { body: self.body.start..self.body.end, crc: self.crc }
    }
}

/// The message for a footer that names another body length.
pub open spec fn length_mismatch(body_len: u64, len: nat) -> Seq<char> {
    "body_len "@ + decimal(body_len as nat) + " does not match file length "@ + decimal(len)
}

/// The structural checks, in order: size, magic, version, flags, footer magic,
/// body length. The checksum is not verified. Yields the stored checksum.
pub open spec fn parse_view(kind: Kind, s: Seq<u8>) -> Decoded<u32> {
    let footer_at = s.len() - FOOTER_LEN;
    if s.len() < HEADER_LEN + FOOTER_LEN {
        Err(FormatErrorView::Truncated { at: 0, needed: HEADER_LEN + FOOTER_LEN })
    } else if s.subrange(0, 8) != magic_of(kind) {
        Err(FormatErrorView::BadMagic)
    } else if u32_at(s, 8) != FORMAT_VERSION {
        Err(FormatErrorView::Version(u32_at(s, 8)))
    } else if u32_at(s, 12) != 0 {
        corrupt_view("non-zero header flags"@)
    } else if s.subrange(footer_at + 12, s.len() as int) != footer_magic() {
        corrupt_view("bad footer magic"@)
    } else if u64_at(s, footer_at) != s.len() - HEADER_LEN - FOOTER_LEN {
        corrupt_view(length_mismatch(u64_at(s, footer_at), s.len()))
    } else {
        Ok(u32_at(s, footer_at + 8))
    }
}

/// The bytes between header and footer.
pub open spec fn body_of(s: Seq<u8>) -> Seq<u8> {
    s.subrange(HEADER_LEN as int, s.len() - FOOTER_LEN)
}

/// [`parse_view`] and then the checksum of the body.
pub open spec fn parse_verified_view(kind: Kind, s: Seq<u8>) -> Decoded<u32> {
    match parse_view(kind, s) {
        Ok(stored) => if crc32(body_of(s)) == stored {
            Ok(stored)
        } else {
            Err(FormatErrorView::Checksum { stored, computed: crc32(body_of(s)) })
        },
        Err(e) => Err(e),
    }
}

/// `env` locates the body of `s` and holds this checksum.
pub open spec fn envelope_of(env: Envelope, s: Seq<u8>, crc: u32) -> bool {
    &&& s.len() >= HEADER_LEN + FOOTER_LEN
    &&& env.body.start == HEADER_LEN
    &&& env.body.end == s.len() - FOOTER_LEN
    &&& env.crc == crc
}

/// Whether two byte strings are the same.
pub fn bytes_equal(a: &[u8], b: &[u8]) -> (r: bool)
    ensures
        r == (a@ == b@),
{
    if a.len() != b.len() {
        return false;
    }
    let mut i: usize = 0;
    while i < a.len()
        invariant
            a@.len() == b@.len(),
            i <= a@.len(),
            forall|j: int| 0 <= j < i ==> a@[j] == b@[j],
        decreases a@.len() - i,
    {
        if a[i] != b[i] {
            return false;
        }
        i = i + 1;
    }
    assert(a@ =~= b@);
    true
}

/// Checks magic, version, flags, footer magic and body length against the
/// length of the file. Does not verify the checksum: see [`verify_crc`].
pub fn parse(kind: Kind, bytes: &[u8]) -> (r: Result<Envelope>)
    ensures
        match r {
            Ok(env) => parse_view(kind, bytes@) is Ok && envelope_of(
                env,
                bytes@,
                parse_view(kind, bytes@)->Ok_0,
            ),
            Err(e) => parse_view(kind, bytes@) == Err::<u32, _>(e@),
        },
{
    if bytes.len() < HEADER_LEN + FOOTER_LEN {
        return Err(FormatError::Truncated { at: 0, needed: HEADER_LEN + FOOTER_LEN });
    }
    if !bytes_equal(&bytes[0..8], &kind.magic()) {
        return Err(FormatError::BadMagic);
    }
    let version: u32 = read_u32_le(bytes, 8)?;
    if version != FORMAT_VERSION {
        return Err(FormatError::Version(version));
    }
    let flags: u32 = read_u32_le(bytes, 12)?;
    if flags != 0 {
        return Err(FormatError::corrupt("non-zero header flags"));
    }
    let footer_at: usize = bytes.len() - FOOTER_LEN;
    proof {
        lemma_magic_len(kind);
        assert(FOOTER_MAGIC@ =~= footer_magic());
    }
    if !bytes_equal(&bytes[footer_at + 12..bytes.len()], &FOOTER_MAGIC) {
        return Err(FormatError::corrupt("bad footer magic"));
    }
    let body_len: u64 = read_u64_le(bytes, footer_at)?;
    if body_len != (bytes.len() - HEADER_LEN - FOOTER_LEN) as u64 {
        let mut msg = "body_len ".to_string();
        push_decimal(&mut msg, body_len);
        msg.push_str(" does not match file length ");
        push_decimal(&mut msg, bytes.len() as u64);
        return Err(FormatError::Corrupt(msg));
    }
    let crc: u32 = read_u32_le(bytes, footer_at + 8)?;
    Ok(Envelope { body: HEADER_LEN..footer_at, crc })
}

/// Compares the checksum of the body with the stored one.
pub fn verify_crc(bytes: &[u8], env: &Envelope) -> (r: Result<()>)
    requires
        env.body.start <= env.body.end <= bytes@.len(),
    ensures
        ({
            let computed = crc32(bytes@.subrange(env.body.start as int, env.body.end as int));
            match r {
                Ok(_) => computed == env.crc,
                Err(e) => computed != env.crc && e@ == (FormatErrorView::Checksum {
                    stored: env.crc,
                    computed,
                }),
            }
        }),
{
    let computed: u32 = crc(&bytes[env.body.start..env.body.end]);
    if computed != env.crc {
        return Err(FormatError::Checksum { stored: env.crc, computed });
    }
    Ok(())
}

/// [`parse`] and then [`verify_crc`].
pub fn parse_verified(kind: Kind, bytes: &[u8]) -> (r: Result<Envelope>)
    ensures
        match r {
            Ok(env) => parse_verified_view(kind, bytes@) is Ok && envelope_of(
                env,
                bytes@,
                parse_verified_view(kind, bytes@)->Ok_0,
            ),
            Err(e) => parse_verified_view(kind, bytes@) == Err::<u32, _>(e@),
        },
{
    let env = parse(kind, bytes)?;
    match verify_crc(bytes, &env) {
        Ok(_) => Ok(env),
        Err(e) => Err(e),
    }
}

/// An in-progress CRC-32 computation of `crc32fast`.
#[verifier::external_type_specification]
#[verifier::external_body]
pub struct ExHasher(crc32fast::Hasher);

/// The bytes a hasher was fed so far.
pub uninterp spec fn hashed(h: crc32fast::Hasher) -> Seq<u8>;

/// `crc32fast::Hasher::new`: nothing was fed yet.
#[verifier::external_body]
fn new_hasher() -> (h: crc32fast::Hasher)
    ensures
        hashed(h) == Seq::<u8>::empty(),
{
    crc32fast::Hasher::new()
}

/// `crc32fast::Hasher::update`: feeds `buf` after what was fed before. The
/// total length is counted in 64 bits.
#[verifier::external_body]
fn update_hasher(h: &mut crc32fast::Hasher, buf: &[u8])
    requires
        hashed(*old(h)).len() + buf@.len() <= u64::MAX,
    ensures
        hashed(*final(h)) == hashed(*old(h)) + buf@,
{
    h.update(buf);
}

/// `crc32fast::Hasher::finalize`: the CRC-32 of everything that was fed, the
/// same that `crc32fast::hash` gives for those bytes in one piece.
#[verifier::external_body]
fn finalize_hasher(h: crc32fast::Hasher) -> (c: u32)
    ensures
        c == crc32(hashed(h)),
{
    h.finalize()
}

/// Appends a body piece by piece, tracking its length and checksum for the
/// footer.
pub struct BodyWriter {
    inner: Vec<u8>,
    hasher: crc32fast::Hasher,
    len: u64,
}

impl BodyWriter {
    /// Everything written, with what the writer started from.
    pub closed spec fn written(&self) -> Seq<u8> {
        self.inner@
    }

    /// The body written so far.
    pub closed spec fn body(&self) -> Seq<u8> {
        hashed(self.hasher)
    }

    /// The body is the tail of what was written.
    pub closed spec fn wf(&self) -> bool {
        &&& self.len == hashed(self.hasher).len()
        &&& self.len <= self.inner@.len() <= usize::MAX
        &&& self.inner@.subrange(self.inner@.len() - self.len, self.inner@.len() as int) =~= hashed(
            self.hasher,
        )
    }

    /// What was written fits in memory.
    pub proof fn lemma_written_len(&self)
        requires
            self.wf(),
        ensures
            self.body().len() <= self.written().len() <= usize::MAX,
    {
    }

    /// An empty body behind `inner`.
    pub fn new(inner: Vec<u8>) -> (w: Self)
        ensures
            w.wf(),
            w.written() == inner@,
            w.body() == Seq::<u8>::empty(),
    {
        assert(inner@.len() == inner.len());
        BodyWriter { inner, hasher: new_hasher(), len: 0 }
    }

    /// The length of the body so far.
    pub fn len(&self) -> (n: u64)
        requires
            self.wf(),
        ensures
            n == self.body().len(),
    {
        self.len
    }

    /// Whether nothing has been written yet.
    pub fn is_empty(&self) -> (r: bool)
        requires
            self.wf(),
        ensures
            r == (self.body().len() == 0),
    {
        self.len == 0
    }

    /// Appends to the body.
    pub fn write_all(&mut self, buf: &[u8])
        requires
            old(self).wf(),
        ensures
            final(self).wf(),
            final(self).body() == old(self).body() + buf@,
            final(self).written() == old(self).written() + buf@,
            final(self).written().len() <= usize::MAX,
    {
        let ghost start = *self;
        self.inner.extend_from_slice(buf);
        assert(self.inner@ =~= start.inner@ + buf@);
        assert(self.inner.len() == start.inner@.len() + buf@.len());
        update_hasher(&mut self.hasher, buf);
        self.len = self.len + buf.len() as u64;
        assert(self.inner@.subrange(self.inner@.len() - self.len, self.inner@.len() as int)
            =~= start.inner@.subrange(start.inner@.len() - start.len, start.inner@.len() as int) + buf@);
    }

    /// Everything written, the length of the body and its checksum.
    pub fn finish(self) -> (r: (Vec<u8>, u64, u32))
        requires
            self.wf(),
        ensures
            r.0@ == self.written(),
            r.1 == self.body().len(),
            r.2 == crc32(self.body()),
    {
        (self.inner, self.len, finalize_hasher(self.hasher))
    }
}

/// Reading a sealed file gives back its body and the checksum of it.
pub proof fn lemma_sealed_parses(kind: Kind, body: Seq<u8>)
    requires
        body.len() <= u64::MAX,
    ensures
        parse_view(kind, sealed(kind, body)) == Ok::<u32, FormatErrorView>(crc32(body)),
        parse_verified_view(kind, sealed(kind, body)) == Ok::<u32, FormatErrorView>(crc32(body)),
        body_of(sealed(kind, body)) == body,
        sealed(kind, body).len() == HEADER_LEN + body.len() + FOOTER_LEN,
{
    lemma_auto_spec_u32_to_from_le_bytes();
    lemma_auto_spec_u64_to_from_le_bytes();
    lemma_magic_len(kind);
    let s = sealed(kind, body);
    let n = body.len() as u64;
    let c = crc32(body);
    let at = s.len() - FOOTER_LEN;
    assert(s.subrange(0, 8) =~= magic_of(kind));
    assert(s.subrange(8, 12) =~= spec_u32_to_le_bytes(FORMAT_VERSION));
    assert(s.subrange(12, 16) =~= spec_u32_to_le_bytes(0));
    assert(s.subrange(at, at + 8) =~= spec_u64_to_le_bytes(n));
    assert(s.subrange(at + 8, at + 12) =~= spec_u32_to_le_bytes(c));
    assert(s.subrange(at + 12, s.len() as int) =~= footer_magic());
    assert(body_of(s) =~= body);
}

/// A sealed file in which the body was replaced by another of the same length
/// fails the checksum wherever the two checksums differ, and is refused with both
/// of them.
pub proof fn lemma_damage_shows(kind: Kind, body: Seq<u8>, other: Seq<u8>)
    requires
        body.len() <= u64::MAX,
        other.len() == body.len(),
        crc32(other) != crc32(body),
    ensures
        ({
            let s = header_view(kind) + other + footer_view(body.len() as u64, crc32(body));
            &&& parse_view(kind, s) == Ok::<u32, FormatErrorView>(crc32(body))
            &&& body_of(s) == other
            &&& parse_verified_view(kind, s) == Err::<u32, _>(
                FormatErrorView::Checksum { stored: crc32(body), computed: crc32(other) },
            )
        }),
{
    lemma_auto_spec_u32_to_from_le_bytes();
    lemma_auto_spec_u64_to_from_le_bytes();
    lemma_magic_len(kind);
    let n = body.len() as u64;
    let c = crc32(body);
    let s = header_view(kind) + other + footer_view(n, c);
    let at = s.len() - FOOTER_LEN;
    assert(s.subrange(0, 8) =~= magic_of(kind));
    assert(s.subrange(8, 12) =~= spec_u32_to_le_bytes(FORMAT_VERSION));
    assert(s.subrange(12, 16) =~= spec_u32_to_le_bytes(0));
    assert(s.subrange(at, at + 8) =~= spec_u64_to_le_bytes(n));
    assert(s.subrange(at + 8, at + 12) =~= spec_u32_to_le_bytes(c));
    assert(s.subrange(at + 12, s.len() as int) =~= footer_magic());
    assert(body_of(s) =~= other);
}

/// A sealed file is refused when read as another kind.
pub proof fn lemma_kinds_are_apart(written: Kind, read: Kind, body: Seq<u8>)
    requires
        written != read,
    ensures
        parse_view(read, sealed(written, body)) == Err::<u32, _>(FormatErrorView::BadMagic),
{
    lemma_auto_spec_u32_to_from_le_bytes();
    lemma_auto_spec_u64_to_from_le_bytes();
    lemma_magic_len(written);
    lemma_magic_len(read);
    assert(sealed(written, body).subrange(0, 8) =~= magic_of(written));
    reveal_strlit("FSRCHMAN");
    reveal_strlit("FSRCHIDX");
    reveal_strlit("FSRCHDOC");
    reveal_strlit("FSRCHDEL");
    reveal_strlit("FSRCHOVL");
    assert(magic_of(written)[5] != magic_of(read)[5] || magic_of(written)[6] != magic_of(read)[6]
        || magic_of(written)[7] != magic_of(read)[7]);
}

} // verus!
