//! Patches to the mutable fields of documents whose content is unchanged.
//!
//! A patch never changes a content hash or a length: where those would change
//! the document is deleted and indexed afresh.

use super::envelope::{
    self, body_of, lemma_sealed_parses, parse_verified_view, sealed, Kind, FOOTER_LEN, HEADER_LEN,
};
use super::heap::{
    heap, heap_off, lemma_heap_path, lemma_heap_prefix, lemma_heap_push, path_at, path_in,
};
use super::{
    corrupt_view, i64_at, lemma_i64_bits, push_u32, push_u64, read_u32_le, read_u64_le, to_usize,
    u32_at, u32_of, u64_at, u64_of, usize_view, Decoded, FormatError, FormatErrorView, Result,
};
use vstd::bytes::{
    lemma_auto_spec_u32_to_from_le_bytes, lemma_auto_spec_u64_to_from_le_bytes,
    spec_u32_to_le_bytes, spec_u64_to_le_bytes,
};
use vstd::prelude::*;
use vstd::utf8::encode_utf8;

verus! {

pub const BODY_HEADER_LEN: usize = 24;

pub const PATCH_LEN: usize = 36;

/// One patch as handed to the encoder.
#[derive(Debug, Clone, Copy, PartialEq, Eq)]
pub struct PatchIn<'a> {
    pub doc_id: u32,
    pub inode: u64,
    pub mtime_nanos: i64,
    pub size: u64,
    pub path: &'a str,
}

/// Strictly ascending document ids.
pub open spec fn ascending(patches: Seq<PatchIn<'_>>) -> bool {
    forall|i: int, j: int| 0 <= i < j < patches.len() ==> patches[i].doc_id < patches[j].doc_id
}

/// The paths of the patches.
pub open spec fn paths_of(patches: Seq<PatchIn<'_>>) -> Seq<Seq<char>> {
    Seq::new(patches.len(), |i: int| patches[i].path@)
}

/// One record, its path at this offset of the heap.
pub open spec fn record_bytes(p: PatchIn<'_>, off: nat) -> Seq<u8> {
    spec_u32_to_le_bytes(p.doc_id) + spec_u64_to_le_bytes(p.inode) + spec_u64_to_le_bytes(
        p.mtime_nanos as u64,
    ) + spec_u64_to_le_bytes(p.size) + spec_u32_to_le_bytes(off as u32) + spec_u32_to_le_bytes(
        encode_utf8(p.path@).len() as u32,
    )
}

/// The first `n` records.
pub open spec fn records_bytes(patches: Seq<PatchIn<'_>>, n: int) -> Seq<u8>
    decreases n,
{
    if n <= 0 {
        Seq::empty()
    } else {
        records_bytes(patches, n - 1) + record_bytes(
            patches[n - 1],
            heap_off(paths_of(patches), n - 1),
        )
    }
}

/// The body of an overlay file.
pub open spec fn body_view(patches: Seq<PatchIn<'_>>) -> Seq<u8> {
    let n = patches.len();
    let h = heap(paths_of(patches));
    spec_u32_to_le_bytes(n as u32) + spec_u32_to_le_bytes(0) + spec_u64_to_le_bytes(
        (HEADER_LEN + BODY_HEADER_LEN + PATCH_LEN * n) as u64,
    ) + spec_u64_to_le_bytes(h.len() as u64) + records_bytes(patches, n as int) + h
}

/// Ascending 32-bit ids are at most two to the thirty-second many.
proof fn lemma_ascending_len(patches: Seq<PatchIn<'_>>, n: int)
    requires
        ascending(patches),
        0 <= n < patches.len(),
    ensures
        patches[n].doc_id >= n,
    decreases n,
{
    if n > 0 {
        lemma_ascending_len(patches, n - 1);
    }
}

/// The complete overlay file. `patches` is sorted and unique by `doc_id`. A
/// path heap beyond 4 GiB is refused.
pub fn encode(patches: &[PatchIn<'_>]) -> (r: Result<Vec<u8>>)
    requires
        ascending(patches@),
    ensures
        match r {
            Ok(out) => heap(paths_of(patches@)).len() <= u32::MAX && out@ == sealed(
                Kind::Overlay,
                body_view(patches@),
            ),
            Err(e) => heap(paths_of(patches@)).len() > u32::MAX && e@ == FormatErrorView::Invariant(
                "overlay path heap exceeds 4 GiB"@,
            ),
        },
{
    let ghost paths = paths_of(patches@);
    let mut records: Vec<u8> = Vec::new();
    let mut bytes: Vec<u8> = Vec::new();
    let mut i: usize = 0;
    while i < patches.len()
        invariant
            i <= patches@.len(),
            paths == paths_of(patches@),
            records@ =~= records_bytes(patches@, i as int),
            bytes@ =~= heap(paths.take(i as int)),
            bytes@.len() <= u32::MAX,
        decreases patches@.len() - i,
    {
        let p = patches[i];
        let path = p.path.as_bytes();
        proof {
            lemma_heap_push(paths, i as int);
            lemma_heap_prefix(paths, i as int + 1, paths.len() as int);
            assert(paths.take(paths.len() as int) =~= paths);
        }
        let used: u64 = bytes.len() as u64;
        if path.len() as u64 > u32::MAX as u64 || used + path.len() as u64 > u32::MAX as u64 {
            return Err(FormatError::Invariant("overlay path heap exceeds 4 GiB"));
        }
        let ghost before = records@;
        push_u32(&mut records, p.doc_id);
        push_u64(&mut records, p.inode);
        push_u64(&mut records, p.mtime_nanos as u64);
        push_u64(&mut records, p.size);
        push_u32(&mut records, bytes.len() as u32);
        push_u32(&mut records, path.len() as u32);
        assert(records@ =~= before + record_bytes(patches@[i as int], heap_off(paths, i as int)));
        bytes.extend_from_slice(path);
        i = i + 1;
    }
    proof {
        assert(paths.take(paths.len() as int) =~= paths);
        if patches@.len() > 0 {
            lemma_ascending_len(patches@, patches@.len() - 1);
        }
    }
    let mut body: Vec<u8> = Vec::new();
    push_u32(&mut body, patches.len() as u32);
    push_u32(&mut body, 0);
    push_u64(
        &mut body,
        HEADER_LEN as u64 + BODY_HEADER_LEN as u64 + PATCH_LEN as u64 * patches.len() as u64,
    );
    push_u64(&mut body, bytes.len() as u64);
    body.extend_from_slice(records.as_slice());
    body.extend_from_slice(bytes.as_slice());
    assert(body@ =~= body_view(patches@));
    Ok(envelope::seal(Kind::Overlay, body.as_slice()))
}

/// One stored patch; its path lies in the heap of the file.
#[derive(Debug, Clone, Copy, PartialEq, Eq, Structural)]
pub struct Patch {
    pub doc_id: u32,
    pub inode: u64,
    pub mtime_nanos: i64,
    pub size: u64,
    pub path_off: u32,
    pub path_len: u32,
}

/// The patch recorded at `at`.
pub open spec fn patch_in(s: Seq<u8>, at: int) -> Patch {
    Patch {
        doc_id: u32_at(s, at),
        inode: u64_at(s, at + 4),
        mtime_nanos: i64_at(s, at + 12),
        size: u64_at(s, at + 20),
        path_off: u32_at(s, at + 28),
        path_len: u32_at(s, at + 32),
    }
}

/// The patches a body holds.
pub open spec fn patches_in(body: Seq<u8>) -> Seq<Patch> {
    Seq::new(u32_at(body, 0) as nat, |i: int| patch_in(body, BODY_HEADER_LEN + PATCH_LEN * i))
}

/// The path heap of a body.
pub open spec fn heap_in(body: Seq<u8>) -> Seq<u8> {
    body.subrange(BODY_HEADER_LEN + PATCH_LEN * u32_at(body, 0), body.len() as int)
}

/// What is wrong with the patches from `i` on, if anything.
pub open spec fn patch_fault(patches: Seq<Patch>, heap: Seq<u8>, i: int) -> Option<Seq<char>>
    decreases patches.len() - i,
{
    if i >= patches.len() {
        None
    } else if i > 0 && patches[i - 1].doc_id >= patches[i].doc_id {
        Some("overlay patches not sorted/unique"@)
    } else if path_in(heap, patches[i].path_off as int, patches[i].path_len as int) is None {
        Some("overlay patch has a bad path"@)
    } else {
        patch_fault(patches, heap, i + 1)
    }
}

/// What an overlay file says: its patches, its path heap, its checksum.
pub open spec fn parsed(s: Seq<u8>) -> Decoded<(Seq<Patch>, Seq<u8>, u32)> {
    match parse_verified_view(Kind::Overlay, s) {
        Err(e) => Err(e),
        Ok(crc) => {
            let body = body_of(s);
            if body.len() < BODY_HEADER_LEN {
                Err(
                    FormatErrorView::Truncated {
                        at: body.len() as int,
                        needed: BODY_HEADER_LEN as int,
                    },
                )
            } else {
                match (usize_view(u64_at(body, 8) as int), usize_view(u64_at(body, 16) as int)) {
                    (Err(e), _) => Err(e),
                    (_, Err(e)) => Err(e),
                    (Ok(off), Ok(len)) => if off != HEADER_LEN + BODY_HEADER_LEN + u32_at(body, 0)
                        * PATCH_LEN || off + len != HEADER_LEN + body.len() {
                        corrupt_view("overlay regions do not tile the body"@)
                    } else {
                        match patch_fault(patches_in(body), heap_in(body), 0) {
                            Some(msg) => corrupt_view(msg),
                            None => Ok((patches_in(body), heap_in(body), crc)),
                        }
                    },
                }
            }
        },
    }
}

/// The patches of a view with their paths.
pub open spec fn resolved(patches: Seq<Patch>, heap: Seq<u8>) -> Seq<(Patch, Seq<char>)> {
    Seq::new(
        patches.len(),
        |i: int|
            (
                patches[i],
                path_in(heap, patches[i].path_off as int, patches[i].path_len as int)->Some_0,
            ),
    )
}

/// Zero-copy view over a verified overlay file.
#[derive(Debug)]
pub struct OverlayView<'a> {
    body: &'a [u8],
    crc: u32,
    num_patches: u32,
    paths: &'a [u8],
}

impl<'a> OverlayView<'a> {
    /// The stored patches.
    pub closed spec fn patches(&self) -> Seq<Patch> {
        patches_in(self.body@)
    }

    /// The path heap.
    pub closed spec fn heap(&self) -> Seq<u8> {
        self.paths@
    }

    /// The stored checksum.
    pub closed spec fn stored_crc(&self) -> u32 {
        self.crc
    }

    /// The patches are whole, sorted, and each has a path.
    pub closed spec fn wf(&self) -> bool {
        &&& self.body@.len() >= BODY_HEADER_LEN + PATCH_LEN * self.num_patches
        &&& self.num_patches == u32_at(self.body@, 0)
        &&& self.paths@ == heap_in(self.body@)
        &&& patch_fault(self.patches(), self.paths@, 0) is None
    }

    /// Sortedness and paths, for every patch.
    pub proof fn lemma_wf(&self)
        requires
            self.wf(),
        ensures
            self.patches().len() <= u32::MAX,
            forall|i: int, j: int|
                0 <= i < j < self.patches().len() ==> self.patches()[i].doc_id
                    < self.patches()[j].doc_id,
            forall|i: int|
                #![trigger self.patches()[i]]
                0 <= i < self.patches().len() ==> path_in(
                    self.heap(),
                    self.patches()[i].path_off as int,
                    self.patches()[i].path_len as int,
                ) is Some,
    {
        lemma_no_fault(self.patches(), self.paths@, 0);
    }

    /// Overlay files are small and always verified against their checksum.
    pub fn parse_verified(bytes: &'a [u8]) -> (r: Result<Self>)
        ensures
            match r {
                Ok(v) => v.wf() && parsed(bytes@) == Ok::<_, FormatErrorView>(
                    (v.patches(), v.heap(), v.stored_crc()),
                ),
                Err(e) => parsed(bytes@) == Err::<(Seq<Patch>, Seq<u8>, u32), _>(e@),
            },
    {
        let env = envelope::parse_verified(Kind::Overlay, bytes)?;
        let body = &bytes[env.body.start..env.body.end];
        assert(body@ == body_of(bytes@));
        if body.len() < BODY_HEADER_LEN {
            return Err(FormatError::Truncated { at: body.len(), needed: BODY_HEADER_LEN });
        }
        let num_patches: u32 = read_u32_le(body, 0)?;
        let paths_off: usize = to_usize(read_u64_le(body, 8)?)?;
        let paths_len: usize = to_usize(read_u64_le(body, 16)?)?;
        let records_end: u64 = HEADER_LEN as u64 + BODY_HEADER_LEN as u64 + num_patches as u64
            * PATCH_LEN as u64;
        if paths_off as u64 != records_end || paths_off > env.body.end || paths_len != env.body.end
            - paths_off {
            return Err(FormatError::corrupt("overlay regions do not tile the body"));
        }
        let paths = &body[paths_off - HEADER_LEN..body.len()];
        assert(paths@ == heap_in(body@));
        let v = OverlayView { body, crc: env.crc, num_patches, paths };
        let ghost ps = patches_in(body@);
        let mut i: u32 = 0;
        while i < num_patches
            invariant
                i <= num_patches,
                v.body@ == body_of(bytes@),
                v.body@.len() >= BODY_HEADER_LEN + PATCH_LEN * num_patches,
                num_patches == u32_at(v.body@, 0),
                v.num_patches == num_patches,
                v.paths@ == heap_in(v.body@),
                ps == patches_in(v.body@),
                patch_fault(ps, v.paths@, 0) == patch_fault(ps, v.paths@, i as int),
                parsed(bytes@) == (match patch_fault(ps, v.paths@, 0) {
                    Some(msg) => corrupt_view(msg),
                    None => Ok((ps, v.paths@, v.crc)),
                }),
            decreases num_patches - i,
        {
            let p = v.record(i);
            if i > 0 {
                let q = v.record(i - 1);
                if q.doc_id >= p.doc_id {
                    return Err(FormatError::corrupt("overlay patches not sorted/unique"));
                }
            }
            if path_at(v.paths, p.path_off, p.path_len).is_none() {
                return Err(FormatError::corrupt("overlay patch has a bad path"));
            }
            i = i + 1;
        }
        Ok(v)
    }

    fn record(&self, i: u32) -> (p: Patch)
        requires
            i < self.num_patches,
            self.num_patches == u32_at(self.body@, 0),
            self.body@.len() >= BODY_HEADER_LEN + PATCH_LEN * self.num_patches,
        ensures
            p == patches_in(self.body@)[i as int],
    {
        let b = self.body;
        assert(b@.len() == b.len());
        assert(BODY_HEADER_LEN + PATCH_LEN * i + PATCH_LEN <= b@.len()) by (nonlinear_arith)
            requires
                i < self.num_patches,
                b@.len() >= 24 + 36 * self.num_patches,
                BODY_HEADER_LEN == 24,
                PATCH_LEN == 36,
        ;
        let at: usize = BODY_HEADER_LEN + PATCH_LEN * i as usize;
        Patch {
            doc_id: u32_of(b, at),
            inode: u64_of(b, at + 4),
            mtime_nanos: u64_of(b, at + 12) as i64,
            size: u64_of(b, at + 20),
            path_off: u32_of(b, at + 28),
            path_len: u32_of(b, at + 32),
        }
    }

    pub fn num_patches(&self) -> (n: u32)
        requires
            self.wf(),
        ensures
            n == self.patches().len(),
    {
        self.num_patches
    }

    pub fn crc(&self) -> (c: u32)
        ensures
            c == self.stored_crc(),
    {
        self.crc
    }

    /// The patch at this place of the file.
    pub fn patch(&self, i: u32) -> (r: Option<Patch>)
        requires
            self.wf(),
        ensures
            r == if i < self.patches().len() {
                Some(self.patches()[i as int])
            } else {
                None
            },
    {
        if i >= self.num_patches {
            return None;
        }
        Some(self.record(i))
    }

    /// The path that a patch names.
    pub fn path_of(&self, p: &Patch) -> (r: Option<&'a str>)
        requires
            self.wf(),
        ensures
            match r {
                Some(s) => path_in(self.heap(), p.path_off as int, p.path_len as int) == Some(s@),
                None => path_in(self.heap(), p.path_off as int, p.path_len as int) is None,
            },
    {
        path_at(self.paths, p.path_off, p.path_len)
    }

    /// Binary search by document id.
    pub fn find(&self, doc_id: u32) -> (r: Option<(Patch, &'a str)>)
        requires
            self.wf(),
        ensures
            match r {
                Some((p, path)) => p.doc_id == doc_id && exists|i: int|
                    0 <= i < self.patches().len() && #[trigger] resolved(
                        self.patches(),
                        self.heap(),
                    )[i] == (p, path@),
                None => forall|i: int|
                    0 <= i < self.patches().len() ==> #[trigger] self.patches()[i].doc_id != doc_id,
            },
    {
        proof {
            self.lemma_wf();
        }
        let mut lo: u32 = 0;
        let mut hi: u32 = self.num_patches;
        while lo < hi
            invariant
                self.wf(),
                lo <= hi <= self.patches().len(),
                self.num_patches == self.patches().len(),
                forall|i: int, j: int|
                    0 <= i < j < self.patches().len() ==> self.patches()[i].doc_id
                        < self.patches()[j].doc_id,
                forall|i: int|
                    #![trigger self.patches()[i]]
                    0 <= i < self.patches().len() ==> path_in(
                        self.heap(),
                        self.patches()[i].path_off as int,
                        self.patches()[i].path_len as int,
                    ) is Some,
                forall|i: int| 0 <= i < lo ==> #[trigger] self.patches()[i].doc_id < doc_id,
                forall|i: int|
                    hi <= i < self.patches().len() ==> #[trigger] self.patches()[i].doc_id > doc_id,
            decreases hi - lo,
        {
            let mid: u32 = lo + (hi - lo) / 2;
            let p = self.record(mid);
            assert(p == self.patches()[mid as int]);
            if p.doc_id < doc_id {
                lo = mid + 1;
            } else if p.doc_id > doc_id {
                hi = mid;
            } else {
                match path_at(self.paths, p.path_off, p.path_len) {
                    Some(path) => {
                        assert(resolved(self.patches(), self.heap())[mid as int] == (p, path@));
                        return Some((p, path));
                    },
                    None => {
                        return None;
                    },
                }
            }
        }
        None
    }

    /// Every patch with its path, in ascending document id.
    pub fn iter(&self) -> (r: Vec<(Patch, &'a str)>)
        requires
            self.wf(),
        ensures
            r@.len() == self.patches().len(),
            forall|i: int|
                #![trigger r@[i]]
                0 <= i < r@.len() ==> resolved(self.patches(), self.heap())[i] == (
                    r@[i].0,
                    r@[i].1@,
                ),
    {
        proof {
            self.lemma_wf();
        }
        let mut out: Vec<(Patch, &'a str)> = Vec::new();
        let mut i: u32 = 0;
        while i < self.num_patches
            invariant
                self.wf(),
                i <= self.num_patches,
                self.num_patches == self.patches().len(),
                forall|i: int|
                    #![trigger self.patches()[i]]
                    0 <= i < self.patches().len() ==> path_in(
                        self.heap(),
                        self.patches()[i].path_off as int,
                        self.patches()[i].path_len as int,
                    ) is Some,
                out@.len() == i,
                forall|k: int|
                    #![trigger out@[k]]
                    0 <= k < i ==> resolved(self.patches(), self.heap())[k] == (
                        out@[k].0,
                        out@[k].1@,
                    ),
            decreases self.num_patches - i,
        {
            let p = self.record(i);
            assert(p == self.patches()[i as int]);
            if let Some(path) = path_at(self.paths, p.path_off, p.path_len) {
                out.push((p, path));
            }
            i = i + 1;
        }
        out
    }
}

proof fn lemma_no_fault(patches: Seq<Patch>, heap: Seq<u8>, i: int)
    requires
        0 <= i,
        patch_fault(patches, heap, i) is None,
    ensures
        forall|a: int, b: int|
            (i <= a || (i > 0 && a == i - 1)) && a < b < patches.len() ==> patches[a].doc_id
                < patches[b].doc_id,
        forall|a: int|
            #![trigger patches[a]]
            i <= a < patches.len() ==> path_in(
                heap,
                patches[a].path_off as int,
                patches[a].path_len as int,
            ) is Some,
    decreases patches.len() - i,
{
    if i < patches.len() {
        lemma_no_fault(patches, heap, i + 1);
    }
}

proof fn lemma_fault_free(patches: Seq<Patch>, heap: Seq<u8>, i: int)
    requires
        0 <= i,
        forall|a: int, b: int| 0 <= a < b < patches.len() ==> patches[a].doc_id < patches[b].doc_id,
        forall|a: int|
            #![trigger patches[a]]
            0 <= a < patches.len() ==> path_in(
                heap,
                patches[a].path_off as int,
                patches[a].path_len as int,
            ) is Some,
    ensures
        patch_fault(patches, heap, i) is None,
    decreases patches.len() - i,
{
    if i < patches.len() {
        lemma_fault_free(patches, heap, i + 1);
    }
}

proof fn lemma_records(patches: Seq<PatchIn<'_>>, n: int, i: int)
    requires
        0 <= n <= patches.len(),
    ensures
        records_bytes(patches, n).len() == PATCH_LEN * n,
        0 <= i < n ==> records_bytes(patches, n).subrange(PATCH_LEN * i, PATCH_LEN * i + PATCH_LEN)
            == record_bytes(patches[i], heap_off(paths_of(patches), i)),
    decreases n,
{
    lemma_auto_spec_u32_to_from_le_bytes();
    lemma_auto_spec_u64_to_from_le_bytes();
    if n > 0 {
        lemma_records(patches, n - 1, i);
        let a = records_bytes(patches, n - 1);
        let b = record_bytes(patches[n - 1], heap_off(paths_of(patches), n - 1));
        if 0 <= i < n - 1 {
            assert((a + b).subrange(PATCH_LEN * i, PATCH_LEN * i + PATCH_LEN) =~= a.subrange(
                PATCH_LEN * i,
                PATCH_LEN * i + PATCH_LEN,
            ));
        } else if i == n - 1 {
            assert((a + b).subrange(PATCH_LEN * i, PATCH_LEN * i + PATCH_LEN) =~= b);
        }
    }
}

proof fn lemma_patch_at(s: Seq<u8>, at: int, p: PatchIn<'_>, off: nat)
    requires
        0 <= at,
        at + PATCH_LEN <= s.len(),
        s.subrange(at, at + PATCH_LEN) == record_bytes(p, off),
    ensures
        patch_in(s, at) == (Patch {
            doc_id: p.doc_id,
            inode: p.inode,
            mtime_nanos: p.mtime_nanos,
            size: p.size,
            path_off: off as u32,
            path_len: encode_utf8(p.path@).len() as u32,
        }),
{
    lemma_auto_spec_u32_to_from_le_bytes();
    lemma_auto_spec_u64_to_from_le_bytes();
    lemma_i64_bits(p.mtime_nanos);
    let w = record_bytes(p, off);
    assert(s.subrange(at, at + 4) =~= w.subrange(0, 4));
    assert(w.subrange(0, 4) =~= spec_u32_to_le_bytes(p.doc_id));
    assert(s.subrange(at + 4, at + 12) =~= w.subrange(4, 12));
    assert(w.subrange(4, 12) =~= spec_u64_to_le_bytes(p.inode));
    assert(s.subrange(at + 12, at + 20) =~= w.subrange(12, 20));
    assert(w.subrange(12, 20) =~= spec_u64_to_le_bytes(p.mtime_nanos as u64));
    assert(s.subrange(at + 20, at + 28) =~= w.subrange(20, 28));
    assert(w.subrange(20, 28) =~= spec_u64_to_le_bytes(p.size));
    assert(s.subrange(at + 28, at + 32) =~= w.subrange(28, 32));
    assert(w.subrange(28, 32) =~= spec_u32_to_le_bytes(off as u32));
    assert(s.subrange(at + 32, at + 36) =~= w.subrange(32, 36));
    assert(w.subrange(32, 36) =~= spec_u32_to_le_bytes(encode_utf8(p.path@).len() as u32));
}

/// The fixed part of the body.
#[verifier::opaque]
spec fn head_view(patches: Seq<PatchIn<'_>>) -> Seq<u8> {
    spec_u32_to_le_bytes(patches.len() as u32) + spec_u32_to_le_bytes(0) + spec_u64_to_le_bytes(
        (HEADER_LEN + BODY_HEADER_LEN + PATCH_LEN * patches.len()) as u64,
    ) + spec_u64_to_le_bytes(heap(paths_of(patches)).len() as u64)
}

proof fn lemma_head_in(patches: Seq<PatchIn<'_>>, tail: Seq<u8>)
    ensures
        ({
            let b = head_view(patches) + tail;
            &&& head_view(patches).len() == BODY_HEADER_LEN
            &&& u32_at(b, 0) == patches.len() as u32
            &&& u64_at(b, 8) == (HEADER_LEN + BODY_HEADER_LEN + PATCH_LEN * patches.len()) as u64
            &&& u64_at(b, 16) == heap(paths_of(patches)).len() as u64
        }),
{
    lemma_auto_spec_u32_to_from_le_bytes();
    lemma_auto_spec_u64_to_from_le_bytes();
    reveal(head_view);
    let b = head_view(patches) + tail;
    assert(b.subrange(0, 4) =~= spec_u32_to_le_bytes(patches.len() as u32));
    assert(b.subrange(8, 16) =~= spec_u64_to_le_bytes(
        (HEADER_LEN + BODY_HEADER_LEN + PATCH_LEN * patches.len()) as u64,
    ));
    assert(b.subrange(16, 24) =~= spec_u64_to_le_bytes(heap(paths_of(patches)).len() as u64));
}

/// The stored form of patch `i`.
spec fn stored(patches: Seq<PatchIn<'_>>, i: int) -> Patch {
    Patch {
        doc_id: patches[i].doc_id,
        inode: patches[i].inode,
        mtime_nanos: patches[i].mtime_nanos,
        size: patches[i].size,
        path_off: heap_off(paths_of(patches), i) as u32,
        path_len: encode_utf8(patches[i].path@).len() as u32,
    }
}

proof fn lemma_patch_behind(head: Seq<u8>, patches: Seq<PatchIn<'_>>, i: int)
    requires
        head.len() == BODY_HEADER_LEN,
        0 <= i < patches.len(),
        heap(paths_of(patches)).len() <= u32::MAX,
    ensures
        ({
            let h = heap(paths_of(patches));
            let b = head + (records_bytes(patches, patches.len() as int) + h);
            &&& patch_in(b, BODY_HEADER_LEN + PATCH_LEN * i) == stored(patches, i)
            &&& path_in(
                h,
                stored(patches, i).path_off as int,
                stored(patches, i).path_len as int,
            ) == Some(patches[i].path@)
        }),
{
    let n = patches.len() as int;
    let paths = paths_of(patches);
    let h = heap(paths);
    let recs = records_bytes(patches, n);
    let b = head + (recs + h);
    lemma_records(patches, n, i);
    let at = BODY_HEADER_LEN + PATCH_LEN * i;
    assert(b.subrange(at, at + PATCH_LEN) =~= recs.subrange(
        PATCH_LEN * i,
        PATCH_LEN * i + PATCH_LEN,
    ));
    lemma_patch_at(b, at, patches[i], heap_off(paths, i));
    lemma_heap_path(paths, i);
    assert(paths[i] == patches[i].path@);
}

proof fn lemma_body_split(patches: Seq<PatchIn<'_>>)
    ensures
        body_view(patches) == head_view(patches) + (records_bytes(patches, patches.len() as int)
            + heap(paths_of(patches))),
{
    reveal(head_view);
    assert(body_view(patches) =~= head_view(patches) + (records_bytes(
        patches,
        patches.len() as int,
    ) + heap(paths_of(patches))));
}

proof fn lemma_patches_read_back(patches: Seq<PatchIn<'_>>, body: Seq<u8>)
    requires
        ascending(patches),
        patches.len() <= u32::MAX,
        heap(paths_of(patches)).len() <= u32::MAX,
        body == head_view(patches) + (records_bytes(patches, patches.len() as int) + heap(
            paths_of(patches),
        )),
    ensures
        ({
            let ps = patches_in(body);
            let h = heap(paths_of(patches));
            &&& ps.len() == patches.len()
            &&& heap_in(body) == h
            &&& patch_fault(ps, h, 0) is None
            &&& forall|i: int|
                0 <= i < ps.len() ==> #[trigger] ps[i] == stored(patches, i) && path_in(
                    h,
                    ps[i].path_off as int,
                    ps[i].path_len as int,
                ) == Some(patches[i].path@)
        }),
{
    let n = patches.len() as int;
    let h = heap(paths_of(patches));
    let recs = records_bytes(patches, n);
    let head = head_view(patches);
    lemma_head_in(patches, recs + h);
    lemma_records(patches, n, -1);
    let ps = patches_in(body);
    assert(heap_in(body) =~= h);
    assert forall|i: int| 0 <= i < n implies #[trigger] ps[i] == stored(patches, i) && path_in(
        h,
        ps[i].path_off as int,
        ps[i].path_len as int,
    ) == Some(patches[i].path@) by {
        lemma_patch_behind(head, patches, i);
    }
    assert forall|a: int, b: int| 0 <= a < b < ps.len() implies ps[a].doc_id < ps[b].doc_id by {
        let x = patches[a];
        let y = patches[b];
    }
    lemma_fault_free(ps, h, 0);
}

proof fn lemma_file_says(patches: Seq<PatchIn<'_>>, body: Seq<u8>)
    requires
        ascending(patches),
        patches.len() <= u32::MAX,
        heap(paths_of(patches)).len() <= u32::MAX,
        body == head_view(patches) + (records_bytes(patches, patches.len() as int) + heap(
            paths_of(patches),
        )),
        HEADER_LEN + body.len() + FOOTER_LEN <= usize::MAX,
    ensures
        parsed(sealed(Kind::Overlay, body)) matches Ok((ps, h, _)) && ps == patches_in(body) && h
            == heap(paths_of(patches)),
{
    let n = patches.len() as int;
    let h = heap(paths_of(patches));
    let recs = records_bytes(patches, n);
    lemma_head_in(patches, recs + h);
    lemma_records(patches, n, -1);
    lemma_sealed_parses(Kind::Overlay, body);
    lemma_patches_read_back(patches, body);
}

/// An overlay read back from its own file holds the patches that were written,
/// in order, each with its path.
pub proof fn lemma_roundtrip(patches: Seq<PatchIn<'_>>)
    requires
        ascending(patches),
        patches.len() <= u32::MAX,
        heap(paths_of(patches)).len() <= u32::MAX,
        sealed(Kind::Overlay, body_view(patches)).len() <= usize::MAX,
    ensures
        parsed(sealed(Kind::Overlay, body_view(patches))) matches Ok((ps, h, _)) && ps.len()
            == patches.len() && forall|i: int|
            #![trigger patches[i]]
            0 <= i < patches.len() ==> {
                let (p, path) = resolved(ps, h)[i];
                &&& p.doc_id == patches[i].doc_id
                &&& p.inode == patches[i].inode
                &&& p.mtime_nanos == patches[i].mtime_nanos
                &&& p.size == patches[i].size
                &&& path == patches[i].path@
            },
{
    let h = heap(paths_of(patches));
    let body = body_view(patches);
    lemma_body_split(patches);
    lemma_sealed_parses(Kind::Overlay, body);
    lemma_file_says(patches, body);
    lemma_patches_read_back(patches, body);
    let ps = patches_in(body);
    assert forall|i: int| #![trigger patches[i]] 0 <= i < patches.len() implies resolved(ps, h)[i]
        == (stored(patches, i), patches[i].path@) by {
        let x = ps[i];
    }
}

} // verus!
