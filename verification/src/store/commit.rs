//! What a commit writes, and marking documents deleted.
//!
//! A committed segment is never rewritten. Deleting a document gives its segment
//! a new generation of deletions; the commit replaces the manifest as a whole.

use vstd::prelude::*;

use super::reader::{lemma_place, place_of, Index, IndexView};
use super::segment::{gone, Segment, SegmentView};
use super::{del_file, del_name};
use crate::format::del::{self, bit_seq, count_set, Bitmap};
use crate::format::envelope::{self, lemma_sealed_parses, Kind};
use crate::format::manifest::{
    self, entry_fault, prev_entry, valid, Manifest, ManifestView, SegmentEntry,
};
use crate::index::DocId;
use crate::text::views;

verus! {

/// A file to write: under another name first, then renamed.
#[derive(Debug)]
pub struct NewFile {
    pub name: String,
    pub bytes: Vec<u8>,
}

/// One commit: the files to write before it, the manifest that replaces the
/// current one, and the files that nothing refers to behind it.
#[derive(Debug)]
pub struct Commit {
    pub files: Vec<NewFile>,
    pub manifest: Manifest,
    pub retired: Vec<String>,
}

/// One of the first `n` ids is document `local` of segment `i`.
pub open spec fn hit(es: Seq<SegmentEntry>, ids: Seq<u32>, n: int, i: int, local: int) -> bool {
    exists|k: int| 0 <= k < n && place_of(es, #[trigger] ids[k]) == Some((i, local as u32))
}

/// Which documents of a segment are deleted.
pub open spec fn bits_of(s: SegmentView) -> Seq<bool> {
    Seq::new(s.entry.num_docs as nat, |l: int| gone(s, l))
}

/// Which documents of segment `i` are deleted once the first `n` ids are.
pub open spec fn bits_after(v: IndexView, ids: Seq<u32>, n: int, i: int) -> Seq<bool> {
    Seq::new(
        v.segments[i].entry.num_docs as nat,
        |l: int| gone(v.segments[i], l) || hit(v.manifest.segments, ids, n, i, l),
    )
}

/// Deleting the ids changes segment `i`.
pub open spec fn affected(v: IndexView, ids: Seq<u32>, i: int) -> bool {
    bits_after(v, ids, ids.len() as int, i) != bits_of(v.segments[i])
}

/// The entry `next` is `e` with its next generation of deletions, `bits`, which
/// is what the file holds.
pub open spec fn next_deletions(
    e: SegmentEntry,
    next: SegmentEntry,
    bits: Seq<bool>,
    file: NewFile,
) -> bool {
    &&& e.del_gen < u32::MAX
    &&& file.name@ == del_file(e.segment_id, (e.del_gen + 1) as u32)
    &&& next == (SegmentEntry {
        del_gen: (e.del_gen + 1) as u32,
        del_len: file.bytes@.len() as u64,
        del_crc: next.del_crc,
        num_deleted: count_set(bits) as u32,
        ..e
    })
    &&& del::parsed(file.bytes@) matches Ok((num_docs, num_deleted, packed, crc)) && num_docs
        == e.num_docs && num_deleted == next.num_deleted && crc == next.del_crc && bit_seq(
        packed,
        num_docs as nat,
    ) == bits
}

/// The entries of the first `n` segments once the ids are deleted, the files to
/// write and those to retire.
pub open spec fn tombstoned(
    v: IndexView,
    ids: Seq<u32>,
    entries: Seq<SegmentEntry>,
    files: Seq<NewFile>,
    retired: Seq<Seq<char>>,
    n: int,
) -> bool
    decreases n,
{
    if n <= 0 {
        entries.len() == 0 && files.len() == 0 && retired.len() == 0
    } else {
        let e = v.manifest.segments[n - 1];
        &&& entries.len() > 0
        &&& if !affected(v, ids, n - 1) {
            entries.last() == e && tombstoned(v, ids, entries.drop_last(), files, retired, n - 1)
        } else {
            &&& files.len() > 0
            &&& next_deletions(
                e,
                entries.last(),
                bits_after(v, ids, ids.len() as int, n - 1),
                files.last(),
            )
            &&& if e.del_gen > 0 {
                retired.len() > 0 && retired.last() == del_file(e.segment_id, e.del_gen)
                    && tombstoned(
                    v,
                    ids,
                    entries.drop_last(),
                    files.drop_last(),
                    retired.drop_last(),
                    n - 1,
                )
            } else {
                tombstoned(v, ids, entries.drop_last(), files.drop_last(), retired, n - 1)
            }
        }
    }
}

/// What deleting ids makes of each entry.
pub proof fn lemma_tombstoned(
    v: IndexView,
    ids: Seq<u32>,
    entries: Seq<SegmentEntry>,
    files: Seq<NewFile>,
    retired: Seq<Seq<char>>,
    n: int,
)
    requires
        tombstoned(v, ids, entries, files, retired, n),
        0 <= n,
    ensures
        entries.len() == n,
        forall|i: int|
            #![trigger entries[i]]
            0 <= i < n ==> {
                let e = v.manifest.segments[i];
                &&& !affected(v, ids, i) ==> entries[i] == e
                &&& affected(v, ids, i) ==> exists|k: int|
                    0 <= k < files.len() && next_deletions(
                        e,
                        entries[i],
                        bits_after(v, ids, ids.len() as int, i),
                        #[trigger] files[k],
                    )
            },
        files.len() == 0 <==> forall|i: int| 0 <= i < n ==> !#[trigger] affected(v, ids, i),
    decreases n,
{
    if n > 0 {
        let e = v.manifest.segments[n - 1];
        let fs = if affected(v, ids, n - 1) {
            files.drop_last()
        } else {
            files
        };
        let rs = if affected(v, ids, n - 1) && e.del_gen > 0 {
            retired.drop_last()
        } else {
            retired
        };
        let es = entries.drop_last();
        lemma_tombstoned(v, ids, es, fs, rs, n - 1);
        assert forall|i: int| #![trigger entries[i]] 0 <= i < n implies {
            let e = v.manifest.segments[i];
            &&& !affected(v, ids, i) ==> entries[i] == e
            &&& affected(v, ids, i) ==> exists|k: int|
                0 <= k < files.len() && next_deletions(
                    e,
                    entries[i],
                    bits_after(v, ids, ids.len() as int, i),
                    #[trigger] files[k],
                )
        } by {
            if i < n - 1 {
                assert(es[i] == entries[i]);
                if affected(v, ids, i) {
                    let k = choose|k: int|
                        0 <= k < fs.len() && next_deletions(
                            v.manifest.segments[i],
                            es[i],
                            bits_after(v, ids, ids.len() as int, i),
                            #[trigger] fs[k],
                        );
                    assert(files[k] == fs[k]);
                }
            } else if affected(v, ids, i) {
                assert(next_deletions(
                    e,
                    entries[i],
                    bits_after(v, ids, ids.len() as int, i),
                    files[files.len() - 1],
                ));
            }
        }
        if files.len() == 0 {
            assert(!affected(v, ids, n - 1));
        } else if fs.len() == 0 {
            assert(affected(v, ids, n - 1));
        } else {
            let i = choose|i: int| 0 <= i < n - 1 && affected(v, ids, i);
            assert(affected(v, ids, i));
        }
    }
}

proof fn lemma_hit_step(es: Seq<SegmentEntry>, ids: Seq<u32>, n: int, i: int, local: int)
    requires
        0 <= n < ids.len(),
    ensures
        hit(es, ids, n + 1, i, local) == (hit(es, ids, n, i, local) || place_of(es, ids[n]) == Some(
            (i, local as u32),
        )),
{
    if hit(es, ids, n + 1, i, local) {
        let k = choose|k: int|
            0 <= k < n + 1 && place_of(es, #[trigger] ids[k]) == Some((i, local as u32));
        if k < n {
            assert(hit(es, ids, n, i, local));
        }
    }
    if hit(es, ids, n, i, local) {
        let k = choose|k: int|
            0 <= k < n && place_of(es, #[trigger] ids[k]) == Some((i, local as u32));
        assert(place_of(es, ids[k]) == Some((i, local as u32)));
    }
    if place_of(es, ids[n]) == Some((i, local as u32)) {
        assert(hit(es, ids, n + 1, i, local));
    }
}

/// The deletions of segment `i` behind the first `n` ids.
spec fn slot_holds(v: IndexView, ids: Seq<u32>, n: int, i: int, slot: Option<Bitmap>) -> bool {
    match slot {
        None => bits_after(v, ids, n, i) == bits_of(v.segments[i]),
        Some(b) => b.wf() && b@ == bits_after(v, ids, n, i),
    }
}

/// The deletions of a segment, to be changed.
fn current_bits(s: &Segment<'_>) -> (b: Bitmap)
    requires
        s.wf(),
    ensures
        b.wf(),
        b@ == bits_of(s@),
{
    proof {
        s.lemma_wf();
    }
    match s.deletions() {
        Some(b) => {
            let r = b.clone();
            assert(r@ =~= bits_of(s@));
            r
        },
        None => {
            let r = Bitmap::new(s.entry().num_docs);
            assert(r@ =~= bits_of(s@));
            r
        },
    }
}

/// Marks the ids, segment by segment. Ids that no segment holds are ignored.
fn mark(index: &Index<'_>, ids: &[DocId]) -> (slots: Vec<Option<Bitmap>>)
    requires
        index.wf(),
    ensures
        slots@.len() == index@.segments.len(),
        forall|i: int|
            #![trigger slots@[i]]
            0 <= i < slots@.len() ==> slot_holds(index@, ids@, ids@.len() as int, i, slots@[i]),
{
    let ghost v = index@;
    let segments = index.segment_list();
    let count: usize = segments.len();
    proof {
        index.lemma_wf();
    }
    let mut slots: Vec<Option<Bitmap>> = Vec::new();
    while slots.len() < count
        invariant
            count == v.segments.len(),
            slots@.len() <= count,
            forall|i: int| 0 <= i < slots@.len() ==> (#[trigger] slots@[i]) is None,
        decreases count - slots@.len(),
    {
        slots.push(None);
    }
    proof {
        assert forall|i: int| #![trigger slots@[i]] 0 <= i < slots@.len() implies slot_holds(
            v,
            ids@,
            0,
            i,
            slots@[i],
        ) by {
            assert(bits_after(v, ids@, 0, i) =~= bits_of(v.segments[i]));
        }
    }
    let mut n: usize = 0;
    while n < ids.len()
        invariant
            index.wf(),
            v == index@,
            segments@ == index.held(),
            n <= ids@.len(),
            slots@.len() == v.segments.len(),
            forall|i: int|
                #![trigger slots@[i]]
                0 <= i < slots@.len() ==> slot_holds(v, ids@, n as int, i, slots@[i]),
        decreases ids@.len() - n,
    {
        let ghost had = slots@;
        let id: DocId = ids[n];
        proof {
            index.lemma_wf();
        }
        match index.locate_at(id) {
            None => {
                proof {
                    assert forall|i: int| #![trigger slots@[i]] 0 <= i
                        < slots@.len() implies slot_holds(v, ids@, n + 1, i, slots@[i]) by {
                        lemma_unmoved(v, ids@, n as int, i);
                        assert(slot_holds(v, ids@, n as int, i, had[i]));
                    }
                }
            },
            Some((at, local)) => {
                proof {
                    lemma_place(v.manifest, id, at as int, local);
                    assert(index.held()[at as int].wf());
                }
                let mut b = match slots[at].take() {
                    Some(b) => b,
                    None => current_bits(&segments[at]),
                };
                assert(b@ == bits_after(v, ids@, n as int, at as int)) by {
                    assert(slot_holds(v, ids@, n as int, at as int, had[at as int]));
                }
                b.set(local);
                proof {
                    let want = bits_after(v, ids@, n + 1, at as int);
                    assert(b@ =~= want) by {
                        assert forall|l: int| 0 <= l < want.len() implies b@[l] == #[trigger] want[l] by {
                            lemma_hit_step(v.manifest.segments, ids@, n as int, at as int, l);
                        }
                    }
                }
                slots.set(at, Some(b));
                proof {
                    assert forall|i: int| #![trigger slots@[i]] 0 <= i
                        < slots@.len() implies slot_holds(v, ids@, n + 1, i, slots@[i]) by {
                        if i != at {
                            assert(slots@[i] == had[i]);
                            lemma_unmoved(v, ids@, n as int, i);
                            assert(slot_holds(v, ids@, n as int, i, had[i]));
                        }
                    }
                }
            },
        }
        n = n + 1;
    }
    slots
}

proof fn lemma_unmoved(v: IndexView, ids: Seq<u32>, n: int, i: int)
    requires
        0 <= n < ids.len(),
        match place_of(v.manifest.segments, ids[n]) {
            Some((at, _)) => at != i,
            None => true,
        },
    ensures
        bits_after(v, ids, n + 1, i) == bits_after(v, ids, n, i),
{
    let a = bits_after(v, ids, n, i);
    let b = bits_after(v, ids, n + 1, i);
    assert(a =~= b) by {
        assert forall|l: int| 0 <= l < b.len() implies a[l] == #[trigger] b[l] by {
            lemma_hit_step(v.manifest.segments, ids, n, i, l);
        }
    }
}

/// The next generation of a segment's deletions.
pub fn next_generation(e: &SegmentEntry, b: &Bitmap) -> (r: (SegmentEntry, NewFile))
    requires
        b.wf(),
        b@.len() == e.num_docs,
        e.del_gen < u32::MAX,
    ensures
        next_deletions(*e, r.0, b@, r.1),
        r.0.del_len > 0,
        r.0.num_deleted <= e.num_docs,
{
    let gen: u32 = e.del_gen + 1;
    let bytes = b.encode();
    assert(bytes@.len() == bytes.len());
    proof {
        del::lemma_roundtrip(b);
        del::lemma_count_set_bound(b@);
        lemma_sealed_parses(
            Kind::Del,
            del::body_view(b@.len() as u32, count_set(b@) as u32, b.bytes()),
        );
    }
    let crc: u32 = match envelope::parse(Kind::Del, bytes.as_slice()) {
        Ok(env) => env.crc,
        Err(_) => 0,
    };
    let entry = SegmentEntry {
        del_gen: gen,
        del_len: bytes.len() as u64,
        del_crc: crc,
        num_deleted: b.count(),
        ..*e
    };
    (entry, NewFile { name: del_name(e.segment_id, gen), bytes })
}

/// Marks ids deleted: for every segment that changes, the next generation of
/// its deletions. Ids that no segment holds, or that are deleted already, are
/// ignored. Returns the entries, the files to write and those to retire.
pub fn tombstones(index: &Index<'_>, ids: &[DocId]) -> (r: (
    Vec<SegmentEntry>,
    Vec<NewFile>,
    Vec<String>,
))
    requires
        index.wf(),
        forall|i: int|
            0 <= i < index@.manifest.segments.len() ==> (#[trigger] index@.manifest.segments[i]).del_gen
                < u32::MAX,
    ensures
        tombstoned(
            index@,
            ids@,
            r.0@,
            r.1@,
            views(r.2@),
            index@.manifest.segments.len() as int,
        ),
        keeps_ranges(index@.manifest.segments, r.0@),
{
    let ghost v = index@;
    let slots = mark(index, ids);
    let segments = index.segment_list();
    proof {
        index.lemma_wf();
    }
    let mut entries: Vec<SegmentEntry> = Vec::new();
    let mut files: Vec<NewFile> = Vec::new();
    let mut retired: Vec<String> = Vec::new();
    let mut i: usize = 0;
    assert(views(retired@).len() == 0);
    while i < segments.len()
        invariant
            index.wf(),
            v == index@,
            segments@ == index.held(),
            slots@.len() == v.segments.len(),
            forall|k: int|
                #![trigger slots@[k]]
                0 <= k < slots@.len() ==> slot_holds(v, ids@, ids@.len() as int, k, slots@[k]),
            forall|k: int|
                0 <= k < v.manifest.segments.len() ==> (#[trigger] v.manifest.segments[k]).del_gen
                    < u32::MAX,
            segments@.len() == v.segments.len(),
            v.manifest.segments.len() == v.segments.len(),
            i <= segments@.len(),
            tombstoned(v, ids@, entries@, files@, views(retired@), i as int),
            entries@.len() == i,
            forall|k: int| 0 <= k < i ==> same_range(v.manifest.segments[k], #[trigger] entries@[k]),
        decreases segments@.len() - i,
    {
        let ghost (es, fs, rs) = (entries@, files@, views(retired@));
        proof {
            index.lemma_wf();
            assert(index.held()[i as int]@ == v.segments[i as int]);
        }
        let e: &SegmentEntry = segments[i].entry();
        let bits = match &slots[i] {
            Some(b) => Some(b),
            None => None,
        };
        let changed: bool = match bits {
            None => false,
            Some(b) => differs(b, &segments[i]),
        };
        assert(slot_holds(v, ids@, ids@.len() as int, i as int, slots@[i as int]));
        if !changed {
            entries.push(*e);
            assert(entries@.drop_last() =~= es);
        } else if let Some(b) = bits {
            let (next, file) = next_generation(e, b);
            entries.push(next);
            files.push(file);
            assert(entries@.drop_last() =~= es);
            assert(files@.drop_last() =~= fs);
            if e.del_gen > 0 {
                retired.push(del_name(e.segment_id, e.del_gen));
                assert(views(retired@) =~= rs.push(del_file(e.segment_id, e.del_gen)));
                assert(views(retired@).drop_last() =~= rs);
            }
        }
        i = i + 1;
    }
    (entries, files, retired)
}

/// Whether the bitmap differs from the deletions of a segment.
fn differs(b: &Bitmap, s: &Segment<'_>) -> (r: bool)
    requires
        b.wf(),
        s.wf(),
        b@.len() == s@.entry.num_docs,
    ensures
        r == (b@ != bits_of(s@)),
{
    let n: u32 = s.entry().num_docs;
    let mut i: u32 = 0;
    while i < n
        invariant
            b.wf(),
            s.wf(),
            n == s@.entry.num_docs,
            b@.len() == n,
            i <= n,
            forall|k: int| 0 <= k < i ==> b@[k] == #[trigger] bits_of(s@)[k],
        decreases n - i,
    {
        if b.get(i) != s.is_deleted(i) {
            assert(b@[i as int] != bits_of(s@)[i as int]);
            return true;
        }
        i = i + 1;
    }
    assert(b@ =~= bits_of(s@));
    false
}

/// The entries are of the same documents, and each is sound by itself.
pub open spec fn same_range(a: SegmentEntry, b: SegmentEntry) -> bool {
    &&& a.segment_id == b.segment_id
    &&& a.base_doc == b.base_doc
    &&& a.num_docs == b.num_docs
    &&& a == b || (b.del_gen > 0 && b.del_len > 0 && b.num_deleted <= b.num_docs)
}

/// The entries are of the same documents, one for one.
pub open spec fn keeps_ranges(a: Seq<SegmentEntry>, b: Seq<SegmentEntry>) -> bool {
    &&& a.len() == b.len()
    &&& forall|i: int| 0 <= i < a.len() ==> same_range(a[i], #[trigger] b[i])
}

/// A valid manifest stays valid under entries of the same documents.
pub proof fn lemma_still_valid(m: ManifestView, next: ManifestView)
    requires
        valid(m),
        keeps_ranges(m.segments, next.segments),
        next.next_segment_id == m.next_segment_id,
        (next.state_gen == 0) == (next.state_len == 0),
    ensures
        valid(next),
{
    assert forall|i: int| #![trigger next.segments[i]] 0 <= i < next.segments.len() implies entry_fault(
        next.segments[i],
        prev_entry(next.segments, i),
        next.next_segment_id,
    ) is None by {
        assert(same_range(m.segments[i], next.segments[i]));
        assert(entry_fault(m.segments[i], prev_entry(m.segments, i), m.next_segment_id) is None);
        if i > 0 {
            assert(same_range(m.segments[i - 1], next.segments[i - 1]));
        }
    }
}

/// Marks documents deleted. Gives back what to commit; nothing where no
/// document is newly deleted. `now` is the time of the commit in nanoseconds.
pub fn delete_docs(index: &Index<'_>, ids: &[DocId], now: i64) -> (r: Option<Commit>)
    requires
        index.wf(),
        index@.manifest.generation < u64::MAX,
        forall|i: int|
            0 <= i < index@.manifest.segments.len() ==> (#[trigger] index@.manifest.segments[i]).del_gen
                < u32::MAX,
    ensures
        match r {
            None => forall|i: int|
                0 <= i < index@.segments.len() ==> !#[trigger] affected(index@, ids@, i),
            Some(c) => (exists|i: int|
                0 <= i < index@.segments.len() && #[trigger] affected(index@, ids@, i)) && tombstoned(
                index@,
                ids@,
                c.manifest@.segments,
                c.files@,
                views(c.retired@),
                index@.segments.len() as int,
            ) && c.manifest@ == (ManifestView {
                generation: (index@.manifest.generation + 1) as u64,
                committed_unix_nanos: now,
                segments: c.manifest@.segments,
                ..index@.manifest
            }) && valid(c.manifest@),
        },
{
    let (entries, files, retired) = tombstones(index, ids);
    proof {
        index.lemma_wf();
        lemma_tombstoned(
            index@,
            ids@,
            entries@,
            files@,
            views(retired@),
            index@.segments.len() as int,
        );
    }
    if files.len() == 0 {
        return None;
    }
    let mut manifest: Manifest = index.manifest().clone();
    manifest.generation = manifest.generation + 1;
    manifest.committed_unix_nanos = now;
    manifest.segments = entries;
    proof {
        lemma_still_valid(index@.manifest, manifest@);
    }
    Some(Commit { files, manifest, retired })
}

} // verus!
