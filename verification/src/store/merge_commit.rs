//! Committing merges.
//!
//! By the time a merge is committed, documents may have been deleted from its
//! sources. Whatever is deleted from a source by then and was kept by the merge
//! is deleted from the merged segment too.

use vstd::prelude::*;

use super::commit::{next_deletions, next_generation, Commit, NewFile};
use super::merge::{global_id, merged_docs, new_ids, seg_index, sources_of, PreparedMerge, Source};
use super::merge_plan::ids_unique;
use super::reader::{bound_of, doc_of, lemma_place, Index, IndexView};
use super::segment::gone;
use super::{doc_file, doc_name, files_of, idx_file, idx_name, segment_files};
use crate::error::{Error, ErrorView, Result};
use crate::format::del::{count_set, lemma_count_set_bound, Bitmap};
use crate::format::manifest::{
    self, entry_fault, prev_entry, valid, Manifest, ManifestView, SegmentEntry,
};
use crate::index::DocId;
use crate::text::{decimal, push_decimal, views};

verus! {

/// The segment of a source in the index.
pub open spec fn source_at(v: IndexView, s: Source) -> int {
    seg_index(v.manifest.segments, s.segment_id, 0)
}

/// Documents may have been deleted from the source since the merge was prepared.
pub open spec fn stale(v: IndexView, s: Source) -> bool {
    v.manifest.segments[source_at(v, s)].del_gen != s.del_gen
}

/// One of the first `n` documents of the source has the new number `d` and is
/// deleted.
pub open spec fn lost(v: IndexView, s: Source, d: u32, n: int) -> bool {
    exists|l: int|
        0 <= l < n && #[trigger] s.new_ids@[l] == Some(d) && gone(v.segments[source_at(v, s)], l)
}

/// A document of the first `j` sources has the new number `d` and was deleted
/// since.
pub open spec fn carried(v: IndexView, ss: Seq<Source>, d: u32, j: int) -> bool {
    exists|k: int|
        0 <= k < j && stale(v, #[trigger] ss[k]) && lost(v, ss[k], d, ss[k].new_ids@.len() as int)
}

/// The documents of a merged segment that are deleted from the start.
pub open spec fn carry_bits(v: IndexView, p: PreparedMerge) -> Seq<bool> {
    Seq::new(p.num_docs as nat, |d: int| carried(v, p.sources@, d as u32, p.sources@.len() as int))
}

/// The entry of a merged segment without deletions.
pub open spec fn merged_entry(p: PreparedMerge, id: u32, base: u32) -> SegmentEntry {
    SegmentEntry {
        segment_id: id,
        base_doc: base,
        num_docs: p.num_docs,
        num_deleted: 0,
        del_gen: 0,
        del_len: 0,
        del_crc: 0,
        ..p.segment.entry
    }
}

/// The entry and the files of a merged segment.
#[verifier::opaque]
pub open spec fn finished(
    v: IndexView,
    p: PreparedMerge,
    id: u32,
    base: u32,
    entry: SegmentEntry,
    files: Seq<NewFile>,
) -> bool {
    let bits = carry_bits(v, p);
    &&& files.len() == if count_set(bits) > 0 {
        3int
    } else {
        2int
    }
    &&& files[0].name@ == idx_file(id) && files[0].bytes@ == p.segment.idx@
    &&& files[1].name@ == doc_file(id) && files[1].bytes@ == p.segment.doc@
    &&& if count_set(bits) > 0 {
        next_deletions(merged_entry(p, id, base), entry, bits, files[2]) && entry.del_len > 0
    } else {
        entry == merged_entry(p, id, base)
    }
}

/// The deletions carried over from the first `n` documents of source `j`, and
/// from all sources before it.
spec fn bits_upto(v: IndexView, p: PreparedMerge, j: int, n: int) -> Seq<bool> {
    Seq::new(
        p.num_docs as nat,
        |d: int|
            carried(v, p.sources@, d as u32, j) || (j < p.sources@.len() && stale(v, p.sources@[j])
                && lost(v, p.sources@[j], d as u32, n)),
    )
}

proof fn lemma_lost_step(v: IndexView, s: Source, d: u32, n: int)
    requires
        0 <= n < s.new_ids@.len(),
    ensures
        lost(v, s, d, n + 1) == (lost(v, s, d, n) || s.new_ids@[n] == Some(d) && gone(
            v.segments[source_at(v, s)],
            n,
        )),
{
    if lost(v, s, d, n + 1) {
        let l = choose|l: int|
            0 <= l < n + 1 && #[trigger] s.new_ids@[l] == Some(d) && gone(
                v.segments[source_at(v, s)],
                l,
            );
        if l < n {
            assert(s.new_ids@[l] == Some(d));
        }
    }
    if lost(v, s, d, n) {
        let l = choose|l: int|
            0 <= l < n && #[trigger] s.new_ids@[l] == Some(d) && gone(
                v.segments[source_at(v, s)],
                l,
            );
        assert(s.new_ids@[l] == Some(d));
    }
    if s.new_ids@[n] == Some(d) && gone(v.segments[source_at(v, s)], n) {
        assert(lost(v, s, d, n + 1));
    }
}

proof fn lemma_carried_step(v: IndexView, ss: Seq<Source>, d: u32, j: int)
    requires
        0 <= j < ss.len(),
    ensures
        carried(v, ss, d, j + 1) == (carried(v, ss, d, j) || stale(v, ss[j]) && lost(
            v,
            ss[j],
            d,
            ss[j].new_ids@.len() as int,
        )),
{
    if carried(v, ss, d, j + 1) {
        let k = choose|k: int|
            0 <= k < j + 1 && stale(v, #[trigger] ss[k]) && lost(
                v,
                ss[k],
                d,
                ss[k].new_ids@.len() as int,
            );
        if k < j {
            assert(stale(v, ss[k]));
        }
    }
    if carried(v, ss, d, j) {
        let k = choose|k: int|
            0 <= k < j && stale(v, #[trigger] ss[k]) && lost(
                v,
                ss[k],
                d,
                ss[k].new_ids@.len() as int,
            );
        assert(stale(v, ss[k]));
    }
    if stale(v, ss[j]) && lost(v, ss[j], d, ss[j].new_ids@.len() as int) {
        assert(carried(v, ss, d, j + 1));
    }
}

fn find(es: &Vec<SegmentEntry>, id: u32) -> (i: usize)
    ensures
        i == seg_index(es@, id, 0),
        i <= es@.len(),
        i < es@.len() ==> es@[i as int].segment_id == id,
{
    let mut i: usize = 0;
    while i < es.len() && es[i].segment_id != id
        invariant
            i <= es@.len(),
            seg_index(es@, id, 0) == seg_index(es@, id, i as int),
        decreases es@.len() - i,
    {
        i = i + 1;
    }
    i
}

/// The documents that were deleted from the sources since the merge was
/// prepared.
fn carry(index: &Index<'_>, p: &PreparedMerge) -> (b: Bitmap)
    requires
        index.wf(),
        forall|k: int|
            0 <= k < p.sources@.len() ==> source_at(index@, #[trigger] p.sources@[k])
                < index@.manifest.segments.len(),
    ensures
        b.wf(),
        b@ == carry_bits(index@, *p),
{
    let ghost v = index@;
    let ghost ss = p.sources@;
    let segments = index.segment_list();
    let mut b = Bitmap::new(p.num_docs);
    let mut j: usize = 0;
    assert(b@ =~= bits_upto(v, *p, 0, 0));
    while j < p.sources.len()
        invariant
            index.wf(),
            v == index@,
            ss == p.sources@,
            segments@ == index.held(),
            forall|k: int|
                0 <= k < ss.len() ==> source_at(v, #[trigger] ss[k]) < v.manifest.segments.len(),
            j <= ss.len(),
            b.wf(),
            b@ == bits_upto(v, *p, j as int, 0),
        decreases ss.len() - j,
    {
        let s: &Source = &p.sources[j];
        let at: usize = find(&index.manifest().segments, s.segment_id);
        proof {
            index.lemma_wf();
            assert(*s == ss[j as int]);
            assert(index.held()[at as int]@ == v.segments[at as int]);
        }
        if index.manifest().segments[at].del_gen != s.del_gen {
            let seg = &segments[at];
            let mut l: usize = 0;
            while l < s.new_ids.len()
                invariant
                    v == index@,
                    ss == p.sources@,
                    j < ss.len(),
                    *s == ss[j as int],
                    stale(v, *s),
                    seg.wf(),
                    seg@ == v.segments[source_at(v, *s)],
                    l <= s.new_ids@.len(),
                    b.wf(),
                    b@ == bits_upto(v, *p, j as int, l as int),
                decreases s.new_ids@.len() - l,
            {
                let ghost had = b@;
                let out: bool = l <= u32::MAX as usize && seg.is_deleted(l as u32);
                proof {
                    if l > u32::MAX {
                        seg.lemma_wf();
                    }
                    assert(out == gone(seg@, l as int)) by {
                        seg.lemma_wf();
                    }
                }
                match s.new_ids[l] {
                    Some(d) => {
                        if out {
                            b.set(d);
                        }
                    },
                    None => {},
                }
                proof {
                    let want = bits_upto(v, *p, j as int, l + 1);
                    assert(b@ =~= want) by {
                        assert forall|d: int| 0 <= d < want.len() implies b@[d] == #[trigger] want[d] by {
                            lemma_lost_step(v, *s, d as u32, l as int);
                            assert(had[d] == bits_upto(v, *p, j as int, l as int)[d]);
                        }
                    }
                }
                l = l + 1;
            }
            proof {
                let n = s.new_ids@.len() as int;
                let want = bits_upto(v, *p, j + 1, 0);
                assert(b@ =~= want) by {
                    assert forall|d: int| 0 <= d < want.len() implies b@[d] == #[trigger] want[d] by {
                        lemma_carried_step(v, ss, d as u32, j as int);
                        assert(b@[d] == bits_upto(v, *p, j as int, n)[d]);
                    }
                }
            }
        } else {
            proof {
                let want = bits_upto(v, *p, j + 1, 0);
                assert(b@ =~= want) by {
                    assert forall|d: int| 0 <= d < want.len() implies b@[d] == #[trigger] want[d] by {
                        lemma_carried_step(v, ss, d as u32, j as int);
                        assert(b@[d] == bits_upto(v, *p, j as int, 0)[d]);
                    }
                }
            }
        }
        j = j + 1;
    }
    assert(b@ =~= carry_bits(v, *p));
    b
}

/// Gives a prepared merge its id and place, with what was deleted since.
fn finish_one(index: &Index<'_>, p: PreparedMerge, id: u32, base: DocId) -> (r: (
    SegmentEntry,
    Vec<NewFile>,
))
    requires
        index.wf(),
        forall|k: int|
            0 <= k < p.sources@.len() ==> source_at(index@, #[trigger] p.sources@[k])
                < index@.manifest.segments.len(),
    ensures
        finished(index@, p, id, base, r.0, r.1@),
{
    proof {
        reveal(finished);
    }
    let bits = carry(index, &p);
    let entry = SegmentEntry {
        segment_id: id,
        base_doc: base,
        num_docs: p.num_docs,
        num_deleted: 0,
        del_gen: 0,
        del_len: 0,
        del_crc: 0,
        ..p.segment.entry
    };
    let mut files: Vec<NewFile> = Vec::new();
    let segment = p.segment;
    files.push(NewFile { name: idx_name(id), bytes: segment.idx });
    files.push(NewFile { name: doc_name(id), bytes: segment.doc });
    if bits.count() == 0 {
        return (entry, files);
    }
    let (entry, file) = next_generation(&entry, &bits);
    files.push(file);
    (entry, files)
}

/// The ids that the first `n` merges replace.
pub open spec fn replaced(ps: Seq<PreparedMerge>, n: int) -> Seq<u32>
    decreases n,
{
    if n <= 0 {
        Seq::empty()
    } else {
        replaced(ps, n - 1) + ps[n - 1].sources@.map_values(|s: Source| s.segment_id)
    }
}

/// The first of the ids from `i` on that no segment has.
pub open spec fn first_absent(es: Seq<SegmentEntry>, ids: Seq<u32>, i: int) -> Option<u32>
    decreases ids.len() - i,
{
    if i >= ids.len() {
        None
    } else if seg_index(es, ids[i], 0) >= es.len() {
        Some(ids[i])
    } else {
        first_absent(es, ids, i + 1)
    }
}

/// The entries among the first `n` that stay.
pub open spec fn retained(es: Seq<SegmentEntry>, ids: Seq<u32>, n: int) -> Seq<SegmentEntry>
    decreases n,
{
    if n <= 0 {
        Seq::empty()
    } else if ids.contains(es[n - 1].segment_id) {
        retained(es, ids, n - 1)
    } else {
        retained(es, ids, n - 1).push(es[n - 1])
    }
}

/// The first document of merge `k`.
pub open spec fn merge_base(v: IndexView, ps: Seq<PreparedMerge>, k: int) -> int
    decreases k,
{
    if k <= 0 {
        bound_of(v.manifest.segments) as int
    } else {
        merge_base(v, ps, k - 1) + ps[k - 1].num_docs
    }
}

/// The files of the segments with these ids.
pub open spec fn dropped_files(es: Seq<SegmentEntry>, ids: Seq<u32>, n: int) -> Seq<Seq<char>>
    decreases n,
{
    if n <= 0 {
        Seq::empty()
    } else {
        dropped_files(es, ids, n - 1) + files_of(es[seg_index(es, ids[n - 1], 0)])
    }
}

/// Lists of files, one behind the other.
pub open spec fn all_parts(parts: Seq<Seq<NewFile>>, n: int) -> Seq<NewFile>
    decreases n,
{
    if n <= 0 {
        Seq::empty()
    } else {
        all_parts(parts, n - 1) + parts[n - 1]
    }
}

/// The first `n` merges with their entries and files.
pub open spec fn all_finished(
    v: IndexView,
    ps: Seq<PreparedMerge>,
    entries: Seq<SegmentEntry>,
    parts: Seq<Seq<NewFile>>,
    n: int,
) -> bool {
    &&& entries.len() == n
    &&& parts.len() == n
    &&& forall|k: int|
        0 <= k < n ==> finished(
            v,
            #[trigger] ps[k],
            (v.manifest.next_segment_id + k) as u32,
            merge_base(v, ps, k) as u32,
            entries[k],
            parts[k],
        )
}

/// The commit of merges.
#[verifier::opaque]
pub open spec fn merges_hold(v: IndexView, ps: Seq<PreparedMerge>, now: i64, c: Commit) -> bool {
    let n = ps.len() as int;
    let es = v.manifest.segments;
    let ids = replaced(ps, n);
    exists|entries: Seq<SegmentEntry>, parts: Seq<Seq<NewFile>>|
        {
            &&& #[trigger] all_finished(v, ps, entries, parts, n)
            &&& c.files@ == all_parts(parts, n)
            &&& c.manifest@ == (ManifestView {
                generation: (v.manifest.generation + 1) as u64,
                next_segment_id: (v.manifest.next_segment_id + n) as u32,
                committed_unix_nanos: now,
                segments: retained(es, ids, es.len() as int) + entries,
                ..v.manifest
            })
            &&& views(c.retired@) == dropped_files(es, ids, ids.len() as int)
        }
}

/// What is told of a merge whose source is gone.
pub open spec fn gone_text(id: u32) -> Seq<char> {
    "segment "@ + decimal(id as nat) + " no longer exists; merge aborted"@
}

fn all_sources(ps: &Vec<PreparedMerge>) -> (ids: Vec<u32>)
    ensures
        ids@ == replaced(ps@, ps@.len() as int),
{
    let mut ids: Vec<u32> = Vec::new();
    let mut i: usize = 0;
    while i < ps.len()
        invariant
            i <= ps@.len(),
            ids@ == replaced(ps@, i as int),
        decreases ps@.len() - i,
    {
        let ghost had = ids@;
        let mut own = ps[i].source_ids();
        let ghost ov = own@;
        ids.append(&mut own);
        assert(ids@ =~= had + ov);
        i = i + 1;
    }
    ids
}

proof fn lemma_present(es: Seq<SegmentEntry>, ids: Seq<u32>, i: int, k: int)
    requires
        first_absent(es, ids, i) is None,
        0 <= i <= k < ids.len(),
    ensures
        seg_index(es, ids[k], 0) < es.len(),
    decreases k - i,
{
    if i < k {
        lemma_present(es, ids, i + 1, k);
    }
}

proof fn lemma_replaced(ps: Seq<PreparedMerge>, n: int, k: int, j: int)
    requires
        0 <= k < n <= ps.len(),
        0 <= j < ps[k].sources@.len(),
    ensures
        replaced(ps, n).contains(ps[k].sources@[j].segment_id),
    decreases n,
{
    let own = ps[n - 1].sources@.map_values(|s: Source| s.segment_id);
    let r = replaced(ps, n);
    let q = replaced(ps, n - 1);
    if k == n - 1 {
        assert(r[q.len() + j] == own[j]);
    } else {
        lemma_replaced(ps, n - 1, k, j);
        let x = choose|x: int| 0 <= x < q.len() && q[x] == ps[k].sources@[j].segment_id;
        assert(r[x] == q[x]);
    }
}

/// Later merges start no earlier.
pub proof fn lemma_bases_grow(v: IndexView, ps: Seq<PreparedMerge>, j: int, k: int)
    requires
        0 <= j <= k,
    ensures
        merge_base(v, ps, j) <= merge_base(v, ps, k),
    decreases k - j,
{
    if j < k {
        lemma_bases_grow(v, ps, j, k - 1);
    }
}

/// Every source is still there.
fn check_sources(index: &Index<'_>, ids: &Vec<u32>) -> (r: Result<()>)
    requires
        index.wf(),
    ensures
        match (r, first_absent(index@.manifest.segments, ids@, 0)) {
            (Ok(_), None) => true,
            (Err(e), Some(id)) => e@ == (ErrorView::Corrupt {
                path: index@.dir(),
                reason: gone_text(id),
            }),
            _ => false,
        },
{
    let ghost es = index@.manifest.segments;
    let mut i: usize = 0;
    while i < ids.len()
        invariant
            index.wf(),
            es == index@.manifest.segments,
            i <= ids@.len(),
            first_absent(es, ids@, 0) == first_absent(es, ids@, i as int),
        decreases ids@.len() - i,
    {
        let at: usize = find(&index.manifest().segments, ids[i]);
        if at >= index.manifest().segments.len() {
            let mut reason: String = "segment ".to_string();
            push_decimal(&mut reason, ids[i] as u64);
            reason.push_str(" no longer exists; merge aborted");
            return Err(Error::Corrupt { path: index.dir().to_string(), reason });
        }
        i = i + 1;
    }
    Ok(())
}

proof fn lemma_finished_push(
    v: IndexView,
    ps: Seq<PreparedMerge>,
    entries: Seq<SegmentEntry>,
    parts: Seq<Seq<NewFile>>,
    k: int,
    e: SegmentEntry,
    own: Seq<NewFile>,
)
    requires
        0 <= k < ps.len(),
        all_finished(v, ps, entries, parts, k),
        finished(
            v,
            ps[k],
            (v.manifest.next_segment_id + k) as u32,
            merge_base(v, ps, k) as u32,
            e,
            own,
        ),
    ensures
        all_finished(v, ps, entries.push(e), parts.push(own), k + 1),
        all_parts(parts.push(own), k + 1) == all_parts(parts, k) + own,
{
    let es = entries.push(e);
    let qs = parts.push(own);
    assert forall|j: int| 0 <= j < k + 1 implies finished(
        v,
        #[trigger] ps[j],
        (v.manifest.next_segment_id + j) as u32,
        merge_base(v, ps, j) as u32,
        es[j],
        qs[j],
    ) by {
        if j < k {
            assert(es[j] == entries[j]);
            assert(qs[j] == parts[j]);
        }
    }
    lemma_parts_prefix(parts, own, k);
}

/// Gives the merges their ids and places.
fn finish_all(index: &Index<'_>, prepared: Vec<PreparedMerge>) -> (r: (
    Vec<SegmentEntry>,
    Vec<NewFile>,
))
    requires
        index.wf(),
        index@.manifest.next_segment_id + prepared@.len() <= u32::MAX,
        merge_base(index@, prepared@, prepared@.len() as int) <= u32::MAX,
        forall|k: int, j: int|
            #![trigger prepared@[k].sources@[j]]
            0 <= k < prepared@.len() && 0 <= j < prepared@[k].sources@.len() ==> source_at(
                index@,
                prepared@[k].sources@[j],
            ) < index@.manifest.segments.len(),
    ensures
        exists|parts: Seq<Seq<NewFile>>| #[trigger]
            all_finished(index@, prepared@, r.0@, parts, prepared@.len() as int) && r.1@
                == all_parts(parts, prepared@.len() as int),
{
    let ghost v = index@;
    let ghost ps = prepared@;
    let n: usize = prepared.len();
    let mut files: Vec<NewFile> = Vec::new();
    let mut entries: Vec<SegmentEntry> = Vec::new();
    let ghost mut parts: Seq<Seq<NewFile>> = Seq::empty();
    let first_id: u32 = index.manifest().next_segment_id;
    let mut base: DocId = index.docs().id_bound();
    let mut left = prepared;
    let mut k: usize = 0;
    assert(ps.skip(0) =~= ps);
    while k < n
        invariant
            index.wf(),
            v == index@,
            n == ps.len(),
            first_id == v.manifest.next_segment_id,
            first_id + n <= u32::MAX,
            merge_base(v, ps, n as int) <= u32::MAX,
            forall|k: int, j: int|
                #![trigger ps[k].sources@[j]]
                0 <= k < ps.len() && 0 <= j < ps[k].sources@.len() ==> source_at(
                    v,
                    ps[k].sources@[j],
                ) < v.manifest.segments.len(),
            k <= n,
            left@ == ps.skip(k as int),
            base == merge_base(v, ps, k as int),
            all_finished(v, ps, entries@, parts, k as int),
            files@ == all_parts(parts, k as int),
        decreases n - k,
    {
        let ghost fv = files@;
        let p = left.remove(0);
        proof {
            assert(p == ps[k as int]);
            assert(left@ =~= ps.skip(k + 1));
            lemma_bases_grow(v, ps, k + 1, n as int);
        }
        let docs: u32 = p.num_docs;
        let id: u32 = first_id + k as u32;
        let (entry, mut own) = finish_one(index, p, id, base);
        proof {
            lemma_finished_push(v, ps, entries@, parts, k as int, entry, own@);
            parts = parts.push(own@);
        }
        let ghost ov = own@;
        entries.push(entry);
        files.append(&mut own);
        assert(files@ =~= fv + ov);
        base = base + docs;
        k = k + 1;
    }
    assert(files@ == all_parts(parts, prepared@.len() as int));
    let r = (entries, files);
    assert(all_finished(index@, prepared@, r.0@, parts, prepared@.len() as int));
    r
}

/// The files of the segments with these ids.
fn drop_files(index: &Index<'_>, ids: &Vec<u32>) -> (retired: Vec<String>)
    requires
        index.wf(),
        first_absent(index@.manifest.segments, ids@, 0) is None,
    ensures
        views(retired@) == dropped_files(index@.manifest.segments, ids@, ids@.len() as int),
{
    let ghost es = index@.manifest.segments;
    let mut retired: Vec<String> = Vec::new();
    let mut i: usize = 0;
    assert(views(retired@) =~= Seq::empty());
    while i < ids.len()
        invariant
            index.wf(),
            es == index@.manifest.segments,
            first_absent(es, ids@, 0) is None,
            i <= ids@.len(),
            views(retired@) == dropped_files(es, ids@, i as int),
        decreases ids@.len() - i,
    {
        let ghost had = views(retired@);
        proof {
            lemma_present(es, ids@, 0, i as int);
        }
        let at: usize = find(&index.manifest().segments, ids[i]);
        let mut own = segment_files(&index.manifest().segments[at]);
        let ghost ov = views(own@);
        retired.append(&mut own);
        assert(views(retired@) =~= had + ov);
        i = i + 1;
    }
    retired
}

/// The entries that stay.
fn retain(es: &Vec<SegmentEntry>, ids: &Vec<u32>) -> (r: Vec<SegmentEntry>)
    ensures
        r@ == retained(es@, ids@, es@.len() as int),
{
    let mut r: Vec<SegmentEntry> = Vec::new();
    let mut i: usize = 0;
    while i < es.len()
        invariant
            i <= es@.len(),
            r@ == retained(es@, ids@, i as int),
        decreases es@.len() - i,
    {
        let e: SegmentEntry = es[i];
        if !has_id(ids, e.segment_id) {
            r.push(e);
        }
        i = i + 1;
    }
    r
}

/// The counters of the index have room for what these merges add.
pub open spec fn merges_fit(v: IndexView, ps: Seq<PreparedMerge>) -> bool {
    &&& v.manifest.generation < u64::MAX
    &&& v.manifest.next_segment_id + ps.len() <= u32::MAX
    &&& v.manifest.segments.len() + ps.len() <= u32::MAX
    &&& v.manifest.segments.len() > 0 ==> v.manifest.segments.last().end() <= u32::MAX
    &&& merge_base(v, ps, ps.len() as int) <= u32::MAX
}

/// What committing merges writes, against the index as it is now; nothing where there
/// are no merges. Where a source is gone, which a single writer never causes, the merges
/// are given up.
pub fn commit_merges(index: &Index<'_>, prepared: Vec<PreparedMerge>, now: i64) -> (r: Result<
    Option<Commit>,
>)
    requires
        index.wf(),
        prepared@.len() > 0 ==> merges_fit(index@, prepared@),
    ensures
        ({
            let v = index@;
            let n = prepared@.len() as int;
            match (r, first_absent(v.manifest.segments, replaced(prepared@, n), 0)) {
                (Ok(None), _) => n == 0,
                (Ok(Some(c)), None) => n > 0 && merges_hold(v, prepared@, now, c) && (ids_unique(
                    v.manifest.segments,
                ) ==> valid(c.manifest@)),
                (Err(e), Some(id)) => e@ == (ErrorView::Corrupt {
                    path: v.dir(),
                    reason: gone_text(id),
                }),
                _ => false,
            }
        }),
{
    let ghost v = index@;
    let ghost ps = prepared@;
    let ghost es = v.manifest.segments;
    let n: usize = prepared.len();
    if n == 0 {
        return Ok(None);
    }
    let ids = all_sources(&prepared);
    check_sources(index, &ids)?;
    proof {
        assert forall|k: int, j: int|
            #![trigger ps[k].sources@[j]]
            0 <= k < ps.len() && 0 <= j < ps[k].sources@.len() implies source_at(
            v,
            ps[k].sources@[j],
        ) < es.len() by {
            lemma_replaced(ps, n as int, k, j);
            let x = choose|x: int| 0 <= x < ids@.len() && ids@[x] == ps[k].sources@[j].segment_id;
            lemma_present(es, ids@, 0, x);
        }
    }
    let (mut entries, files) = finish_all(index, prepared);
    let ghost ev = entries@;
    let retired = drop_files(index, &ids);
    let mut segments = retain(&index.manifest().segments, &ids);
    segments.append(&mut entries);
    let mut manifest: Manifest = index.manifest().clone();
    manifest.generation = manifest.generation + 1;
    manifest.next_segment_id = manifest.next_segment_id + n as u32;
    manifest.committed_unix_nanos = now;
    manifest.segments = segments;
    let c = Commit { files, manifest, retired };
    proof {
        index.lemma_wf();
        lemma_merges_hold(v, ps, now, c, ev);
    }
    Ok(Some(c))
}

proof fn lemma_merges_hold(
    v: IndexView,
    ps: Seq<PreparedMerge>,
    now: i64,
    c: Commit,
    entries: Seq<SegmentEntry>,
)
    requires
        valid(v.manifest),
        exists|parts: Seq<Seq<NewFile>>| #[trigger]
            all_finished(v, ps, entries, parts, ps.len() as int) && c.files@ == all_parts(
                parts,
                ps.len() as int,
            ),
        c.manifest@ == (ManifestView {
            generation: (v.manifest.generation + 1) as u64,
            next_segment_id: (v.manifest.next_segment_id + ps.len()) as u32,
            committed_unix_nanos: now,
            segments: retained(
                v.manifest.segments,
                replaced(ps, ps.len() as int),
                v.manifest.segments.len() as int,
            ) + entries,
            ..v.manifest
        }),
        views(c.retired@) == dropped_files(
            v.manifest.segments,
            replaced(ps, ps.len() as int),
            replaced(ps, ps.len() as int).len() as int,
        ),
        v.manifest.next_segment_id + ps.len() <= u32::MAX,
        v.manifest.segments.len() + ps.len() <= u32::MAX,
        v.manifest.segments.len() > 0 ==> v.manifest.segments.last().end() <= u32::MAX,
        merge_base(v, ps, ps.len() as int) <= u32::MAX,
    ensures
        merges_hold(v, ps, now, c),
        ids_unique(v.manifest.segments) ==> valid(c.manifest@),
{
    reveal(merges_hold);
    let parts = choose|parts: Seq<Seq<NewFile>>| #[trigger]
        all_finished(v, ps, entries, parts, ps.len() as int) && c.files@ == all_parts(
            parts,
            ps.len() as int,
        );
    assert(all_finished(v, ps, entries, parts, ps.len() as int));
    if ids_unique(v.manifest.segments) {
        lemma_merge_valid(v, ps, replaced(ps, ps.len() as int), entries, parts, c.manifest@);
    }
}

fn has_id(ids: &Vec<u32>, id: u32) -> (r: bool)
    ensures
        r == ids@.contains(id),
{
    let mut i: usize = 0;
    while i < ids.len()
        invariant
            i <= ids@.len(),
            forall|k: int| 0 <= k < i ==> ids@[k] != id,
        decreases ids@.len() - i,
    {
        if ids[i] == id {
            return true;
        }
        i = i + 1;
    }
    false
}

proof fn lemma_parts_prefix(parts: Seq<Seq<NewFile>>, more: Seq<NewFile>, n: int)
    requires
        0 <= n <= parts.len(),
    ensures
        all_parts(parts.push(more), n) == all_parts(parts, n),
    decreases n,
{
    if n > 0 {
        lemma_parts_prefix(parts, more, n - 1);
    }
}

/// The entries that stay: each is one of the segments, in their order.
proof fn lemma_retained(m: ManifestView, ids: Seq<u32>, n: int)
    requires
        0 <= n <= m.segments.len(),
    ensures
        retained(m.segments, ids, n).len() <= n,
        forall|a: int|
            #![trigger retained(m.segments, ids, n)[a]]
            0 <= a < retained(m.segments, ids, n).len() ==> exists|i: int|
                0 <= i < n && #[trigger] m.segments[i] == retained(m.segments, ids, n)[a],
        valid(m) && ids_unique(m.segments) ==> forall|a: int, b: int|
            #![trigger retained(m.segments, ids, n)[a], retained(m.segments, ids, n)[b]]
            0 <= a < b < retained(m.segments, ids, n).len() ==> retained(
                m.segments,
                ids,
                n,
            )[a].end() <= retained(m.segments, ids, n)[b].base_doc && retained(
                m.segments,
                ids,
                n,
            )[a].segment_id != retained(m.segments, ids, n)[b].segment_id,
    decreases n,
{
    if n > 0 {
        lemma_retained(m, ids, n - 1);
        let r = retained(m.segments, ids, n);
        let q = retained(m.segments, ids, n - 1);
        assert forall|a: int| #![trigger r[a]] 0 <= a < r.len() implies exists|i: int|
            0 <= i < n && #[trigger] m.segments[i] == r[a] by {
            if a < q.len() {
                assert(r[a] == q[a]);
                let i = choose|i: int| 0 <= i < n - 1 && #[trigger] m.segments[i] == q[a];
                assert(m.segments[i] == r[a]);
            } else {
                assert(m.segments[n - 1] == r[a]);
            }
        }
        if valid(m) && ids_unique(m.segments) {
            assert forall|a: int, b: int|
                #![trigger r[a], r[b]]
                0 <= a < b < r.len() implies r[a].end() <= r[b].base_doc && r[a].segment_id
                != r[b].segment_id by {
                assert(r[a] == q[a]);
                if b < q.len() {
                    assert(r[b] == q[b]);
                } else {
                    let i = choose|i: int| 0 <= i < n - 1 && #[trigger] m.segments[i] == q[a];
                    manifest::lemma_segments_disjoint(m, i, n - 1);
                }
            }
        }
    }
}

proof fn lemma_merge_valid(
    v: IndexView,
    ps: Seq<PreparedMerge>,
    ids: Seq<u32>,
    entries: Seq<SegmentEntry>,
    parts: Seq<Seq<NewFile>>,
    next: ManifestView,
)
    requires
        valid(v.manifest),
        ids_unique(v.manifest.segments),
        all_finished(v, ps, entries, parts, ps.len() as int),
        next == (ManifestView {
            generation: next.generation,
            next_segment_id: (v.manifest.next_segment_id + ps.len()) as u32,
            committed_unix_nanos: next.committed_unix_nanos,
            segments: retained(v.manifest.segments, ids, v.manifest.segments.len() as int)
                + entries,
            ..v.manifest
        }),
        v.manifest.next_segment_id + ps.len() <= u32::MAX,
        v.manifest.segments.len() + ps.len() <= u32::MAX,
        v.manifest.segments.len() > 0 ==> v.manifest.segments.last().end() <= u32::MAX,
        merge_base(v, ps, ps.len() as int) <= u32::MAX,
    ensures
        valid(next),
{
    reveal(finished);
    let m = v.manifest;
    let es = m.segments;
    let q = retained(es, ids, es.len() as int);
    lemma_retained(m, ids, es.len() as int);
    assert forall|i: int| #![trigger next.segments[i]] 0 <= i < next.segments.len() implies entry_fault(
        next.segments[i],
        prev_entry(next.segments, i),
        next.next_segment_id,
    ) is None by {
        if i < q.len() {
            assert(next.segments[i] == q[i]);
            let x = choose|x: int| 0 <= x < es.len() && #[trigger] es[x] == q[i];
            assert(entry_fault(es[x], prev_entry(es, x), m.next_segment_id) is None);
            if i > 0 {
                assert(next.segments[i - 1] == q[i - 1]);
                assert(q[i - 1].end() <= q[i].base_doc);
            }
        } else {
            let k = i - q.len();
            let p = ps[k];
            let e = entries[k];
            assert(next.segments[i] == e);
            assert(finished(
                v,
                ps[k],
                (m.next_segment_id + k) as u32,
                merge_base(v, ps, k) as u32,
                entries[k],
                parts[k],
            ));
            lemma_count_set_bound(carry_bits(v, p));
            lemma_bases_grow(v, ps, k + 1, ps.len() as int);
            lemma_bases_grow(v, ps, 0, k);
            assert(e.base_doc == merge_base(v, ps, k));
            assert(e.num_docs == p.num_docs);
            if k > 0 {
                assert(next.segments[i - 1] == entries[k - 1]);
                assert(finished(
                    v,
                    ps[k - 1],
                    (m.next_segment_id + (k - 1)) as u32,
                    merge_base(v, ps, k - 1) as u32,
                    entries[k - 1],
                    parts[k - 1],
                ));
                lemma_bases_grow(v, ps, 0, k - 1);
            } else if q.len() > 0 {
                let l = q[q.len() - 1];
                assert(next.segments[i - 1] == l);
                let x = choose|x: int| 0 <= x < es.len() && #[trigger] es[x] == l;
                super::reader::lemma_ends_ascend(m, x, es.len() - 1);
                manifest::lemma_entry(m, x);
                assert(es.last() == es[es.len() - 1]);
            }
        }
    }
}

/// A merge never brings a deleted document back: whatever was kept when the
/// merge was prepared and is deleted from its source by the time of the commit
/// is deleted from the merged segment.
pub proof fn lemma_never_resurrects(
    was: IndexView,
    ids: Seq<u32>,
    now: IndexView,
    p: PreparedMerge,
    j: int,
    l: int,
    d: u32,
)
    requires
        valid(was.manifest),
        was.segments.len() == was.manifest.segments.len(),
        sources_of(p.sources@, was, ids, p.sources@.len() as int),
        0 <= j < p.sources@.len(),
        0 <= l < p.sources@[j].new_ids@.len(),
        p.sources@[j].new_ids@[l] == Some(d),
        d < p.num_docs,
        seg_index(was.manifest.segments, ids[j], 0) < was.segments.len(),
        // A generation of deletions, once written, does not change.
        !stale(now, p.sources@[j]) ==> now.segments[source_at(now, p.sources@[j])].del
            == was.segments[seg_index(was.manifest.segments, ids[j], 0)].del,
        gone(now.segments[source_at(now, p.sources@[j])], l),
    ensures
        carry_bits(now, p)[d as int],
{
    let s = p.sources@[j];
    let i = seg_index(was.manifest.segments, ids[j], 0);
    assert(s.new_ids@ == new_ids(was, i, merged_docs(was, ids, j).len() as int));
    assert(doc_of(was, global_id(was, i, l)) is Some);
    if !stale(now, s) {
        lemma_seg_index(was.manifest.segments, ids[j], 0);
        manifest::lemma_entry(was.manifest, i);
        lemma_place(was.manifest, global_id(was, i, l), i, l as u32);
        assert(false);
    }
    assert(lost(now, s, d, s.new_ids@.len() as int));
    assert(stale(now, p.sources@[j]));
}

proof fn lemma_seg_index(es: Seq<SegmentEntry>, id: u32, i: int)
    requires
        0 <= i,
    ensures
        i <= seg_index(es, id, i),
    decreases es.len() - i,
{
    if i < es.len() && es[i].segment_id != id {
        lemma_seg_index(es, id, i + 1);
    }
}

} // verus!
