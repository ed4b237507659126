//! Which segments to merge.
//!
//! The policy looks at sizes and deletions alone. A segment with many deleted
//! documents is rewritten by itself; the others are merged within tiers of
//! about the same size.

use vstd::prelude::*;

use crate::format::manifest::SegmentEntry;
use crate::sort::{
    is_order, lemma_order_exists, lemma_order_is_permutation, lemma_order_is_unique, order, picked,
};

verus! {

/// When segments are merged.
#[derive(Debug, Clone, Copy, PartialEq, Eq, Structural)]
pub struct MergePolicy {
    /// A tier is merged once it has this many segments. Default 4.
    pub tier_size: usize,
    /// No group has more segments than this. Default 10.
    pub max_merge: usize,
    /// Segments at or above this size, all files together, are never merged: the
    /// cost outgrows the benefit to queries. Default 512 MiB.
    pub max_segment_bytes: u64,
    /// A segment of which more than this many in a million documents are
    /// deleted is rewritten by itself, whatever its tier. Default 300 000.
    pub del_ppm_threshold: u32,
}

impl Default for MergePolicy {
    fn default() -> (p: Self)
        ensures
            p.tier_size == 4,
            p.max_merge == 10,
            p.max_segment_bytes == 512 * 1024 * 1024,
            p.del_ppm_threshold == 300_000,
    {
        MergePolicy {
            tier_size: 4,
            max_merge: 10,
            max_segment_bytes: 512 * 1024 * 1024,
            del_ppm_threshold: 300_000,
        }
    }
}

/// The segment is rewritten by itself.
pub open spec fn rewrite_due(s: SegmentEntry, p: MergePolicy) -> bool {
    &&& s.num_docs > 0
    &&& s.num_deleted * 1_000_000 > p.del_ppm_threshold * s.num_docs
    &&& s.bytes_total() < p.max_segment_bytes
}

/// The largest tier from `t` on whose size, `unit` at `t` and doubling from tier
/// to tier, does not exceed `x`; `t` at least.
pub open spec fn tier_above(x: int, unit: int, t: int) -> int
    decreases x - unit,
{
    if unit > 0 && 2 * unit <= x {
        tier_above(x, 2 * unit, t + 1)
    } else {
        t
    }
}

/// The tier of a segment: the binary logarithm, rounded down, of the bytes that
/// its live documents take, which count as one MiB at least.
pub open spec fn tier_of(s: SegmentEntry) -> int {
    tier_above(s.bytes_total() * (s.num_docs - s.num_deleted), 0x10_0000 * s.num_docs, 20)
}

/// Two to the `n`.
pub open spec fn two_to(n: int) -> int
    decreases n,
{
    if n <= 0 {
        1
    } else {
        2 * two_to(n - 1)
    }
}

proof fn lemma_tier_above(x: int, docs: int, unit: int, t: int)
    requires
        docs > 0,
        unit == two_to(t) * docs,
        t >= 0,
    ensures
        tier_above(x, unit, t) >= t,
        x >= unit ==> two_to(tier_above(x, unit, t)) * docs <= x,
        x < two_to(tier_above(x, unit, t) + 1) * docs,
    decreases x - unit,
{
    assert(two_to(t) > 0) by {
        lemma_two_to(t);
    }
    assert(unit > 0) by (nonlinear_arith)
        requires
            unit == two_to(t) * docs,
            two_to(t) > 0,
            docs > 0,
    ;
    assert(two_to(t + 1) * docs == 2 * unit) by (nonlinear_arith)
        requires
            unit == two_to(t) * docs,
            two_to(t + 1) == 2 * two_to(t),
    ;
    if 2 * unit <= x {
        lemma_tier_above(x, docs, 2 * unit, t + 1);
    }
}

proof fn lemma_two_to(n: int)
    ensures
        two_to(n) > 0,
    decreases n,
{
    if n > 0 {
        lemma_two_to(n - 1);
    }
}

/// The tier of a segment with documents is the rounded-down binary logarithm of
/// its live bytes, which are its bytes times the fraction of documents that are
/// live, or the least tier.
pub proof fn lemma_tier(s: SegmentEntry)
    requires
        0 < s.num_docs,
        s.num_deleted <= s.num_docs,
    ensures
        ({
            let live = s.bytes_total() * (s.num_docs - s.num_deleted);
            &&& tier_of(s) >= 20
            &&& live < two_to(tier_of(s) + 1) * s.num_docs
            &&& tier_of(s) > 20 ==> two_to(tier_of(s)) * s.num_docs <= live
        }),
{
    reveal_with_fuel(two_to, 21);
    let x = s.bytes_total() * (s.num_docs - s.num_deleted);
    lemma_tier_above(x, s.num_docs as int, 0x10_0000 * s.num_docs, 20);
}

/// A segment with this id is rewritten by itself.
pub open spec fn is_rewritten(segs: Seq<SegmentEntry>, p: MergePolicy, id: u32) -> bool {
    exists|i: int|
        0 <= i < segs.len() && (#[trigger] segs[i]).segment_id == id && rewrite_due(segs[i], p)
}

/// The groups of one: segments among the first `n` that are rewritten.
pub open spec fn rewrites(segs: Seq<SegmentEntry>, p: MergePolicy, n: int) -> Seq<Seq<u32>>
    decreases n,
{
    if n <= 0 {
        Seq::empty()
    } else if rewrite_due(segs[n - 1], p) {
        rewrites(segs, p, n - 1).push(seq![segs[n - 1].segment_id])
    } else {
        rewrites(segs, p, n - 1)
    }
}

/// The segment takes part in merges within tiers.
pub open spec fn mergeable(segs: Seq<SegmentEntry>, p: MergePolicy, i: int) -> bool {
    !is_rewritten(segs, p, segs[i].segment_id) && segs[i].bytes_total() < p.max_segment_bytes
}

/// The ids of tier `t` among the first `n` segments.
pub open spec fn tier_ids(segs: Seq<SegmentEntry>, p: MergePolicy, t: int, n: int) -> Seq<u32>
    decreases n,
{
    if n <= 0 {
        Seq::empty()
    } else if mergeable(segs, p, n - 1) && tier_of(segs[n - 1]) == t {
        tier_ids(segs, p, t, n - 1).push(segs[n - 1].segment_id)
    } else {
        tier_ids(segs, p, t, n - 1)
    }
}

/// The ids in ascending order.
pub open spec fn sorted_ids(ids: Seq<u32>) -> Seq<u32> {
    picked(ids, choose|places: Seq<usize>| is_order(ids, places))
}

/// The ids from `at` on in groups of `size`, a last one of one left out.
pub open spec fn chunked(ids: Seq<u32>, size: int, at: int) -> Seq<Seq<u32>>
    decreases ids.len() - at,
{
    if size <= 0 || at >= ids.len() {
        Seq::empty()
    } else {
        let end = if at + size < ids.len() {
            at + size
        } else {
            ids.len() as int
        };
        if end - at >= 2 {
            seq![ids.subrange(at, end)] + chunked(ids, size, end)
        } else {
            chunked(ids, size, end)
        }
    }
}

/// How many segments a group may have.
pub open spec fn group_limit(p: MergePolicy) -> int {
    if p.max_merge < 2 {
        2
    } else {
        p.max_merge as int
    }
}

/// The groups of tier `t`.
pub open spec fn tier_groups(segs: Seq<SegmentEntry>, p: MergePolicy, t: int) -> Seq<Seq<u32>> {
    let ids = tier_ids(segs, p, t, segs.len() as int);
    if ids.len() < p.tier_size {
        Seq::empty()
    } else {
        chunked(sorted_ids(ids), group_limit(p), 0)
    }
}

/// The groups of the tiers below `t`.
pub open spec fn groups_below(segs: Seq<SegmentEntry>, p: MergePolicy, t: int) -> Seq<Seq<u32>>
    decreases t,
{
    if t <= 20 {
        Seq::empty()
    } else {
        groups_below(segs, p, t - 1) + tier_groups(segs, p, t - 1)
    }
}

/// The highest tier among the first `n` segments.
pub open spec fn top_tier(segs: Seq<SegmentEntry>, n: int) -> int
    decreases n,
{
    if n <= 0 {
        20
    } else if tier_of(segs[n - 1]) > top_tier(segs, n - 1) {
        tier_of(segs[n - 1])
    } else {
        top_tier(segs, n - 1)
    }
}

/// What to merge: the rewrites in the order of the segments, then the groups of
/// the tiers, from the lowest up.
pub open spec fn planned_groups(segs: Seq<SegmentEntry>, p: MergePolicy) -> Seq<Seq<u32>> {
    rewrites(segs, p, segs.len() as int) + groups_below(
        segs,
        p,
        top_tier(segs, segs.len() as int) + 1,
    )
}

/// Groups by value.
pub open spec fn group_views(gs: Seq<Vec<u32>>) -> Seq<Seq<u32>> {
    Seq::new(gs.len(), |i: int| gs[i]@)
}

fn is_rewrite_due(s: &SegmentEntry, p: &MergePolicy) -> (r: bool)
    ensures
        r == rewrite_due(*s, *p),
{
    let bytes: u128 = s.idx_len as u128 + s.doc_len as u128 + s.del_len as u128;
    assert(p.del_ppm_threshold * s.num_docs <= 0xffff_ffff * 0xffff_ffff)
        by (nonlinear_arith)
        requires
            p.del_ppm_threshold <= 0xffff_ffff,
            s.num_docs <= 0xffff_ffff,
    ;
    s.num_docs > 0 && s.num_deleted as u64 * 1_000_000 > p.del_ppm_threshold as u64
        * s.num_docs as u64 && bytes < p.max_segment_bytes as u128
}

/// The tier of a segment.
pub fn segment_tier(s: &SegmentEntry) -> (t: u32)
    requires
        s.num_deleted <= s.num_docs,
    ensures
        t == tier_of(*s),
        20 <= t < 100,
{
    let bytes: u128 = s.idx_len as u128 + s.doc_len as u128 + s.del_len as u128;
    let live: u128 = (s.num_docs - s.num_deleted) as u128;
    assert(bytes * live <= 3 * 0xffff_ffff_ffff_ffff * 0xffff_ffff) by (nonlinear_arith)
        requires
            bytes <= 3 * 0xffff_ffff_ffff_ffff,
            live <= 0xffff_ffff,
    ;
    let x: u128 = bytes * live;
    let mut unit: u128 = 0x10_0000 * s.num_docs as u128;
    let mut t: u32 = 20;
    let ghost first = unit as int;
    assert(two_to(0) == 1);
    while unit > 0 && 2 * unit <= x
        invariant
            tier_of(*s) == tier_above(x as int, unit as int, t as int),
            x <= 3 * 0xffff_ffff_ffff_ffff * 0xffff_ffff,
            unit <= x || unit == first,
            first <= 0x10_0000 * 0xffff_ffff,
            20 <= t,
            unit > 0 ==> unit >= two_to(t - 20) * 0x10_0000,
            t > 20 ==> unit <= x,
            t < 100,
        decreases x - unit,
    {
        let ghost was = unit;
        unit = 2 * unit;
        t = t + 1;
        proof {
            assert(two_to(t - 20) == 2 * two_to(t - 20 - 1));
            if t >= 100 {
                lemma_big();
            }
        }
    }
    t
}

proof fn lemma_big()
    ensures
        two_to(80) * 0x10_0000 > 3 * 0xffff_ffff_ffff_ffff * 0xffff_ffff,
{
    reveal_with_fuel(two_to, 41);
    assert(two_to(40) == 0x100_0000_0000);
    assert(two_to(80) == 0x100_0000_0000 * two_to(40));
}

/// Decides what to merge from sizes and deletions alone. A group of one is a
/// rewrite, not a merge.
pub fn plan_merges(segments: &[SegmentEntry], policy: &MergePolicy) -> (groups: Vec<Vec<u32>>)
    requires
        forall|i: int|
            0 <= i < segments@.len() ==> (#[trigger] segments@[i]).num_deleted
                <= segments@[i].num_docs,
    ensures
        group_views(groups@) == planned_groups(segments@, *policy),
{
    let ghost segs = segments@;
    let ghost p = *policy;
    let mut groups: Vec<Vec<u32>> = Vec::new();
    let mut tiers: Vec<u32> = Vec::new();
    let mut used: Vec<bool> = Vec::new();
    let mut top: u32 = 20;
    let mut i: usize = 0;
    assert(group_views(groups@) =~= Seq::empty());
    while i < segments.len()
        invariant
            segs == segments@,
            p == *policy,
            forall|k: int|
                0 <= k < segs.len() ==> (#[trigger] segs[k]).num_deleted <= segs[k].num_docs,
            i <= segs.len(),
            group_views(groups@) == rewrites(segs, p, i as int),
            tiers@.len() == i,
            used@.len() == i,
            forall|k: int| 0 <= k < i ==> (#[trigger] tiers@[k]) == tier_of(segs[k]),
            forall|k: int| 0 <= k < i ==> (#[trigger] used@[k]) == rewrite_due(segs[k], p),
            top == top_tier(segs, i as int),
            20 <= top < 100,
        decreases segs.len() - i,
    {
        let ghost had = group_views(groups@);
        let s: &SegmentEntry = &segments[i];
        let t: u32 = segment_tier(s);
        let due: bool = is_rewrite_due(s, policy);
        if due {
            let mut one: Vec<u32> = Vec::new();
            one.push(s.segment_id);
            assert(one@ =~= seq![s.segment_id]);
            groups.push(one);
            assert(group_views(groups@) =~= had.push(seq![s.segment_id]));
        }
        tiers.push(t);
        used.push(due);
        if t > top {
            top = t;
        }
        i = i + 1;
    }
    let ghost alone = group_views(groups@);
    let mut t: u32 = 20;
    assert(alone + Seq::<Seq<u32>>::empty() =~= alone);
    while t <= top
        invariant
            segs == segments@,
            p == *policy,
            tiers@.len() == segs.len(),
            used@.len() == segs.len(),
            forall|k: int| 0 <= k < segs.len() ==> (#[trigger] tiers@[k]) == tier_of(segs[k]),
            forall|k: int| 0 <= k < segs.len() ==> (#[trigger] used@[k]) == rewrite_due(segs[k], p),
            20 <= t <= top + 1,
            top < 100,
            group_views(groups@) == alone + groups_below(segs, p, t as int),
        decreases top + 1 - t,
    {
        let ghost had = group_views(groups@);
        let mut own = groups_of_tier(segments, policy, &tiers, &used, t);
        let ghost ov = group_views(own@);
        groups.append(&mut own);
        t = t + 1;
        proof {
            assert(group_views(groups@) =~= had + ov);
            assert(had + ov =~= alone + groups_below(segs, p, t as int));
        }
    }
    groups
}

fn groups_of_tier(
    segments: &[SegmentEntry],
    policy: &MergePolicy,
    tiers: &Vec<u32>,
    used: &Vec<bool>,
    t: u32,
) -> (groups: Vec<Vec<u32>>)
    requires
        tiers@.len() == segments@.len(),
        used@.len() == segments@.len(),
        forall|k: int| 0 <= k < segments@.len() ==> (#[trigger] tiers@[k]) == tier_of(segments@[k]),
        forall|k: int|
            0 <= k < segments@.len() ==> (#[trigger] used@[k]) == rewrite_due(
                segments@[k],
                *policy,
            ),
    ensures
        group_views(groups@) == tier_groups(segments@, *policy, t as int),
{
    let ghost segs = segments@;
    let ghost p = *policy;
    let mut ids: Vec<u32> = Vec::new();
    let mut i: usize = 0;
    while i < segments.len()
        invariant
            segs == segments@,
            p == *policy,
            i <= segs.len(),
            tiers@.len() == segs.len(),
            used@.len() == segs.len(),
            forall|k: int| 0 <= k < segs.len() ==> (#[trigger] tiers@[k]) == tier_of(segs[k]),
            forall|k: int| 0 <= k < segs.len() ==> (#[trigger] used@[k]) == rewrite_due(segs[k], p),
            ids@ == tier_ids(segs, p, t as int, i as int),
        decreases segs.len() - i,
    {
        let s: &SegmentEntry = &segments[i];
        let bytes: u128 = s.idx_len as u128 + s.doc_len as u128 + s.del_len as u128;
        if tiers[i] == t && bytes < policy.max_segment_bytes as u128 && !id_is_used(
            segments,
            policy,
            used,
            s.segment_id,
        ) {
            ids.push(s.segment_id);
        }
        i = i + 1;
    }
    let mut groups: Vec<Vec<u32>> = Vec::new();
    assert(group_views(groups@) =~= Seq::empty());
    if ids.len() < policy.tier_size {
        return groups;
    }
    let sorted = sort_ids(&ids);
    let size: usize = if policy.max_merge < 2 {
        2
    } else {
        policy.max_merge
    };
    let ghost all = chunked(sorted@, size as int, 0);
    let mut at: usize = 0;
    assert(Seq::<Seq<u32>>::empty() + all =~= all);
    while at < sorted.len()
        invariant
            size >= 2,
            at <= sorted@.len(),
            all == group_views(groups@) + chunked(sorted@, size as int, at as int),
        decreases sorted@.len() - at,
    {
        let ghost had = group_views(groups@);
        let end: usize = if sorted.len() - at > size {
            at + size
        } else {
            sorted.len()
        };
        if end - at >= 2 {
            let mut group: Vec<u32> = Vec::new();
            let mut k: usize = at;
            while k < end
                invariant
                    at <= k <= end <= sorted@.len(),
                    group@ == sorted@.subrange(at as int, k as int),
                decreases end - k,
            {
                group.push(sorted[k]);
                k = k + 1;
                assert(group@ =~= sorted@.subrange(at as int, k as int));
            }
            let ghost g = group@;
            groups.push(group);
            proof {
                assert(group_views(groups@) =~= had.push(g));
                let rest = chunked(sorted@, size as int, end as int);
                assert(had + (seq![g] + rest) =~= had.push(g) + rest);
            }
        }
        at = end;
    }
    assert(group_views(groups@) + chunked(sorted@, size as int, at as int) =~= group_views(groups@));
    groups
}

fn id_is_used(segments: &[SegmentEntry], policy: &MergePolicy, used: &Vec<bool>, id: u32) -> (r: bool)
    requires
        used@.len() == segments@.len(),
        forall|k: int|
            0 <= k < segments@.len() ==> (#[trigger] used@[k]) == rewrite_due(
                segments@[k],
                *policy,
            ),
    ensures
        r == is_rewritten(segments@, *policy, id),
{
    let mut i: usize = 0;
    while i < segments.len()
        invariant
            i <= segments@.len(),
            used@.len() == segments@.len(),
            forall|k: int|
                0 <= k < segments@.len() ==> (#[trigger] used@[k]) == rewrite_due(
                    segments@[k],
                    *policy,
                ),
            forall|k: int|
                0 <= k < i ==> !((#[trigger] segments@[k]).segment_id == id && rewrite_due(
                    segments@[k],
                    *policy,
                )),
        decreases segments@.len() - i,
    {
        if used[i] && segments[i].segment_id == id {
            assert(segments@[i as int].segment_id == id);
            return true;
        }
        i = i + 1;
    }
    false
}

fn sort_ids(ids: &Vec<u32>) -> (r: Vec<u32>)
    ensures
        r@ == sorted_ids(ids@),
{
    let places = order(ids.as_slice());
    let mut r: Vec<u32> = Vec::new();
    let mut i: usize = 0;
    while i < places.len()
        invariant
            i <= places@.len(),
            forall|k: int| 0 <= k < places@.len() ==> (#[trigger] places@[k]) < ids@.len(),
            r@ == picked(ids@, places@).take(i as int),
        decreases places@.len() - i,
    {
        r.push(ids[places[i]]);
        i = i + 1;
        assert(r@ =~= picked(ids@, places@).take(i as int));
    }
    proof {
        assert(picked(ids@, places@).take(i as int) =~= picked(ids@, places@));
        let chosen = choose|q: Seq<usize>| is_order(ids@, q);
        lemma_order_is_unique(ids@, places@, chosen);
    }
    r
}

/// No two segments have the same id.
pub open spec fn ids_unique(segs: Seq<SegmentEntry>) -> bool {
    forall|i: int, j: int|
        0 <= i < j < segs.len() ==> (#[trigger] segs[i]).segment_id != (#[trigger] segs[j]).segment_id
}

/// The id is that of a segment whose size allows merging.
pub open spec fn small_enough(segs: Seq<SegmentEntry>, p: MergePolicy, id: u32) -> bool {
    exists|i: int|
        0 <= i < segs.len() && (#[trigger] segs[i]).segment_id == id && segs[i].bytes_total()
            < p.max_segment_bytes
}

/// The groups share no id.
pub open spec fn groups_apart(gs: Seq<Seq<u32>>) -> bool {
    forall|a: int, b: int, id: u32|
        #![trigger gs[a].contains(id), gs[b].contains(id)]
        0 <= a < b < gs.len() && gs[a].contains(id) ==> !gs[b].contains(id)
}

/// The id is in one of the groups.
pub open spec fn in_groups(gs: Seq<Seq<u32>>, id: u32) -> bool {
    exists|a: int| 0 <= a < gs.len() && (#[trigger] gs[a]).contains(id)
}

proof fn lemma_rewrites(segs: Seq<SegmentEntry>, p: MergePolicy, n: int)
    requires
        ids_unique(segs),
        0 <= n <= segs.len(),
    ensures
        groups_apart(rewrites(segs, p, n)),
        forall|a: int|
            #![trigger rewrites(segs, p, n)[a]]
            0 <= a < rewrites(segs, p, n).len() ==> rewrites(segs, p, n)[a].len() == 1 && {
                let id = rewrites(segs, p, n)[a][0];
                small_enough(segs, p, id) && is_rewritten(segs, p, id) && exists|i: int|
                    0 <= i < n && (#[trigger] segs[i]).segment_id == id
            },
    decreases n,
{
    if n > 0 {
        lemma_rewrites(segs, p, n - 1);
        let r = rewrites(segs, p, n);
        let q = rewrites(segs, p, n - 1);
        let s = segs[n - 1];
        assert forall|a: int| #![trigger r[a]] 0 <= a < r.len() implies r[a].len() == 1 && {
            let id = r[a][0];
            small_enough(segs, p, id) && is_rewritten(segs, p, id) && exists|i: int|
                0 <= i < n && (#[trigger] segs[i]).segment_id == id
        } by {
            if a < q.len() {
                assert(r[a] == q[a]);
            } else {
                assert(segs[n - 1].segment_id == r[a][0]);
            }
        }
        if rewrite_due(s, p) {
            assert forall|a: int, b: int, id: u32|
                #![trigger r[a].contains(id), r[b].contains(id)]
                0 <= a < b < r.len() && r[a].contains(id) implies !r[b].contains(id) by {
                assert(r[a] == q[a]);
                if b < q.len() {
                    assert(r[b] == q[b]);
                } else {
                    let i = choose|i: int| 0 <= i < n - 1 && (#[trigger] segs[i]).segment_id == q[a][0];
                    assert(segs[i].segment_id != segs[n - 1].segment_id);
                }
            }
        }
    }
}

proof fn lemma_tier_ids(segs: Seq<SegmentEntry>, p: MergePolicy, t: int, n: int)
    requires
        ids_unique(segs),
        0 <= n <= segs.len(),
    ensures
        tier_ids(segs, p, t, n).no_duplicates(),
        forall|a: int|
            #![trigger tier_ids(segs, p, t, n)[a]]
            0 <= a < tier_ids(segs, p, t, n).len() ==> exists|i: int|
                0 <= i < n && (#[trigger] segs[i]).segment_id == tier_ids(segs, p, t, n)[a]
                    && mergeable(segs, p, i) && tier_of(segs[i]) == t,
    decreases n,
{
    if n > 0 {
        lemma_tier_ids(segs, p, t, n - 1);
        let r = tier_ids(segs, p, t, n);
        let q = tier_ids(segs, p, t, n - 1);
        assert forall|a: int| #![trigger r[a]] 0 <= a < r.len() implies exists|i: int|
            0 <= i < n && (#[trigger] segs[i]).segment_id == r[a] && mergeable(segs, p, i)
                && tier_of(segs[i]) == t by {
            if a < q.len() {
                assert(r[a] == q[a]);
            } else {
                assert(segs[n - 1].segment_id == r[a]);
            }
        }
        assert forall|a: int, b: int| 0 <= a < b < r.len() implies r[a] != r[b] by {
            assert(r[a] == q[a]);
            if b < q.len() {
                assert(r[b] == q[b]);
            } else {
                let i = choose|i: int| 0 <= i < n - 1 && (#[trigger] segs[i]).segment_id == q[a]
                    && mergeable(segs, p, i) && tier_of(segs[i]) == t;
                assert(segs[i].segment_id != segs[n - 1].segment_id);
            }
        }
    }
}

proof fn lemma_sorted(ids: Seq<u32>)
    requires
        ids.no_duplicates(),
        ids.len() <= usize::MAX,
    ensures
        sorted_ids(ids).no_duplicates(),
        forall|a: int|
            #![trigger sorted_ids(ids)[a]]
            0 <= a < sorted_ids(ids).len() ==> ids.contains(sorted_ids(ids)[a]),
{
    let w = lemma_order_exists(ids);
    let places = choose|q: Seq<usize>| is_order(ids, q);
    lemma_order_is_permutation(ids, places);
    let s = sorted_ids(ids);
    assert forall|a: int| #![trigger s[a]] 0 <= a < s.len() implies ids.contains(s[a]) by {
        assert(s[a] == ids[places[a] as int]);
    }
    assert forall|a: int, b: int| 0 <= a < b < s.len() implies s[a] != s[b] by {
        assert(places[a] != places[b]);
        assert(s[a] == ids[places[a] as int]);
        assert(s[b] == ids[places[b] as int]);
    }
}

proof fn lemma_chunked(ids: Seq<u32>, size: int, at: int)
    requires
        ids.no_duplicates(),
        size >= 2,
        0 <= at,
    ensures
        groups_apart(chunked(ids, size, at)),
        forall|a: int|
            #![trigger chunked(ids, size, at)[a]]
            0 <= a < chunked(ids, size, at).len() ==> 2 <= chunked(ids, size, at)[a].len() <= size
                && forall|id: u32|
                chunked(ids, size, at)[a].contains(id) ==> exists|k: int|
                    at <= k < ids.len() && #[trigger] ids[k] == id,
    decreases ids.len() - at,
{
    if at < ids.len() {
        let end = if at + size < ids.len() {
            at + size
        } else {
            ids.len() as int
        };
        lemma_chunked(ids, size, end);
        let r = chunked(ids, size, at);
        let rest = chunked(ids, size, end);
        let g = ids.subrange(at, end);
        if end - at >= 2 {
            assert forall|a: int| #![trigger r[a]] 0 <= a < r.len() implies 2 <= r[a].len() <= size
                && forall|id: u32|
                r[a].contains(id) ==> exists|k: int| at <= k < ids.len() && #[trigger] ids[k]
                    == id by {
                assert forall|id: u32| r[a].contains(id) implies exists|k: int|
                    at <= k < ids.len() && #[trigger] ids[k] == id by {
                    if a == 0 {
                        let x = choose|x: int| 0 <= x < g.len() && g[x] == id;
                        assert(ids[at + x] == id);
                    } else {
                        assert(r[a] == rest[a - 1]);
                        assert(rest[a - 1].contains(id));
                        let k = choose|k: int| end <= k < ids.len() && #[trigger] ids[k] == id;
                        assert(ids[k] == id);
                    }
                }
                if a > 0 {
                    assert(r[a] == rest[a - 1]);
                }
            }
            assert forall|a: int, b: int, id: u32|
                #![trigger r[a].contains(id), r[b].contains(id)]
                0 <= a < b < r.len() && r[a].contains(id) implies !r[b].contains(id) by {
                assert(r[b] == rest[b - 1]);
                if a == 0 {
                    let x = choose|x: int| 0 <= x < g.len() && g[x] == id;
                    if r[b].contains(id) {
                        assert(rest[b - 1].contains(id));
                        let k = choose|k: int| end <= k < ids.len() && #[trigger] ids[k] == id;
                        assert(ids[at + x] == ids[k]);
                    }
                } else {
                    assert(r[a] == rest[a - 1]);
                }
            }
        } else {
            assert forall|a: int| #![trigger r[a]] 0 <= a < r.len() implies 2 <= r[a].len() <= size
                && forall|id: u32|
                r[a].contains(id) ==> exists|k: int| at <= k < ids.len() && #[trigger] ids[k]
                    == id by {
                assert(r[a] == rest[a]);
                assert forall|id: u32| r[a].contains(id) implies exists|k: int|
                    at <= k < ids.len() && #[trigger] ids[k] == id by {
                    let k = choose|k: int| end <= k < ids.len() && #[trigger] ids[k] == id;
                    assert(ids[k] == id);
                }
            }
        }
    }
}

/// Where an id of a tier's groups comes from.
spec fn of_tier(segs: Seq<SegmentEntry>, p: MergePolicy, t: int, id: u32) -> bool {
    exists|i: int|
        0 <= i < segs.len() && (#[trigger] segs[i]).segment_id == id && mergeable(segs, p, i)
            && tier_of(segs[i]) == t
}

proof fn lemma_tier_groups(segs: Seq<SegmentEntry>, p: MergePolicy, t: int)
    requires
        ids_unique(segs),
        segs.len() <= usize::MAX,
    ensures
        groups_apart(tier_groups(segs, p, t)),
        forall|a: int|
            #![trigger tier_groups(segs, p, t)[a]]
            0 <= a < tier_groups(segs, p, t).len() ==> 2 <= tier_groups(segs, p, t)[a].len()
                <= group_limit(p),
        forall|id: u32| #[trigger] in_groups(tier_groups(segs, p, t), id) ==> of_tier(segs, p, t, id),
{
    let n = segs.len() as int;
    let ids = tier_ids(segs, p, t, n);
    lemma_tier_ids(segs, p, t, n);
    lemma_tier_ids_len(segs, p, t, n);
    lemma_sorted(ids);
    let s = sorted_ids(ids);
    lemma_chunked(s, group_limit(p), 0);
    let r = tier_groups(segs, p, t);
    assert forall|id: u32| #[trigger] in_groups(r, id) implies of_tier(segs, p, t, id) by {
        let a = choose|a: int| 0 <= a < r.len() && (#[trigger] r[a]).contains(id);
        let c = chunked(s, group_limit(p), 0);
        assert(c[a].contains(id));
        let k = choose|k: int| 0 <= k < s.len() && #[trigger] s[k] == id;
        assert(ids.contains(s[k]));
        let x = choose|x: int| 0 <= x < ids.len() && ids[x] == id;
        assert(ids[x] == id);
    }
}

proof fn lemma_tier_ids_len(segs: Seq<SegmentEntry>, p: MergePolicy, t: int, n: int)
    requires
        0 <= n,
    ensures
        tier_ids(segs, p, t, n).len() <= n,
    decreases n,
{
    if n > 0 {
        lemma_tier_ids_len(segs, p, t, n - 1);
    }
}

/// Two lists of groups that share no id stay apart when joined.
proof fn lemma_join_apart(a: Seq<Seq<u32>>, b: Seq<Seq<u32>>)
    requires
        groups_apart(a),
        groups_apart(b),
        forall|id: u32| #[trigger] in_groups(a, id) ==> !in_groups(b, id),
    ensures
        groups_apart(a + b),
        forall|id: u32| #[trigger] in_groups(a + b, id) <==> in_groups(a, id) || in_groups(b, id),
{
    let r = a + b;
    assert forall|i: int, j: int, id: u32|
        #![trigger r[i].contains(id), r[j].contains(id)]
        0 <= i < j < r.len() && r[i].contains(id) implies !r[j].contains(id) by {
        if j < a.len() {
            assert(r[i] == a[i] && r[j] == a[j]);
        } else if i >= a.len() {
            assert(r[i] == b[i - a.len()] && r[j] == b[j - a.len()]);
        } else {
            assert(r[i] == a[i] && r[j] == b[j - a.len()]);
            assert(in_groups(a, id));
            if r[j].contains(id) {
                assert(in_groups(b, id));
            }
        }
    }
    assert forall|id: u32| #[trigger] in_groups(r, id) <==> in_groups(a, id) || in_groups(b, id) by {
        if in_groups(r, id) {
            let i = choose|i: int| 0 <= i < r.len() && (#[trigger] r[i]).contains(id);
            if i < a.len() {
                assert(a[i].contains(id));
            } else {
                assert(b[i - a.len()].contains(id));
            }
        }
        if in_groups(a, id) {
            let i = choose|i: int| 0 <= i < a.len() && (#[trigger] a[i]).contains(id);
            assert(r[i].contains(id));
        }
        if in_groups(b, id) {
            let i = choose|i: int| 0 <= i < b.len() && (#[trigger] b[i]).contains(id);
            assert(r[i + a.len()].contains(id));
        }
    }
}

proof fn lemma_groups_below(segs: Seq<SegmentEntry>, p: MergePolicy, t: int)
    requires
        ids_unique(segs),
        segs.len() <= usize::MAX,
    ensures
        groups_apart(groups_below(segs, p, t)),
        forall|a: int|
            #![trigger groups_below(segs, p, t)[a]]
            0 <= a < groups_below(segs, p, t).len() ==> 2 <= groups_below(segs, p, t)[a].len()
                <= group_limit(p),
        forall|id: u32| #[trigger]
            in_groups(groups_below(segs, p, t), id) ==> exists|u: int|
                u < t && #[trigger] of_tier(segs, p, u, id),
    decreases t,
{
    if t > 20 {
        lemma_groups_below(segs, p, t - 1);
        lemma_tier_groups(segs, p, t - 1);
        let a = groups_below(segs, p, t - 1);
        let b = tier_groups(segs, p, t - 1);
        assert forall|id: u32| #[trigger] in_groups(a, id) implies !in_groups(b, id) by {
            let u = choose|u: int| u < t - 1 && #[trigger] of_tier(segs, p, u, id);
            if in_groups(b, id) {
                let i = choose|i: int|
                    0 <= i < segs.len() && (#[trigger] segs[i]).segment_id == id && mergeable(
                        segs,
                        p,
                        i,
                    ) && tier_of(segs[i]) == u;
                let j = choose|j: int|
                    0 <= j < segs.len() && (#[trigger] segs[j]).segment_id == id && mergeable(
                        segs,
                        p,
                        j,
                    ) && tier_of(segs[j]) == t - 1;
                assert(of_tier(segs, p, t - 1, id));
                if i < j {
                    assert(segs[i].segment_id != segs[j].segment_id);
                } else if j < i {
                    assert(segs[j].segment_id != segs[i].segment_id);
                }
            }
        }
        lemma_join_apart(a, b);
        let r = groups_below(segs, p, t);
        assert forall|k: int| #![trigger r[k]] 0 <= k < r.len() implies 2 <= r[k].len()
            <= group_limit(p) by {
            if k < a.len() {
                assert(r[k] == a[k]);
            } else {
                assert(r[k] == b[k - a.len()]);
            }
        }
        assert forall|id: u32| #[trigger] in_groups(r, id) implies exists|u: int|
            u < t && #[trigger] of_tier(segs, p, u, id) by {
            if in_groups(a, id) {
                let u = choose|u: int| u < t - 1 && #[trigger] of_tier(segs, p, u, id);
                assert(of_tier(segs, p, u, id));
            } else {
                assert(of_tier(segs, p, t - 1, id));
            }
        }
    } else {
        let r = groups_below(segs, p, t);
        assert forall|id: u32| !#[trigger] in_groups(r, id) by {
        }
    }
}

/// No segment is in two groups of a plan. A group of one is a segment that is
/// rewritten for its deletions; every other has at most as many segments as the
/// policy allows; and no segment at or above the size limit is in any.
pub proof fn lemma_plan(segs: Seq<SegmentEntry>, p: MergePolicy)
    requires
        ids_unique(segs),
        segs.len() <= usize::MAX,
    ensures
        groups_apart(planned_groups(segs, p)),
        forall|a: int|
            #![trigger planned_groups(segs, p)[a]]
            0 <= a < planned_groups(segs, p).len() ==> {
                let g = planned_groups(segs, p)[a];
                &&& 1 <= g.len() <= group_limit(p)
                &&& g.len() == 1 ==> is_rewritten(segs, p, g[0])
            },
        forall|id: u32| #[trigger]
            in_groups(planned_groups(segs, p), id) ==> small_enough(segs, p, id),
{
    let n = segs.len() as int;
    let t = top_tier(segs, n) + 1;
    let a = rewrites(segs, p, n);
    let b = groups_below(segs, p, t);
    lemma_rewrites(segs, p, n);
    lemma_groups_below(segs, p, t);
    assert forall|id: u32| #[trigger] in_groups(a, id) implies is_rewritten(segs, p, id)
        && small_enough(segs, p, id) by {
        let k = choose|k: int| 0 <= k < a.len() && (#[trigger] a[k]).contains(id);
        assert(a[k][0] == id);
    }
    assert forall|id: u32| #[trigger] in_groups(b, id) implies !is_rewritten(segs, p, id)
        && small_enough(segs, p, id) by {
        let u = choose|u: int| u < t && #[trigger] of_tier(segs, p, u, id);
        let i = choose|i: int|
            0 <= i < segs.len() && (#[trigger] segs[i]).segment_id == id && mergeable(segs, p, i)
                && tier_of(segs[i]) == u;
        assert(segs[i].segment_id == id);
    }
    lemma_join_apart(a, b);
    let r = planned_groups(segs, p);
    assert forall|k: int| #![trigger r[k]] 0 <= k < r.len() implies {
        &&& 1 <= r[k].len() <= group_limit(p)
        &&& r[k].len() == 1 ==> is_rewritten(segs, p, r[k][0])
    } by {
        if k < a.len() {
            assert(r[k] == a[k]);
        } else {
            assert(r[k] == b[k - a.len()]);
        }
    }
}

} // verus!
