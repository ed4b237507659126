//! Which segments a merge plan takes, and which it leaves.

use vstd::prelude::*;

use super::merge_plan::{
    chunked, groups_below, ids_unique, in_groups, is_rewritten, lemma_tier, mergeable,
    planned_groups, rewrite_due, rewrites, sorted_ids, tier_groups, tier_ids, tier_of, top_tier,
    two_to, MergePolicy,
};
use crate::format::manifest::SegmentEntry;
use crate::sort::{
    comes_before, is_order, lemma_order_exists, lemma_order_is_permutation,
};

verus! {

/// The bytes of all files of a segment.
pub open spec fn all_bytes(s: SegmentEntry) -> int {
    s.idx_len + s.doc_len + s.del_len
}

/// More of its documents are deleted than the policy bears, and it is not too large.
pub open spec fn worn(s: SegmentEntry, p: MergePolicy) -> bool {
    &&& 0 < s.num_docs
    &&& p.del_ppm_threshold * s.num_docs < s.num_deleted * 1_000_000
    &&& all_bytes(s) < p.max_segment_bytes
}

/// It may be merged with others.
pub open spec fn free(s: SegmentEntry, p: MergePolicy) -> bool {
    !worn(s, p) && all_bytes(s) < p.max_segment_bytes
}

/// The bytes that its live documents take, one MiB at least, are `2^t` or more and less than
/// twice as many. A segment without documents counts as the least.
pub open spec fn in_tier(s: SegmentEntry, t: int) -> bool {
    let live = all_bytes(s) * (s.num_docs - s.num_deleted);
    if s.num_docs == 0 {
        t == 20
    } else {
        &&& t >= 20
        &&& live < two_to(t + 1) * s.num_docs
        &&& t == 20 || two_to(t) * s.num_docs <= live
    }
}

/// The ids of the free segments of a tier.
pub open spec fn members(segs: Seq<SegmentEntry>, p: MergePolicy, t: int) -> Set<u32> {
    Set::new(|id: u32| is_member(segs, p, t, id))
}

pub open spec fn is_member(segs: Seq<SegmentEntry>, p: MergePolicy, t: int, id: u32) -> bool {
    exists|i: int|
        0 <= i < segs.len() && (#[trigger] segs[i]).segment_id == id && free(segs[i], p) && in_tier(
            segs[i],
            t,
        )
}

/// A worn segment has the id.
pub open spec fn is_worn(segs: Seq<SegmentEntry>, p: MergePolicy, id: u32) -> bool {
    exists|i: int| 0 <= i < segs.len() && (#[trigger] segs[i]).segment_id == id && worn(segs[i], p)
}

/// No more documents of a segment are deleted than it has.
pub open spec fn counts_hold(segs: Seq<SegmentEntry>) -> bool {
    forall|i: int|
        0 <= i < segs.len() ==> (#[trigger] segs[i]).num_deleted <= segs[i].num_docs
}

proof fn lemma_two_to_grows(a: int, b: int)
    requires
        0 <= a <= b,
    ensures
        0 < two_to(a) <= two_to(b),
    decreases b,
{
    if a < b {
        lemma_two_to_grows(a, b - 1);
    } else if a > 0 {
        lemma_two_to_grows(a - 1, b - 1);
    }
}

/// A segment is in one tier.
proof fn lemma_one_tier(s: SegmentEntry, t: int)
    requires
        s.num_deleted <= s.num_docs,
    ensures
        in_tier(s, t) <==> tier_of(s) == t,
{
    let docs = s.num_docs as int;
    let live = all_bytes(s) * (s.num_docs - s.num_deleted);
    assert(s.bytes_total() == all_bytes(s));
    if docs > 0 {
        lemma_tier(s);
        let u = tier_of(s);
        if in_tier(s, t) && t != u {
            if t < u {
                lemma_two_to_grows(t + 1, u);
                assert(two_to(t + 1) * docs <= two_to(u) * docs) by (nonlinear_arith)
                    requires
                        two_to(t + 1) <= two_to(u),
                        docs > 0,
                ;
            } else {
                lemma_two_to_grows(u + 1, t);
                assert(two_to(u + 1) * docs <= two_to(t) * docs) by (nonlinear_arith)
                    requires
                        two_to(u + 1) <= two_to(t),
                        docs > 0,
                ;
            }
        }
    } else {
        assert(s.num_docs == 0);
        assert(0x10_0000 * s.num_docs == 0);
    }
}

proof fn lemma_due(s: SegmentEntry, p: MergePolicy)
    ensures
        rewrite_due(s, p) <==> worn(s, p),
        s.bytes_total() == all_bytes(s),
{
}

proof fn lemma_mergeable(segs: Seq<SegmentEntry>, p: MergePolicy, i: int)
    requires
        ids_unique(segs),
        0 <= i < segs.len(),
    ensures
        mergeable(segs, p, i) <==> free(segs[i], p),
{
    let id = segs[i].segment_id;
    lemma_due(segs[i], p);
    if is_rewritten(segs, p, id) {
        let j = choose|j: int|
            0 <= j < segs.len() && (#[trigger] segs[j]).segment_id == id && rewrite_due(segs[j], p);
        lemma_due(segs[j], p);
        if j < i {
            assert(segs[j].segment_id != segs[i].segment_id);
        } else if i < j {
            assert(segs[i].segment_id != segs[j].segment_id);
        }
    } else if worn(segs[i], p) {
        assert(segs[i].segment_id == id && rewrite_due(segs[i], p));
    }
}

proof fn lemma_tier_members(segs: Seq<SegmentEntry>, p: MergePolicy, t: int, n: int)
    requires
        ids_unique(segs),
        counts_hold(segs),
        0 <= n <= segs.len(),
    ensures
        tier_ids(segs, p, t, n).no_duplicates(),
        tier_ids(segs, p, t, n).len() <= n,
        forall|id: u32| #[trigger]
            tier_ids(segs, p, t, n).contains(id) <==> exists|i: int|
                0 <= i < n && (#[trigger] segs[i]).segment_id == id && free(segs[i], p) && in_tier(
                    segs[i],
                    t,
                ),
    decreases n,
{
    let now = tier_ids(segs, p, t, n);
    if n > 0 {
        lemma_tier_members(segs, p, t, n - 1);
        let before = tier_ids(segs, p, t, n - 1);
        let s = segs[n - 1];
        lemma_mergeable(segs, p, n - 1);
        lemma_one_tier(s, t);
        let here = free(s, p) && in_tier(s, t);
        assert forall|id: u32| #[trigger] now.contains(id) <==> exists|i: int|
            0 <= i < n && (#[trigger] segs[i]).segment_id == id && free(segs[i], p) && in_tier(
                segs[i],
                t,
            ) by {
            assert(before.contains(id) <==> exists|i: int|
                0 <= i < n - 1 && (#[trigger] segs[i]).segment_id == id && free(segs[i], p)
                    && in_tier(segs[i], t));
            if now.contains(id) {
                let k = choose|k: int| 0 <= k < now.len() && now[k] == id;
                if k < before.len() {
                    assert(before[k] == id);
                    assert(before.contains(id));
                } else {
                    assert(segs[n - 1].segment_id == id && here);
                }
            }
            if before.contains(id) {
                let k = choose|k: int| 0 <= k < before.len() && before[k] == id;
                assert(now[k] == id);
            }
            if here && s.segment_id == id {
                assert(now[before.len() as int] == id);
            }
        }
        if here {
            assert(!before.contains(s.segment_id)) by {
                if before.contains(s.segment_id) {
                    let i = choose|i: int|
                        0 <= i < n - 1 && (#[trigger] segs[i]).segment_id == s.segment_id && free(
                            segs[i],
                            p,
                        ) && in_tier(segs[i], t);
                    assert(segs[i].segment_id != segs[n - 1].segment_id);
                }
            }
            assert forall|i: int, j: int| 0 <= i < j < now.len() implies now[i] != now[j] by {
                if j == before.len() {
                    assert(before[i] == now[i]);
                    assert(before.contains(before[i]));
                }
            }
        }
    } else {
        assert(now =~= Seq::empty());
    }
}

/// Every id, in ascending order.
proof fn lemma_sorted_ids(ids: Seq<u32>)
    requires
        ids.no_duplicates(),
        ids.len() <= usize::MAX,
    ensures
        sorted_ids(ids).len() == ids.len(),
        forall|i: int, j: int|
            0 <= i < j < ids.len() ==> (#[trigger] sorted_ids(ids)[i]) < (#[trigger] sorted_ids(
                ids,
            )[j]),
        forall|id: u32| #[trigger] sorted_ids(ids).contains(id) <==> ids.contains(id),
{
    let w = lemma_order_exists(ids);
    let places = choose|q: Seq<usize>| is_order(ids, q);
    lemma_order_is_permutation(ids, places);
    let s = sorted_ids(ids);
    assert forall|i: int, j: int| 0 <= i < j < ids.len() implies (#[trigger] s[i]) < (
    #[trigger] s[j]) by {
        assert(comes_before(ids, places[i] as int, places[j] as int));
        assert(places[i] != places[j]);
        assert(ids[places[i] as int] != ids[places[j] as int]);
    }
    assert forall|id: u32| #[trigger] s.contains(id) <==> ids.contains(id) by {
        if s.contains(id) {
            let k = choose|k: int| 0 <= k < s.len() && s[k] == id;
            assert(ids[places[k] as int] == id);
        }
        if ids.contains(id) {
            let k = choose|k: int| 0 <= k < ids.len() && ids[k] == id;
            assert(places.contains(k as usize));
            let j = choose|j: int| 0 <= j < places.len() && places[j] == k as usize;
            assert(s[j] == id);
        }
    }
}

/// The group is a stretch of the ids from `at` on.
spec fn stretch(ids: Seq<u32>, size: int, at: int, g: Seq<u32>) -> bool {
    exists|a: int, b: int|
        at <= a && 2 <= b - a <= size && b <= ids.len() && g == #[trigger] ids.subrange(a, b)
}

proof fn lemma_stretches(ids: Seq<u32>, size: int, at: int)
    requires
        size >= 2,
        0 <= at,
    ensures
        forall|k: int|
            0 <= k < chunked(ids, size, at).len() ==> stretch(
                ids,
                size,
                at,
                #[trigger] chunked(ids, size, at)[k],
            ),
        forall|k: int|
            at <= k < ids.len() - 1 ==> in_groups(chunked(ids, size, at), #[trigger] ids[k]),
        at < ids.len() && (ids.len() - at) % size != 1 ==> in_groups(
            chunked(ids, size, at),
            ids[ids.len() - 1],
        ),
    decreases ids.len() - at,
{
    let r = chunked(ids, size, at);
    if at < ids.len() {
        let end = if at + size < ids.len() {
            at + size
        } else {
            ids.len() as int
        };
        lemma_stretches(ids, size, end);
        let rest = chunked(ids, size, end);
        let off = if end - at >= 2 {
            1int
        } else {
            0
        };
        assert forall|k: int| 0 <= k < rest.len() implies r[k + off] == #[trigger] rest[k] by {}
        assert forall|k: int| 0 <= k < r.len() implies stretch(ids, size, at, #[trigger] r[k]) by {
            if k < off {
                assert(r[k] == ids.subrange(at, end));
            } else {
                assert(r[k] == rest[k - off]);
                assert(stretch(ids, size, end, rest[k - off]));
                let (a, b) = choose|a: int, b: int|
                    end <= a && 2 <= b - a <= size && b <= ids.len() && rest[k - off]
                        == #[trigger] ids.subrange(a, b);
                assert(r[k] == ids.subrange(a, b));
            }
        }
        assert forall|id: u32| #[trigger] in_groups(rest, id) implies in_groups(r, id) by {
            let k = choose|k: int| 0 <= k < rest.len() && (#[trigger] rest[k]).contains(id);
            assert(r[k + off].contains(id));
        }
        assert forall|k: int| at <= k < end && off == 1 implies in_groups(r, #[trigger] ids[k]) by {
            assert(r[0] == ids.subrange(at, end));
            assert(r[0][k - at] == ids[k]);
            assert(r[0].contains(ids[k]));
        }
        let left = ids.len() - at;
        if left % size != 1 {
            if at + size < ids.len() {
                assert((left - size) % size == left % size) by (nonlinear_arith)
                    requires
                        size >= 2,
                        left >= size,
                ;
                assert(ids.len() - end == left - size);
            } else {
                if left == 1 {
                    assert(left % size == 1) by (nonlinear_arith)
                        requires
                            left == 1,
                            size >= 2,
                    ;
                }
                assert(in_groups(r, ids[ids.len() - 1]));
            }
        }
    }
}

/// The group is one of a tier below `t`.
spec fn from_below(segs: Seq<SegmentEntry>, p: MergePolicy, t: int, g: Seq<u32>) -> bool {
    exists|u: int| 20 <= u < t && #[trigger] tier_groups(segs, p, u).contains(g)
}

proof fn lemma_below(segs: Seq<SegmentEntry>, p: MergePolicy, t: int)
    ensures
        forall|k: int|
            0 <= k < groups_below(segs, p, t).len() ==> from_below(
                segs,
                p,
                t,
                #[trigger] groups_below(segs, p, t)[k],
            ),
        forall|u: int, k: int|
            20 <= u < t && 0 <= k < tier_groups(segs, p, u).len() ==> groups_below(
                segs,
                p,
                t,
            ).contains(#[trigger] tier_groups(segs, p, u)[k]),
    decreases t,
{
    let now = groups_below(segs, p, t);
    if t > 20 {
        lemma_below(segs, p, t - 1);
        let before = groups_below(segs, p, t - 1);
        let own = tier_groups(segs, p, t - 1);
        assert forall|k: int| 0 <= k < now.len() implies from_below(
            segs,
            p,
            t,
            #[trigger] now[k],
        ) by {
            if k < before.len() {
                assert(now[k] == before[k]);
                assert(from_below(segs, p, t - 1, before[k]));
                let u = choose|u: int|
                    20 <= u < t - 1 && #[trigger] tier_groups(segs, p, u).contains(before[k]);
                assert(tier_groups(segs, p, u).contains(now[k]));
            } else {
                assert(now[k] == own[k - before.len()]);
                assert(tier_groups(segs, p, t - 1).contains(now[k]));
            }
        }
        assert forall|u: int, k: int|
            20 <= u < t && 0 <= k < tier_groups(segs, p, u).len() implies now.contains(
            #[trigger] tier_groups(segs, p, u)[k],
        ) by {
            let g = tier_groups(segs, p, u)[k];
            if u < t - 1 {
                assert(before.contains(g));
                let j = choose|j: int| 0 <= j < before.len() && before[j] == g;
                assert(now[j] == g);
            } else {
                assert(now[before.len() + k] == g);
            }
        }
    }
}

proof fn lemma_top(segs: Seq<SegmentEntry>, n: int, i: int)
    requires
        0 <= i < n <= segs.len(),
    ensures
        tier_of(segs[i]) <= top_tier(segs, n),
    decreases n,
{
    if i < n - 1 {
        lemma_top(segs, n - 1, i);
    }
}

proof fn lemma_rewritten(segs: Seq<SegmentEntry>, p: MergePolicy, n: int)
    requires
        0 <= n <= segs.len(),
    ensures
        forall|k: int|
            0 <= k < rewrites(segs, p, n).len() ==> (#[trigger] rewrites(segs, p, n)[k]).len() == 1
                && is_worn(segs, p, rewrites(segs, p, n)[k][0]),
        forall|i: int|
            0 <= i < n && worn(#[trigger] segs[i], p) ==> rewrites(segs, p, n).contains(
                seq![segs[i].segment_id],
            ),
    decreases n,
{
    let now = rewrites(segs, p, n);
    if n > 0 {
        lemma_rewritten(segs, p, n - 1);
        let before = rewrites(segs, p, n - 1);
        lemma_due(segs[n - 1], p);
        assert forall|k: int| 0 <= k < now.len() implies (#[trigger] now[k]).len() == 1 && is_worn(
            segs,
            p,
            now[k][0],
        ) by {
            if k < before.len() {
                assert(now[k] == before[k]);
            } else {
                assert(segs[n - 1].segment_id == now[k][0] && worn(segs[n - 1], p));
            }
        }
        assert forall|i: int| 0 <= i < n && worn(#[trigger] segs[i], p) implies now.contains(
            seq![segs[i].segment_id],
        ) by {
            if i < n - 1 {
                let k = choose|k: int|
                    0 <= k < before.len() && before[k] == seq![segs[i].segment_id];
                assert(now[k] == seq![segs[i].segment_id]);
            } else {
                assert(now[before.len() as int] == seq![segs[i].segment_id]);
            }
        }
    }
}

/// How many segments a group may have: what the policy says, but two at least.
pub open spec fn most(p: MergePolicy) -> int {
    if p.max_merge >= 2 {
        p.max_merge as int
    } else {
        2
    }
}

/// The group is of free segments of the tier, which has enough of them, in ascending order of
/// their ids.
pub open spec fn is_of_tier(
    segs: Seq<SegmentEntry>,
    p: MergePolicy,
    t: int,
    g: Seq<u32>,
) -> bool {
    &&& 2 <= g.len() <= most(p)
    &&& forall|i: int| 0 <= i < g.len() ==> members(segs, p, t).contains(#[trigger] g[i])
    &&& forall|i: int, j: int| 0 <= i < j < g.len() ==> (#[trigger] g[i]) < (#[trigger] g[j])
    &&& members(segs, p, t).len() >= p.tier_size
}

proof fn lemma_tier_is_merged(segs: Seq<SegmentEntry>, p: MergePolicy, t: int)
    requires
        ids_unique(segs),
        counts_hold(segs),
        segs.len() <= usize::MAX,
    ensures
        members(segs, p, t).finite(),
        forall|k: int|
            0 <= k < tier_groups(segs, p, t).len() ==> is_of_tier(
                segs,
                p,
                t,
                #[trigger] tier_groups(segs, p, t)[k],
            ),
        members(segs, p, t).len() >= p.tier_size ==> {
            &&& forall|x: u32, y: u32|
                #![trigger in_groups(tier_groups(segs, p, t), x), in_groups(tier_groups(segs, p, t), y)]
                is_member(segs, p, t, x) && is_member(segs, p, t, y) && !in_groups(
                    tier_groups(segs, p, t),
                    x,
                ) && !in_groups(tier_groups(segs, p, t), y) ==> x == y
            &&& members(segs, p, t).len() as int % most(p) != 1 ==> forall|x: u32|
                is_member(segs, p, t, x) ==> #[trigger] in_groups(tier_groups(segs, p, t), x)
        },
{
    let n = segs.len() as int;
    let ids = tier_ids(segs, p, t, n);
    lemma_tier_members(segs, p, t, n);
    lemma_sorted_ids(ids);
    let s = sorted_ids(ids);
    let all = members(segs, p, t);
    assert(all =~= ids.to_set()) by {
        assert forall|id: u32| all.contains(id) <==> ids.contains(id) by {
            assert(ids.contains(id) <==> is_member(segs, p, t, id));
        }
    }
    ids.unique_seq_to_set();
    vstd::seq_lib::seq_to_set_is_finite(ids);
    let r = tier_groups(segs, p, t);
    if ids.len() >= p.tier_size {
        lemma_stretches(s, most(p), 0);
        assert(r == chunked(s, most(p), 0));
        assert forall|k: int| 0 <= k < r.len() implies is_of_tier(segs, p, t, #[trigger] r[k]) by {
            assert(stretch(s, most(p), 0, chunked(s, most(p), 0)[k]));
            let (a, b) = choose|a: int, b: int|
                0 <= a && 2 <= b - a <= most(p) && b <= s.len() && r[k] == #[trigger] s.subrange(
                    a,
                    b,
                );
            assert forall|i: int| 0 <= i < r[k].len() implies all.contains(#[trigger] r[k][i]) by {
                assert(r[k][i] == s[a + i]);
                assert(s.contains(s[a + i]));
                assert(ids.contains(s[a + i]));
            }
        }
        assert forall|x: u32| is_member(segs, p, t, x) && !#[trigger] in_groups(r, x) implies x
            == s[s.len() - 1] by {
            assert(ids.contains(x));
            assert(s.contains(x));
            let k = choose|k: int| 0 <= k < s.len() && s[k] == x;
            if k < s.len() - 1 {
                assert(in_groups(chunked(s, most(p), 0), s[k]));
            }
        }
        if all.len() as int % most(p) != 1 {
            assert forall|x: u32| is_member(segs, p, t, x) implies #[trigger] in_groups(r, x) by {
                assert(ids.contains(x));
                assert(s.len() - 0 == all.len());
            }
        }
    }
}

/// Every group of a plan is a worn segment by itself, or free segments of one tier that has
/// enough of them, in ascending order and no more than a group may have.
pub proof fn lemma_groups_are_of_one_tier(segs: Seq<SegmentEntry>, p: MergePolicy, k: int)
    requires
        ids_unique(segs),
        counts_hold(segs),
        segs.len() <= usize::MAX,
        0 <= k < planned_groups(segs, p).len(),
    ensures
        ({
            let g = planned_groups(segs, p)[k];
            ||| g.len() == 1 && is_worn(segs, p, g[0])
            ||| exists|t: int| #[trigger] is_of_tier(segs, p, t, g)
        }),
{
    let n = segs.len() as int;
    let top = top_tier(segs, n) + 1;
    let a = rewrites(segs, p, n);
    let b = groups_below(segs, p, top);
    let g = planned_groups(segs, p)[k];
    lemma_rewritten(segs, p, n);
    lemma_below(segs, p, top);
    if k < a.len() {
        assert(g == a[k]);
    } else {
        assert(g == b[k - a.len()]);
        assert(from_below(segs, p, top, b[k - a.len()]));
        let u = choose|u: int|
            20 <= u < top && #[trigger] tier_groups(segs, p, u).contains(b[k - a.len()]);
        lemma_tier_is_merged(segs, p, u);
        let j = choose|j: int|
            0 <= j < tier_groups(segs, p, u).len() && tier_groups(segs, p, u)[j] == g;
        assert(is_of_tier(segs, p, u, tier_groups(segs, p, u)[j]));
    }
}

/// Every worn segment is rewritten by itself.
pub proof fn lemma_worn_are_rewritten(segs: Seq<SegmentEntry>, p: MergePolicy, i: int)
    requires
        0 <= i < segs.len(),
        worn(segs[i], p),
    ensures
        planned_groups(segs, p).contains(seq![segs[i].segment_id]),
{
    let n = segs.len() as int;
    lemma_rewritten(segs, p, n);
    let a = rewrites(segs, p, n);
    let k = choose|k: int| 0 <= k < a.len() && a[k] == seq![segs[i].segment_id];
    assert(planned_groups(segs, p)[k] == a[k]);
}

/// Where a tier has enough free segments they are all merged, but for one where the groups
/// come out so that it would be alone.
pub proof fn lemma_full_tiers_are_merged(segs: Seq<SegmentEntry>, p: MergePolicy, t: int, x: u32)
    requires
        ids_unique(segs),
        counts_hold(segs),
        segs.len() <= usize::MAX,
        members(segs, p, t).len() >= p.tier_size,
        is_member(segs, p, t, x),
    ensures
        members(segs, p, t).finite(),
        members(segs, p, t).len() as int % most(p) != 1 ==> in_groups(planned_groups(segs, p), x),
        forall|y: u32|
            is_member(segs, p, t, y) && y != x && !#[trigger] in_groups(planned_groups(segs, p), y)
                ==> in_groups(planned_groups(segs, p), x),
{
    let n = segs.len() as int;
    let top = top_tier(segs, n) + 1;
    let a = rewrites(segs, p, n);
    let b = groups_below(segs, p, top);
    let all = planned_groups(segs, p);
    let r = tier_groups(segs, p, t);
    lemma_tier_is_merged(segs, p, t);
    lemma_below(segs, p, top);
    let i = choose|i: int|
        0 <= i < segs.len() && (#[trigger] segs[i]).segment_id == x && free(segs[i], p) && in_tier(
            segs[i],
            t,
        );
    lemma_one_tier(segs[i], t);
    lemma_top(segs, n, i);
    assert forall|id: u32| #[trigger] in_groups(r, id) implies in_groups(all, id) by {
        let k = choose|k: int| 0 <= k < r.len() && (#[trigger] r[k]).contains(id);
        assert(b.contains(tier_groups(segs, p, t)[k]));
        let j = choose|j: int| 0 <= j < b.len() && b[j] == r[k];
        assert(all[a.len() + j] == b[j]);
        assert(all[a.len() + j].contains(id));
    }
    assert forall|y: u32|
        is_member(segs, p, t, y) && y != x && !#[trigger] in_groups(all, y) implies in_groups(
        all,
        x,
    ) by {
        if !in_groups(r, x) {
            assert(!in_groups(r, y));
        }
    }
    if members(segs, p, t).len() as int % most(p) != 1 {
        assert(in_groups(r, x));
    }
}

} // verus!
