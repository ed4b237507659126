//! Refreshing a long-lived handle on an index.
//!
//! A segment's files may be retired while a query still reads them, so they are
//! only marked, and removed when the last reader is gone.

use vstd::prelude::*;

use crate::format::manifest::SegmentEntry;

verus! {

/// One of the first `n` entries has the id.
pub open spec fn named(es: Seq<SegmentEntry>, id: u32, n: int) -> bool {
    exists|i: int| 0 <= i < n && (#[trigger] es[i]).segment_id == id
}

/// Which entries of the old list the new one no longer names.
pub open spec fn dropped(old_list: Seq<SegmentEntry>, new_list: Seq<SegmentEntry>) -> Seq<bool> {
    Seq::new(
        old_list.len(),
        |i: int| !named(new_list, old_list[i].segment_id, new_list.len() as int),
    )
}

/// What a refresh does: nothing where the generation is the same or there is no
/// index any more, else the segments to retire, one flag for each.
pub open spec fn refreshed(
    generation: u64,
    old_list: Seq<SegmentEntry>,
    fresh: Option<(u64, Seq<SegmentEntry>)>,
) -> Option<Seq<bool>> {
    match fresh {
        None => None,
        Some((g, new_list)) => if g == generation {
            None
        } else {
            Some(dropped(old_list, new_list))
        },
    }
}

/// Decides a refresh from the generation and segments in use and those just
/// read, if any. `None`: keep what is in use.
pub fn refresh(
    generation: u64,
    current: &[SegmentEntry],
    fresh: Option<(u64, &[SegmentEntry])>,
) -> (r: Option<Vec<bool>>)
    ensures
        ({
            let want = refreshed(
                generation,
                current@,
                match fresh {
                    Some((g, es)) => Some((g, es@)),
                    None => None,
                },
            );
            match r {
                Some(v) => want == Some(v@),
                None => want is None,
            }
        }),
{
    let (g, new_list) = match fresh {
        None => {
            return None;
        },
        Some(f) => f,
    };
    if g == generation {
        return None;
    }
    let mut v: Vec<bool> = Vec::new();
    let mut i: usize = 0;
    while i < current.len()
        invariant
            i <= current@.len(),
            v@ == dropped(current@, new_list@).take(i as int),
        decreases current@.len() - i,
    {
        let id: u32 = current[i].segment_id;
        let mut found: bool = false;
        let mut k: usize = 0;
        while k < new_list.len()
            invariant
                k <= new_list@.len(),
                found == named(new_list@, id, k as int),
            decreases new_list@.len() - k,
        {
            proof {
                if named(new_list@, id, k + 1) {
                    let x = choose|x: int| 0 <= x < k + 1 && (#[trigger] new_list@[x]).segment_id == id;
                    if x < k {
                        assert(named(new_list@, id, k as int));
                    }
                }
                if named(new_list@, id, k as int) {
                    let x = choose|x: int| 0 <= x < k && (#[trigger] new_list@[x]).segment_id == id;
                    assert(new_list@[x].segment_id == id);
                }
            }
            if new_list[k].segment_id == id {
                assert(new_list@[k as int].segment_id == id);
                found = true;
            }
            k = k + 1;
        }
        v.push(!found);
        i = i + 1;
        assert(v@ =~= dropped(current@, new_list@).take(i as int));
    }
    assert(dropped(current@, new_list@).take(i as int) =~= dropped(current@, new_list@));
    Some(v)
}

} // verus!
