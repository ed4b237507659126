//! What the counts of an index in memory count.

use vstd::prelude::*;

use super::doc_table::{as_indexed, as_len, as_live, sum_of, DocView};
use super::memory::{behind, extended, postings_upto, pushable, pushed, sorted_list};
use super::DocStatus;

verus! {

/// The places of a table that hold a document.
pub open spec fn held_places(s: Seq<Option<DocView>>) -> Set<int> {
    Set::new(|i: int| 0 <= i < s.len() && s[i] is Some)
}

/// The places of a table that hold an indexed document.
pub open spec fn indexed_places(s: Seq<Option<DocView>>) -> Set<int> {
    Set::new(|i: int| 0 <= i < s.len() && (s[i] matches Some(d) && d.status == DocStatus::Indexed))
}

/// A table counts its documents and the indexed ones among them, and sums the lengths of these.
pub proof fn lemma_table_counts(s: Seq<Option<DocView>>)
    ensures
        held_places(s).finite(),
        indexed_places(s).finite(),
        sum_of(s, as_live()) == held_places(s).len(),
        sum_of(s, as_indexed()) == indexed_places(s).len(),
        sum_of(s, as_len()) == s.fold_left(
            0int,
            |a: int, d: Option<DocView>|
                match d {
                    Some(d) => if d.status == DocStatus::Indexed {
                        a + d.len
                    } else {
                        a
                    },
                    None => a,
                },
        ),
    decreases s.len(),
{
    if s.len() > 0 {
        let f = s.drop_last();
        let n = f.len() as int;
        lemma_table_counts(f);
        if s.last() is Some {
            assert(held_places(s) =~= held_places(f).insert(n));
        } else {
            assert(held_places(s) =~= held_places(f));
        }
        if s.last() matches Some(d) && d.status == DocStatus::Indexed {
            assert(indexed_places(s) =~= indexed_places(f).insert(n));
        } else {
            assert(indexed_places(s) =~= indexed_places(f));
        }
    } else {
        assert(held_places(s) =~= Set::empty());
        assert(indexed_places(s) =~= Set::empty());
    }
}

/// The postings of all terms are the documents of all lists together.
pub proof fn lemma_postings_upto(
    m: Map<Seq<char>, Seq<(u32, Seq<u32>)>>,
    keys: Seq<Seq<char>>,
    n: int,
)
    requires
        0 <= n <= keys.len(),
    ensures
        postings_upto(m, keys, n) == keys.take(n).fold_left(
            0int,
            |a: int, t: Seq<char>| a + m[t].len(),
        ),
    decreases n,
{
    if n > 0 {
        lemma_postings_upto(m, keys, n - 1);
        assert(keys.take(n).drop_last() =~= keys.take(n - 1));
        assert(keys.take(n).last() == keys[n - 1]);
    } else {
        assert(keys.take(n) =~= Seq::empty());
    }
}

/// The list has the position of the document.
pub open spec fn has_at(list: Seq<(u32, Seq<u32>)>, doc: u32, position: u32) -> bool {
    exists|i: int| 0 <= i < list.len() && (#[trigger] list[i]).0 == doc && list[i].1.contains(position)
}

proof fn lemma_in_order(list: Seq<(u32, Seq<u32>)>, doc: u32, position: u32)
    requires
        sorted_list(list),
        has_at(list, doc, position),
    ensures
        list.len() > 0,
        list[0].0 <= doc <= list.last().0,
        doc == list[0].0 ==> list[0].1[0] <= position,
        doc == list.last().0 ==> position <= list.last().1.last(),
{
    let i = choose|i: int|
        0 <= i < list.len() && (#[trigger] list[i]).0 == doc && list[i].1.contains(position);
    let k = choose|k: int| 0 <= k < list[i].1.len() && list[i].1[k] == position;
    assert(list[i].1[k] == position);
    if i > 0 {
        assert(list[0].0 < list[i].0);
    }
    if i < list.len() - 1 {
        assert(list[i].0 < list[list.len() - 1].0);
    }
}

/// A list is recorded behind another where nothing of it comes before what the other has, and
/// then what is in either is in the result.
pub proof fn lemma_extended(
    list: Seq<(u32, Seq<u32>)>,
    more: Seq<(u32, Seq<u32>)>,
    doc: u32,
    position: u32,
)
    requires
        sorted_list(list),
        sorted_list(more),
    ensures
        extended(list, more) is Some <==> forall|d: u32, p: u32, e: u32, q: u32|
            #[trigger] has_at(list, d, p) && #[trigger] has_at(more, e, q) ==> d < e || d == e && p
                <= q,
        extended(list, more) matches Some(all) ==> (has_at(all, doc, position) <==> has_at(
            list,
            doc,
            position,
        ) || has_at(more, doc, position)),
{
    match extended(list, more) {
        None => {
            let a = list.last();
            let b = more[0];
            assert(list[list.len() - 1].1[a.1.len() - 1] == a.1.last());
            assert(list[list.len() - 1].1.contains(a.1.last()));
            assert(more[0].1.contains(b.1[0]));
            assert(has_at(list, a.0, a.1.last()));
            assert(has_at(more, b.0, b.1[0]));
        },
        Some(all) => {
            assert forall|d: u32, p: u32, e: u32, q: u32|
                #[trigger] has_at(list, d, p) && #[trigger] has_at(more, e, q) implies d < e || d
                == e && p <= q by {
                lemma_in_order(list, d, p);
                lemma_in_order(more, e, q);
            }
            lemma_extended_has(list, more, doc, position);
        },
    }
}

proof fn lemma_extended_has(
    list: Seq<(u32, Seq<u32>)>,
    more: Seq<(u32, Seq<u32>)>,
    doc: u32,
    position: u32,
)
    requires
        sorted_list(list),
        sorted_list(more),
        extended(list, more) is Some,
    ensures
        has_at(extended(list, more)->0, doc, position) <==> has_at(list, doc, position) || has_at(
            more,
            doc,
            position,
        ),
{
    let all = extended(list, more)->0;
    let n = list.len() as int;
    let apart = list.len() == 0 || more.len() == 0 || list.last().0 < more[0].0;
    let m = if apart {
        n
    } else {
        n - 1
    };
    if !apart {
        lemma_behind(list.last().1, more[0].1, position);
    }
    if has_at(list, doc, position) {
        let i = choose|i: int|
            0 <= i < list.len() && (#[trigger] list[i]).0 == doc && list[i].1.contains(position);
        assert(all[i].0 == doc && all[i].1.contains(position));
    }
    if has_at(more, doc, position) {
        let i = choose|i: int|
            0 <= i < more.len() && (#[trigger] more[i]).0 == doc && more[i].1.contains(position);
        assert(all[m + i].0 == doc && all[m + i].1.contains(position));
    }
    if has_at(all, doc, position) {
        let i = choose|i: int|
            0 <= i < all.len() && (#[trigger] all[i]).0 == doc && all[i].1.contains(position);
        if i < m {
            assert(list[i] == all[i]);
        } else if apart || i > m {
            assert(more[i - m] == all[i]);
        } else {
            assert(list[i].0 == doc && more[0].0 == doc);
        }
    }
}

proof fn lemma_behind(had: Seq<u32>, more: Seq<u32>, position: u32)
    requires
        had.len() > 0,
        more.len() > 0,
    ensures
        (had + behind(had, more)).contains(position) <==> had.contains(position) || more.contains(
            position,
        ),
{
    let own = behind(had, more);
    let all = had + own;
    if had.contains(position) {
        let k = choose|k: int| 0 <= k < had.len() && had[k] == position;
        assert(all[k] == position);
    }
    if more.contains(position) {
        let k = choose|k: int| 0 <= k < more.len() && more[k] == position;
        if had.last() == more[0] {
            if k > 0 {
                assert(all[had.len() + k - 1] == position);
            } else {
                assert(all[had.len() - 1] == position);
            }
        } else {
            assert(all[had.len() + k] == position);
        }
    }
    if all.contains(position) {
        let k = choose|k: int| 0 <= k < all.len() && all[k] == position;
        if k < had.len() {
            assert(had[k] == position);
        } else if had.last() == more[0] {
            assert(more[k - had.len() + 1] == position);
        } else {
            assert(more[k - had.len()] == position);
        }
    }
}

/// A position of a document can be recorded where it does not come before what the list has, and
/// then it is in the list beside what was.
pub proof fn lemma_pushed(
    list: Seq<(u32, Seq<u32>)>,
    doc: u32,
    position: u32,
    d: u32,
    p: u32,
)
    requires
        sorted_list(list),
    ensures
        pushable(list, doc, position) <==> forall|e: u32, q: u32| #[trigger]
            has_at(list, e, q) ==> e < doc || e == doc && q <= position,
        pushable(list, doc, position) ==> (has_at(pushed(list, doc, position), d, p) <==> has_at(
            list,
            d,
            p,
        ) || d == doc && p == position),
{
    let one = seq![position];
    let more = seq![(doc, one)];
    assert(one[0] == position);
    assert(more[0].1.contains(position));
    assert(has_at(more, doc, position));
    assert forall|e: u32, q: u32| #[trigger] has_at(more, e, q) implies e == doc && q == position by {}
    lemma_extended(list, more, d, p);
    if pushable(list, doc, position) {
        let now = pushed(list, doc, position);
        if list.len() > 0 && list.last().0 == doc {
            let own = behind(list.last().1, one);
            assert(more.drop_first() =~= Seq::empty());
            if list.last().1.last() == position {
                assert(own =~= Seq::empty());
                assert(list.last().1 + own =~= list.last().1);
                assert(extended(list, more)->0 =~= now);
            } else {
                assert(list.last().1 + own =~= list.last().1.push(position));
                assert(extended(list, more)->0 =~= now);
            }
        } else {
            assert(extended(list, more)->0 =~= now);
        }
    }
}

} // verus!
