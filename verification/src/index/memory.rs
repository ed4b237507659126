//! Postings held in memory: what the builder accumulates before a segment is
//! written, and the reference that tests compare against.

use vstd::arithmetic::mul::lemma_mul_inequality;
use vstd::hash_map::StringHashMap;
use vstd::layout::size_of;
use vstd::prelude::*;
use vstd::seq_lib::seq_to_set_is_finite;
use vstd::utf8::encode_utf8;

use super::reserve::{
    capacity_of, capped, has_room, lemma_capped_product, product, sum_all, sum_up, text_capacity, total,
};
use super::postings::{
    from_target, step, DocId, Entry, Position, PostingCursor, PostingList, TermStore,
};
use crate::format::idx::PostingSource;
use crate::format::postings::{ascending, encode_postings, entries_of, list_view, token_count};

verus! {

/// One document's entry in a posting list.
#[derive(Debug, PartialEq, Eq)]
pub struct Posting {
    pub doc: DocId,
    /// Ascending, deduplicated.
    pub positions: Vec<Position>,
}

impl Clone for Posting {
    fn clone(&self) -> (r: Self)
        ensures
            r.doc == self.doc,
            r.positions@ == self.positions@,
    {
        Posting { doc: self.doc, positions: self.positions.clone() }
    }
}

/// The postings by value.
pub open spec fn posting_list(ps: Seq<Posting>) -> Seq<(u32, Seq<u32>)> {
    Seq::new(ps.len(), |i: int| (ps[i].doc, ps[i].positions@))
}

/// A list in document order whose postings hold ascending positions, at least
/// one each.
pub open spec fn sorted_list(list: Seq<(u32, Seq<u32>)>) -> bool {
    &&& forall|i: int, j: int| 0 <= i < j < list.len() ==> #[trigger] list[i].0 < #[trigger] list[j].0
    &&& forall|i: int|
        #![trigger list[i]]
        0 <= i < list.len() ==> list[i].1.len() > 0 && ascending(list[i].1)
}

/// `position` of `doc` can be recorded at the end of the list.
pub open spec fn pushable(list: Seq<(u32, Seq<u32>)>, doc: u32, position: u32) -> bool {
    list.len() > 0 ==> {
        ||| list.last().0 < doc
        ||| list.last().0 == doc && list.last().1.last() <= position
    }
}

/// The list after `position` of `doc` was recorded.
pub open spec fn pushed(list: Seq<(u32, Seq<u32>)>, doc: u32, position: u32) -> Seq<
    (u32, Seq<u32>),
> {
    if list.len() > 0 && list.last().0 == doc {
        if list.last().1.last() == position {
            list
        } else {
            list.drop_last().push((doc, list.last().1.push(position)))
        }
    } else {
        list.push((doc, seq![position]))
    }
}

/// `more` recorded behind `list`: a document that ends the one and starts the other
/// has the positions of both, the same position once. None where documents or positions
/// would be out of order.
pub open spec fn extended(list: Seq<(u32, Seq<u32>)>, more: Seq<(u32, Seq<u32>)>) -> Option<
    Seq<(u32, Seq<u32>)>,
> {
    if list.len() == 0 || more.len() == 0 || list.last().0 < more[0].0 {
        Some(list + more)
    } else if list.last().0 > more[0].0 || list.last().1.last() > more[0].1[0] {
        None
    } else {
        let own = behind(list.last().1, more[0].1);
        Some(list.drop_last().push((list.last().0, list.last().1 + own)) + more.drop_first())
    }
}

/// The positions `more` without the first where `had` ends with it.
pub open spec fn behind(had: Seq<u32>, more: Seq<u32>) -> Seq<u32> {
    if had.last() == more[0] {
        more.drop_first()
    } else {
        more
    }
}

/// Every document of `a` is before every document of `b`.
pub open spec fn before(a: Seq<(u32, Seq<u32>)>, b: Seq<(u32, Seq<u32>)>) -> bool {
    a.len() > 0 && b.len() > 0 ==> a.last().0 < b[0].0
}

/// The bytes that a list takes at least, counting the positions of the first `n`
/// documents.
pub open spec fn in_use(list: Seq<(u32, Seq<u32>)>, n: int) -> int {
    (list.len() * size_of::<Posting>() + token_count(list, n) * size_of::<Position>()) as int
}

/// What may be reserved for a list: room for its postings, and for the positions of
/// each.
pub open spec fn list_room(list: Seq<(u32, Seq<u32>)>, slots: usize, counts: Seq<usize>) -> bool {
    &&& has_room(slots, list.len(), size_of::<Posting>())
    &&& counts.len() == list.len()
    &&& forall|i: int|
        0 <= i < list.len() ==> has_room(
            #[trigger] counts[i],
            list[i].1.len(),
            size_of::<Position>(),
        )
}

/// The bytes of room for so many postings and for so many positions in each.
pub open spec fn heap_for(slots: usize, counts: Seq<usize>) -> int {
    capped(slots * size_of::<Posting>() + sum_all(counts) * size_of::<Position>())
}

/// A list may account for `n` bytes: those of what may be reserved for it.
pub open spec fn list_heap(list: Seq<(u32, Seq<u32>)>, n: usize) -> bool {
    exists|slots: usize, counts: Seq<usize>| #[trigger]
        list_room(list, slots, counts) && n == heap_for(slots, counts)
}

/// The bytes of room for so many postings and for so many positions in each.
pub fn heap_of(slots: usize, counts: &[usize]) -> (r: usize)
    ensures
        r == heap_for(slots, counts@),
{
    proof {
        lemma_capped_product(sum_all(counts@), size_of::<Position>());
        assert(slots * size_of::<Posting>() >= 0) by (nonlinear_arith);
        assert(sum_all(counts@) * size_of::<Position>() >= 0) by (nonlinear_arith);
    }
    let own: usize = product(slots, core::mem::size_of::<Posting>());
    own.saturating_add(product(sum_up(counts), core::mem::size_of::<Position>()))
}

/// The positions of a list have at least the room that they take.
proof fn lemma_counts_cover(
    list: Seq<(u32, Seq<u32>)>,
    slots: usize,
    counts: Seq<usize>,
    n: int,
)
    requires
        list_room(list, slots, counts),
        0 <= n <= list.len(),
    ensures
        total(counts, n) >= token_count(list, n),
    decreases n,
{
    if n > 0 {
        lemma_counts_cover(list, slots, counts, n - 1);
        assert(has_room(counts[n - 1], list[n - 1].1.len(), size_of::<Position>()));
    }
}

/// What a list accounts for covers what it takes.
pub proof fn lemma_list_heap(list: Seq<(u32, Seq<u32>)>, n: usize)
    requires
        list_heap(list, n),
    ensures
        n >= capped(in_use(list, list.len() as int)),
{
    let (slots, counts) = choose|slots: usize, counts: Seq<usize>| #[trigger]
        list_room(list, slots, counts) && n == heap_for(slots, counts);
    lemma_counts_cover(list, slots, counts, list.len() as int);
    lemma_mul_inequality(list.len() as int, slots as int, size_of::<Posting>() as int);
    lemma_mul_inequality(
        token_count(list, list.len() as int) as int,
        sum_all(counts) as int,
        size_of::<Position>() as int,
    );
}

/// Postings kept sorted by document, grown at the end only.
#[derive(Debug, PartialEq, Eq)]
pub struct MemPostingList {
    postings: Vec<Posting>,
}

impl View for MemPostingList {
    type V = Seq<(u32, Seq<u32>)>;

    closed spec fn view(&self) -> Seq<(u32, Seq<u32>)> {
        posting_list(self.postings@)
    }
}

impl Default for MemPostingList {
    fn default() -> (r: Self)
        ensures
            r@ == Seq::<(u32, Seq<u32>)>::empty(),
            sorted_list(r@),
    {
        MemPostingList { postings: Vec::new() }
    }
}

impl Clone for MemPostingList {
    fn clone(&self) -> (r: Self)
        ensures
            r@ == self@,
    {
        let mut postings: Vec<Posting> = Vec::new();
        let mut i: usize = 0;
        while i < self.postings.len()
            invariant
                i <= self.postings@.len(),
                postings@.len() == i,
                forall|k: int|
                    #![trigger postings@[k]]
                    0 <= k < i ==> postings@[k].doc == self.postings@[k].doc
                        && postings@[k].positions@ == self.postings@[k].positions@,
            decreases self.postings@.len() - i,
        {
            postings.push(self.postings[i].clone());
            i = i + 1;
        }
        let r = MemPostingList { postings };
        assert(r@ =~= self@);
        r
    }
}

impl MemPostingList {
    /// Records `position` for `doc`. `doc` must not be below the last document
    /// recorded; an equal one extends the last posting. A repeat of the last
    /// position (identifier parts share their atom's slot) is dropped.
    pub fn push(&mut self, doc: DocId, position: Position)
        requires
            sorted_list(old(self)@),
            pushable(old(self)@, doc, position),
        ensures
            final(self)@ == pushed(old(self)@, doc, position),
            sorted_list(final(self)@),
    {
        let ghost before = self@;
        let n: usize = self.postings.len();
        if n > 0 && self.postings[n - 1].doc == doc {
            assert(before[n - 1] == (doc, self.postings@[n - 1].positions@));
            let k: usize = self.postings[n - 1].positions.len();
            if self.postings[n - 1].positions[k - 1] != position {
                let last = &mut self.postings[n - 1];
                last.positions.push(position);
                assert(self@ =~= before.drop_last().push((doc, before.last().1.push(position))));
                assert(ascending(before.last().1.push(position)));
            }
        } else {
            let mut positions: Vec<Position> = Vec::new();
            positions.push(position);
            assert(positions@ =~= seq![position]);
            self.postings.push(Posting { doc, positions });
            assert(self@ =~= before.push((doc, seq![position])));
        }
    }

    /// Appends `other`, whose documents are all greater than ours.
    pub fn append(&mut self, other: MemPostingList)
        requires
            sorted_list(old(self)@),
            sorted_list(other@),
            before(old(self)@, other@),
        ensures
            final(self)@ == old(self)@ + other@,
            sorted_list(final(self)@),
    {
        let mut rest: Vec<Posting> = other.postings;
        self.postings.append(&mut rest);
        assert(self@ =~= old(self)@ + other@);
        proof {
            lemma_concat_sorted(old(self)@, other@);
        }
    }

    /// Appends `other` where that keeps documents and positions in order. One document
    /// may end this list and start the other.
    pub fn try_append(&mut self, other: MemPostingList) -> (r: bool)
        requires
            sorted_list(old(self)@),
            sorted_list(other@),
        ensures
            sorted_list(final(self)@),
            match extended(old(self)@, other@) {
                Some(l) => r && final(self)@ == l,
                None => !r && final(self)@ == old(self)@,
            },
    {
        let ghost start = self@;
        let ghost more = other@;
        let mut rest: Vec<Posting> = other.postings;
        let n: usize = self.postings.len();
        if n == 0 || rest.len() == 0 || self.postings[n - 1].doc < rest[0].doc {
            self.append(MemPostingList { postings: rest });
            return true;
        }
        assert(start.last() == (self.postings@[n - 1].doc, self.postings@[n - 1].positions@));
        assert(more[0] == (rest@[0].doc, rest@[0].positions@));
        let k: usize = self.postings[n - 1].positions.len();
        if self.postings[n - 1].doc > rest[0].doc || self.postings[n - 1].positions[k - 1]
            > rest[0].positions[0] {
            return false;
        }
        let first = rest.remove(0);
        let ghost ps = more[0].1;
        let ghost had = start.last().1;
        let mut j: usize = 0;
        while j < first.positions.len()
            invariant
                j <= ps.len(),
                first.positions@ == ps,
                ps.len() > 0,
                ascending(ps),
                start.len() > 0,
                start.last() == (first.doc, had),
                had.len() > 0,
                had.last() <= ps[0],
                sorted_list(self@),
                self@ == if j == 0 {
                    start
                } else {
                    start.drop_last().push((first.doc, had + behind(had, ps.take(j as int))))
                },
            decreases ps.len() - j,
        {
            let ghost own = behind(had, ps.take(j as int));
            proof {
                assert(start.drop_last().push(start.last()) =~= start);
                if j > 0 {
                    assert(ps.take(j as int)[0] == ps[0]);
                    assert((had + own).last() == ps[j - 1]);
                    assert(ps[j - 1] < ps[j as int]);
                }
            }
            self.push(first.doc, first.positions[j]);
            j = j + 1;
            proof {
                let now = behind(had, ps.take(j as int));
                assert(ps.take(j as int)[0] == ps[0]);
                if j > 1 {
                    assert(had + now =~= (had + own).push(ps[j - 1]));
                } else if had.last() == ps[0] {
                    assert(had + now =~= had);
                } else {
                    assert(had + now =~= had.push(ps[0]));
                }
                assert(self@ =~= start.drop_last().push((first.doc, had + now)));
            }
        }
        let last = MemPostingList { postings: rest };
        proof {
            assert(ps.take(j as int) =~= ps);
            assert(last@ =~= more.drop_first());
            assert forall|a: int, b: int| 0 <= a < b < last@.len() implies (#[trigger] last@[a]).0
                < (#[trigger] last@[b]).0 by {
                assert(last@[a] == more[a + 1] && last@[b] == more[b + 1]);
            }
            assert forall|a: int| #![trigger last@[a]] 0 <= a < last@.len() implies
                last@[a].1.len() > 0 && ascending(last@[a].1) by {
                assert(last@[a] == more[a + 1]);
            }
            if last@.len() > 0 {
                assert(last@[0] == more[1]);
            }
        }
        self.append(last);
        true
    }

    /// The postings.
    pub fn as_slice(&self) -> (r: &[Posting])
        ensures
            posting_list(r@) == self@,
    {
        self.postings.as_slice()
    }

    /// Accounted heap: the bytes reserved for postings and positions, summed by
    /// [`heap_of`].
    pub fn heap_bytes(&self) -> (n: usize)
        ensures
            list_heap(self@, n),
    {
        let slots: usize = capacity_of(&self.postings);
        let mut counts: Vec<usize> = Vec::new();
        let mut i: usize = 0;
        while i < self.postings.len()
            invariant
                i <= self.postings@.len(),
                counts@.len() == i,
                forall|k: int|
                    0 <= k < i ==> has_room(
                        #[trigger] counts@[k],
                        self@[k].1.len(),
                        size_of::<Position>(),
                    ),
            decreases self.postings@.len() - i,
        {
            assert(self@[i as int].1 == self.postings@[i as int].positions@);
            counts.push(capacity_of(&self.postings[i].positions));
            i = i + 1;
        }
        assert(list_room(self@, slots, counts@));
        heap_of(slots, counts.as_slice())
    }

    /// Number of documents containing the term.
    pub fn doc_freq(&self) -> (n: u32)
        ensures
            n == self@.len() as u32,
    {
        self.postings.len() as u32
    }

    /// A cursor on the first posting.
    pub fn cursor(&self) -> (c: MemPostingCursor<'_>)
        requires
            sorted_list(self@),
        ensures
            c.wf(),
            c.rest() == entries_of(self@),
    {
        let c = MemPostingCursor { postings: self.postings.as_slice(), idx: 0 };
        assert(c.rest() =~= entries_of(self@));
        c
    }
}

proof fn lemma_concat_sorted(a: Seq<(u32, Seq<u32>)>, b: Seq<(u32, Seq<u32>)>)
    requires
        sorted_list(a),
        sorted_list(b),
        before(a, b),
    ensures
        sorted_list(a + b),
{
    let c = a + b;
    assert forall|i: int, j: int| 0 <= i < j < c.len() implies #[trigger] c[i].0
        < #[trigger] c[j].0 by {
        if i < a.len() && j >= a.len() {
            assert(a[i].0 <= a.last().0);
            assert(b[0].0 <= b[j - a.len()].0);
        }
    }
}

/// Cursor over a [`MemPostingList`].
pub struct MemPostingCursor<'a> {
    postings: &'a [Posting],
    idx: usize,
}

proof fn lemma_from_target(es: Seq<Entry>, i: int, j: int, target: u32)
    requires
        0 <= i <= j <= es.len(),
        forall|k: int| i <= k < j ==> (#[trigger] es[k]).doc < target,
        j < es.len() ==> es[j].doc >= target,
    ensures
        from_target(es.skip(i), target) == es.skip(j),
    decreases j - i,
{
    if i < j {
        assert(es.skip(i)[0] == es[i]);
        assert(es.skip(i).drop_first() =~= es.skip(i + 1));
        lemma_from_target(es, i + 1, j, target);
    } else if i < es.len() {
        assert(es.skip(i)[0] == es[i]);
    }
}

impl<'a> MemPostingCursor<'a> {
    spec fn all(&self) -> Seq<Entry> {
        entries_of(posting_list(self.postings@))
    }
}

impl<'a> PostingCursor for MemPostingCursor<'a> {
    closed spec fn wf(&self) -> bool {
        &&& self.idx <= self.postings@.len()
        &&& sorted_list(posting_list(self.postings@))
    }

    closed spec fn rest(&self) -> Seq<Entry> {
        entries_of(posting_list(self.postings@)).skip(self.idx as int)
    }

    fn doc(&self) -> (r: Option<DocId>) {
        if self.idx < self.postings.len() {
            Some(self.postings[self.idx].doc)
        } else {
            None
        }
    }

    fn advance(&mut self) -> (r: Option<DocId>) {
        if self.idx < self.postings.len() {
            self.idx = self.idx + 1;
            assert(self.rest() =~= step(old(self).rest()));
        }
        self.doc()
    }

    /// Gallops forward from the current posting, then searches the last
    /// interval by halves.
    fn seek(&mut self, target: DocId) -> (r: Option<DocId>) {
        let len: usize = self.postings.len();
        let ghost es = self.all();
        if self.idx >= len {
            return None;
        }
        assert(es[self.idx as int].doc == self.postings@[self.idx as int].doc);
        if self.postings[self.idx].doc >= target {
            proof {
                lemma_from_target(es, self.idx as int, self.idx as int, target);
            }
            return Some(self.postings[self.idx].doc);
        }
        let mut lo: usize = self.idx;
        let mut stride: usize = 1;
        let mut hi: usize = lo + 1;
        while hi < len && self.postings[hi].doc < target
            invariant
                self.postings@ == old(self).postings@,
                self.idx == old(self).idx,
                len == self.postings@.len(),
                self.idx <= lo < hi <= len,
                1 <= stride <= len,
                self.postings@[lo as int].doc < target,
            decreases len - lo,
        {
            lo = hi;
            stride = if stride <= len / 2 {
                2 * stride
            } else {
                len
            };
            hi = if stride < len - lo {
                lo + stride
            } else {
                len
            };
        }
        let mut left: usize = lo + 1;
        let mut right: usize = hi;
        let ghost list = posting_list(self.postings@);
        assert(forall|k: int| 0 <= k < len ==> (#[trigger] list[k]).0 == self.postings@[k].doc);
        assert(forall|k: int| #![trigger list[k]] 0 <= k <= lo ==> list[k].0 <= list[lo as int].0);
        while left < right
            invariant
                self.postings@ == old(self).postings@,
                self.idx == old(self).idx,
                len == self.postings@.len(),
                self.idx < left <= right <= hi <= len,
                list == posting_list(self.postings@),
                sorted_list(list),
                forall|k: int| 0 <= k < left ==> (#[trigger] list[k]).0 < target,
                right < len ==> list[right as int].0 >= target,
            decreases right - left,
        {
            let mid: usize = left + (right - left) / 2;
            assert(list[mid as int].0 == self.postings@[mid as int].doc);
            if self.postings[mid].doc < target {
                assert(forall|k: int|
                    #![trigger list[k]]
                    0 <= k <= mid ==> list[k].0 <= list[mid as int].0);
                left = mid + 1;
            } else {
                right = mid;
            }
        }
        self.idx = left;
        proof {
            assert forall|k: int| old(self).idx <= k < left implies (#[trigger] es[k]).doc
                < target by {
                assert(list[k].0 < target);
            }
            lemma_from_target(es, old(self).idx as int, left as int, target);
        }
        self.doc()
    }

    fn positions(&mut self) -> (r: &[Position]) {
        assert(self.all()[self.idx as int] == self.rest()[0]);
        self.postings[self.idx].positions.as_slice()
    }

    fn term_freq(&mut self) -> (r: u32) {
        if self.idx < self.postings.len() {
            assert(self.all()[self.idx as int] == self.rest()[0]);
            self.postings[self.idx].positions.len() as u32
        } else {
            0
        }
    }
}

impl<'a> PostingList for &'a MemPostingList {
    type Cursor = MemPostingCursor<'a>;

    open spec fn wf(&self) -> bool {
        sorted_list((**self)@)
    }

    open spec fn entries(&self) -> Seq<Entry> {
        entries_of((**self)@)
    }

    open spec fn freq(&self) -> u32 {
        (**self)@.len() as u32
    }

    proof fn lemma_ascends(&self) {
        let list = (**self)@;
        let es = entries_of(list);
        assert forall|i: int, j: int| 0 <= i < j < es.len() implies (#[trigger] es[i]).doc < (
        #[trigger] es[j]).doc by {
            assert(list[i].0 < list[j].0);
        }
    }

    fn doc_freq(&self) -> (r: u32) {
        MemPostingList::doc_freq(*self)
    }

    fn cursor(&self) -> (c: MemPostingCursor<'a>) {
        MemPostingList::cursor(*self)
    }
}

impl<'a> PostingSource for &'a MemPostingList {
    open spec fn list(&self) -> Seq<(u32, Seq<u32>)> {
        (**self)@
    }

    fn doc_freq(&self) -> (n: u32) {
        MemPostingList::doc_freq(*self)
    }

    fn encode(&self, out: &mut Vec<u8>, scratch: &mut Vec<u8>) -> (r: crate::format::Result<u64>) {
        let postings: &[Posting] = self.as_slice();
        let mut refs: Vec<(DocId, &[Position])> = Vec::new();
        let mut i: usize = 0;
        while i < postings.len()
            invariant
                i <= postings@.len(),
                refs@.len() == i,
                forall|k: int|
                    #![trigger refs@[k]]
                    0 <= k < i ==> refs@[k].0 == postings@[k].doc && refs@[k].1@
                        == postings@[k].positions@,
            decreases postings@.len() - i,
        {
            refs.push((postings[i].doc, postings[i].positions.as_slice()));
            i = i + 1;
        }
        assert(list_view(refs@) =~= self.list());
        encode_postings(refs.as_slice(), out, scratch)
    }
}

/// A term with its postings.
pub struct TermEntry {
    term: String,
    list: MemPostingList,
}

/// Postings by term, in the order in which the terms came first.
pub struct TermMap {
    entries: Vec<TermEntry>,
    index: StringHashMap<usize>,
}

impl View for TermMap {
    type V = Map<Seq<char>, Seq<(u32, Seq<u32>)>>;

    closed spec fn view(&self) -> Map<Seq<char>, Seq<(u32, Seq<u32>)>> {
        self.index@.map_values(|i: usize| self.entries@[i as int].list@)
    }
}

/// The list of a term; empty where the term is not there.
pub open spec fn list_at(m: Map<Seq<char>, Seq<(u32, Seq<u32>)>>, term: Seq<char>) -> Seq<
    (u32, Seq<u32>),
> {
    if m.contains_key(term) {
        m[term]
    } else {
        Seq::empty()
    }
}

/// The lists of `a` followed by those of `b`, term by term.
pub open spec fn merged(
    a: Map<Seq<char>, Seq<(u32, Seq<u32>)>>,
    b: Map<Seq<char>, Seq<(u32, Seq<u32>)>>,
) -> Map<Seq<char>, Seq<(u32, Seq<u32>)>> {
    Map::new(
        |t: Seq<char>| a.contains_key(t) || b.contains_key(t),
        |t: Seq<char>| list_at(a, t) + list_at(b, t),
    )
}

/// For every term, every document of `a` is before every document of `b`.
pub open spec fn all_before(
    a: Map<Seq<char>, Seq<(u32, Seq<u32>)>>,
    b: Map<Seq<char>, Seq<(u32, Seq<u32>)>>,
) -> bool {
    forall|t: Seq<char>| a.contains_key(t) && #[trigger] b.contains_key(t) ==> before(a[t], b[t])
}

/// Every list is sorted.
pub open spec fn all_sorted(m: Map<Seq<char>, Seq<(u32, Seq<u32>)>>) -> bool {
    forall|t: Seq<char>| #[trigger] m.contains_key(t) ==> sorted_list(m[t])
}

impl TermMap {
    /// Every entry is reached through the index, under its own term, and every
    /// list is sorted.
    pub closed spec fn wf(&self) -> bool {
        &&& forall|i: int|
            #![trigger self.entries@[i]]
            0 <= i < self.entries@.len() ==> self.index@.contains_key(self.entries@[i].term@)
                && self.index@[self.entries@[i].term@] == i
        &&& forall|t: Seq<char>| #[trigger]
            self.index@.contains_key(t) ==> self.index@[t] < self.entries@.len()
                && self.entries@[self.index@[t] as int].term@ == t
        &&& all_sorted(self@)
    }

    /// The terms in order.
    pub closed spec fn keys(&self) -> Seq<Seq<char>> {
        Seq::new(self.entries@.len(), |i: int| self.entries@[i].term@)
    }

    pub proof fn lemma_keys(&self)
        requires
            self.wf(),
        ensures
            forall|t: Seq<char>| #[trigger] self.keys().contains(t) <==> self@.contains_key(t),
            self.keys().no_duplicates(),
            self@.dom().finite(),
            self@.dom().len() == self.keys().len(),
    {
        let ks = self.keys();
        assert(ks.no_duplicates()) by {
            assert forall|i: int, j: int| 0 <= i < ks.len() && 0 <= j < ks.len() && i != j implies
            ks[i] != ks[j] by {
                assert(self.entries@[i].term@ == ks[i]);
                assert(self.entries@[j].term@ == ks[j]);
            }
        }
        assert forall|t: Seq<char>| #[trigger] ks.contains(t) <==> self@.contains_key(t) by {
            if self@.contains_key(t) {
                assert(ks[self.index@[t] as int] == t);
            }
            if ks.contains(t) {
                let i = choose|i: int| 0 <= i < ks.len() && ks[i] == t;
                assert(self.entries@[i].term@ == t);
            }
        }
        ks.unique_seq_to_set();
        assert(ks.to_set() =~= self@.dom());
        seq_to_set_is_finite(ks);
    }

    /// An empty map.
    pub fn new() -> (m: Self)
        ensures
            m.wf(),
            m@ == Map::<Seq<char>, Seq<(u32, Seq<u32>)>>::empty(),
            m.keys() == Seq::<Seq<char>>::empty(),
    {
        let m = TermMap { entries: Vec::new(), index: StringHashMap::new() };
        assert(m@ =~= Map::empty());
        m
    }

    /// Number of terms.
    pub fn len(&self) -> (n: usize)
        ensures
            n == self.keys().len(),
    {
        self.entries.len()
    }

    /// Whether there is no term.
    pub fn is_empty(&self) -> (r: bool)
        ensures
            r == (self.keys().len() == 0),
    {
        self.entries.len() == 0
    }

    /// The term at place `i`.
    pub fn term(&self, i: usize) -> (t: &str)
        requires
            i < self.keys().len(),
        ensures
            t@ == self.keys()[i as int],
    {
        self.entries[i].term.as_str()
    }

    /// The list at place `i`.
    pub fn list(&self, i: usize) -> (l: &MemPostingList)
        requires
            self.wf(),
            i < self.keys().len(),
        ensures
            self@.contains_key(self.keys()[i as int]),
            l@ == self@[self.keys()[i as int]],
            sorted_list(l@),
    {
        let l = &self.entries[i].list;
        assert(self.entries@[i as int].term@ == self.keys()[i as int]);
        assert(self@.contains_key(self.keys()[i as int]));
        l
    }

    /// The postings of a term.
    pub fn get(&self, term: &str) -> (r: Option<&MemPostingList>)
        requires
            self.wf(),
        ensures
            match r {
                Some(l) => self@.contains_key(term@) && l@ == self@[term@] && sorted_list(l@),
                None => !self@.contains_key(term@),
            },
    {
        match self.index.get(term) {
            Some(i) => {
                assert(self@.contains_key(term@));
                Some(&self.entries[*i].list)
            },
            None => None,
        }
    }

    /// Adds a term that is not there yet.
    fn add_new(&mut self, term: String, list: MemPostingList)
        requires
            old(self).wf(),
            !old(self)@.contains_key(term@),
            sorted_list(list@),
        ensures
            final(self).wf(),
            final(self)@ == old(self)@.insert(term@, list@),
            final(self).keys() == old(self).keys().push(term@),
    {
        let ghost before = *self;
        let key: String = term.clone();
        self.index.insert(key, self.entries.len());
        self.entries.push(TermEntry { term, list });
        assert(self.keys() =~= before.keys().push(term@));
        proof {
            let after = *self;
            assert forall|t: Seq<char>| #[trigger] after.index@.contains_key(t) implies
            after.index@[t] < after.entries@.len() && after.entries@[after.index@[t] as int].term@
                == t by {
                if t != term@ {
                    assert(before.index@.contains_key(t));
                }
            }
            assert forall|i: int| #![trigger after.entries@[i]]
                0 <= i < after.entries@.len() implies after.index@.contains_key(
                after.entries@[i].term@,
            ) && after.index@[after.entries@[i].term@] == i by {
                if i < before.entries@.len() {
                    assert(after.entries@[i] == before.entries@[i]);
                }
            }
            assert forall|t: Seq<char>| after@.contains_key(t) implies #[trigger] after@[t]
                == before@.insert(term@, list@)[t] by {
                if t != term@ {
                    assert(before.index@.contains_key(t));
                }
            }
            assert(after@ =~= before@.insert(term@, list@));
        }
    }

    /// Puts `list` in the place of the list at place `i`.
    fn replace(&mut self, i: usize, list: MemPostingList)
        requires
            old(self).wf(),
            i < old(self).keys().len(),
            sorted_list(list@),
        ensures
            final(self).wf(),
            final(self)@ == old(self)@.insert(old(self).keys()[i as int], list@),
            final(self).keys() == old(self).keys(),
    {
        let ghost before = *self;
        let entry = &mut self.entries[i];
        entry.list = list;
        proof {
            let after = *self;
            let term = before.keys()[i as int];
            assert(before.entries@[i as int].term@ == term);
            assert(after.keys() =~= before.keys());
            assert forall|k: int| #![trigger after.entries@[k]]
                0 <= k < after.entries@.len() implies after.entries@[k].term@
                == before.entries@[k].term@ by {}
            assert forall|t: Seq<char>| after@.contains_key(t) implies #[trigger] after@[t]
                == before@.insert(term, list@)[t] by {
                if t != term {
                    assert(before.index@.contains_key(t));
                    assert(before.index@[t] != i);
                }
            }
            assert(after@ =~= before@.insert(term, list@));
        }
    }

    /// Sets the postings of a term.
    pub fn insert(&mut self, term: String, list: MemPostingList)
        requires
            old(self).wf(),
            sorted_list(list@),
        ensures
            final(self).wf(),
            final(self)@ == old(self)@.insert(term@, list@),
    {
        match self.index.get(term.as_str()) {
            Some(i) => {
                let i: usize = *i;
                assert(self.keys()[i as int] == term@);
                self.replace(i, list);
            },
            None => {
                self.add_new(term, list);
            },
        }
    }

    /// Takes the list at place `i` out, leaving an empty one.
    fn take(&mut self, i: usize) -> (l: MemPostingList)
        requires
            old(self).wf(),
            i < old(self).keys().len(),
        ensures
            final(self).wf(),
            final(self)@ == old(self)@.insert(old(self).keys()[i as int], Seq::empty()),
            final(self).keys() == old(self).keys(),
            l@ == old(self)@[old(self).keys()[i as int]],
            sorted_list(l@),
    {
        let ghost before = *self;
        let mut l = MemPostingList::default();
        let entry = &mut self.entries[i];
        core::mem::swap(&mut l, &mut entry.list);
        proof {
            let after = *self;
            let term = before.keys()[i as int];
            assert(before.entries@[i as int].term@ == term);
            assert(before@.contains_key(term));
            assert(after.keys() =~= before.keys());
            assert forall|k: int| #![trigger after.entries@[k]]
                0 <= k < after.entries@.len() implies after.entries@[k].term@
                == before.entries@[k].term@ by {}
            assert forall|t: Seq<char>| after@.contains_key(t) implies #[trigger] after@[t]
                == before@.insert(term, Seq::empty())[t] by {
                if t != term {
                    assert(before.index@.contains_key(t));
                    assert(before.index@[t] != i);
                }
            }
            assert(after@ =~= before@.insert(term, Seq::empty()));
        }
        l
    }

    /// Records a position of a term in a document.
    pub fn push(&mut self, term: &str, doc: DocId, position: Position)
        requires
            old(self).wf(),
            pushable(list_at(old(self)@, term@), doc, position),
        ensures
            final(self).wf(),
            final(self)@ == old(self)@.insert(
                term@,
                pushed(list_at(old(self)@, term@), doc, position),
            ),
    {
        match self.index.get(term) {
            Some(i) => {
                let i: usize = *i;
                assert(self.keys()[i as int] == term@);
                assert(self@.contains_key(term@));
                let mut list = self.take(i);
                list.push(doc, position);
                self.replace(i, list);
                assert(self@ =~= old(self)@.insert(term@, list@));
            },
            None => {
                assert(!self@.contains_key(term@));
                let mut list = MemPostingList::default();
                list.push(doc, position);
                self.add_new(term.to_string(), list);
            },
        }
    }

    /// Appends a list to the list of a term where that keeps documents and positions in
    /// order.
    pub fn try_append(&mut self, term: &str, list: MemPostingList) -> (r: bool)
        requires
            old(self).wf(),
            sorted_list(list@),
        ensures
            final(self).wf(),
            match extended(list_at(old(self)@, term@), list@) {
                Some(l) => r && final(self)@ == old(self)@.insert(term@, l),
                None => !r && final(self)@ == old(self)@,
            },
    {
        match self.index.get(term) {
            Some(i) => {
                let i: usize = *i;
                assert(self.keys()[i as int] == term@);
                assert(self@.contains_key(term@));
                let mut all = self.take(i);
                let r = all.try_append(list);
                self.replace(i, all);
                assert(self@ =~= old(self)@.insert(term@, all@));
                assert(!r ==> self@ =~= old(self)@);
                r
            },
            None => {
                assert(!self@.contains_key(term@));
                self.add_new(term.to_string(), list);
                assert(list@ =~= Seq::empty() + list@);
                true
            },
        }
    }

    /// Appends a list to the list of a term.
    fn append(&mut self, term: &str, list: MemPostingList)
        requires
            old(self).wf(),
            sorted_list(list@),
            before(list_at(old(self)@, term@), list@),
        ensures
            final(self).wf(),
            final(self)@ == old(self)@.insert(term@, list_at(old(self)@, term@) + list@),
    {
        match self.index.get(term) {
            Some(i) => {
                let i: usize = *i;
                assert(self.keys()[i as int] == term@);
                assert(self@.contains_key(term@));
                let mut all = self.take(i);
                all.append(list);
                self.replace(i, all);
                assert(self@ =~= old(self)@.insert(term@, all@));
            },
            None => {
                assert(!self@.contains_key(term@));
                self.add_new(term.to_string(), list);
                assert(list@ =~= Seq::empty() + list@);
            },
        }
    }

    /// Appends every list of `shard` to the list of its term.
    fn absorb(&mut self, shard: TermMap)
        requires
            old(self).wf(),
            shard.wf(),
            all_before(old(self)@, shard@),
        ensures
            final(self).wf(),
            final(self)@ == merged(old(self)@, shard@),
    {
        let ghost start = self@;
        let ghost all = shard@;
        let ghost keys = shard.keys();
        let mut shard = shard;
        proof {
            shard.lemma_keys();
        }
        let mut i: usize = 0;
        assert(self@ =~= merged_upto(start, all, keys, 0));
        while i < shard.entries.len()
            invariant
                self.wf(),
                shard.wf(),
                shard.keys() == keys,
                keys.no_duplicates(),
                all_before(start, all),
                forall|t: Seq<char>| #[trigger] keys.contains(t) <==> all.contains_key(t),
                forall|k: int| i <= k < keys.len() ==> shard@[#[trigger] keys[k]] == all[keys[k]],
                i <= keys.len(),
                self@ == merged_upto(start, all, keys, i as int),
            decreases keys.len() - i,
        {
            let ghost had = self@;
            assert(keys.contains(keys[i as int]));
            let list = shard.take(i);
            let term: String = shard.entries[i].term.clone();
            assert(term@ == keys[i as int]);
            assert(list_at(had, term@) == list_at(start, term@));
            self.append(term.as_str(), list);
            assert(self@ =~= merged_upto(start, all, keys, i + 1)) by {
                assert(had.contains_key(term@) ==> start.contains_key(term@));
                let next = merged_upto(start, all, keys, i + 1);
                assert forall|t: Seq<char>| self@.contains_key(t) == #[trigger] next.contains_key(
                    t,
                ) && (self@.contains_key(t) ==> self@[t] == next[t]) by {
                    if t == term@ {
                        assert(among(keys, i + 1, t));
                    } else {
                        assert(among(keys, i + 1, t) == among(keys, i as int, t));
                    }
                }
            }
            i = i + 1;
        }
        assert(self@ =~= merged(start, all)) by {
            assert forall|t: Seq<char>| all.contains_key(t) implies among(
                keys,
                keys.len() as int,
                t,
            ) by {
                assert(keys.contains(t));
            }
        }
    }
}

/// The term is among the first `n`.
spec fn among(keys: Seq<Seq<char>>, n: int, t: Seq<char>) -> bool {
    exists|k: int| 0 <= k < n && keys[k] == t
}

/// `a` with the lists of the first `n` terms of `b` appended.
spec fn merged_upto(
    a: Map<Seq<char>, Seq<(u32, Seq<u32>)>>,
    b: Map<Seq<char>, Seq<(u32, Seq<u32>)>>,
    keys: Seq<Seq<char>>,
    n: int,
) -> Map<Seq<char>, Seq<(u32, Seq<u32>)>> {
    Map::new(
        |t: Seq<char>| a.contains_key(t) || among(keys, n, t),
        |t: Seq<char>|
            if among(keys, n, t) {
                list_at(a, t) + list_at(b, t)
            } else {
                a[t]
            },
    )
}

/// The number of postings of the first `n` terms.
pub open spec fn postings_upto(
    m: Map<Seq<char>, Seq<(u32, Seq<u32>)>>,
    keys: Seq<Seq<char>>,
    n: int,
) -> nat
    decreases n,
{
    if n <= 0 {
        0
    } else {
        postings_upto(m, keys, n - 1) + m[keys[n - 1]].len()
    }
}

/// The bytes that the first `n` terms and their lists take at least.
pub open spec fn held_upto(
    m: Map<Seq<char>, Seq<(u32, Seq<u32>)>>,
    keys: Seq<Seq<char>>,
    n: int,
) -> int
    decreases n,
{
    if n <= 0 {
        0
    } else {
        held_upto(m, keys, n - 1) + encode_utf8(keys[n - 1]).len() + in_use(
            m[keys[n - 1]],
            m[keys[n - 1]].len() as int,
        )
    }
}

proof fn lemma_held_grows(
    m: Map<Seq<char>, Seq<(u32, Seq<u32>)>>,
    keys: Seq<Seq<char>>,
    n: int,
)
    requires
        0 <= n,
    ensures
        held_upto(m, keys, n) >= 0,
    decreases n,
{
    if n > 0 {
        lemma_held_grows(m, keys, n - 1);
    }
}

/// The bytes that a term and its list take at least.
pub open spec fn term_bytes(m: Map<Seq<char>, Seq<(u32, Seq<u32>)>>, t: Seq<char>) -> nat {
    (encode_utf8(t).len() + in_use(m[t], m[t].len() as int)) as nat
}

/// The bytes that all terms and their lists take at least.
pub open spec fn bytes_in_use(m: Map<Seq<char>, Seq<(u32, Seq<u32>)>>) -> nat
    decreases m.dom().len(),
    when m.dom().finite()
{
    if m.dom().len() == 0 {
        0
    } else {
        let t = m.dom().choose();
        term_bytes(m, t) + bytes_in_use(m.remove(t))
    }
}

/// Any term can be counted first.
proof fn lemma_bytes_in_use(m: Map<Seq<char>, Seq<(u32, Seq<u32>)>>, t: Seq<char>)
    requires
        m.dom().finite(),
        m.contains_key(t),
    ensures
        bytes_in_use(m) == term_bytes(m, t) + bytes_in_use(m.remove(t)),
    decreases m.dom().len(),
{
    let c = m.dom().choose();
    if c != t {
        lemma_bytes_in_use(m.remove(c), t);
        assert(m.remove(c).dom().len() < m.dom().len());
        lemma_bytes_in_use(m.remove(t), c);
        assert(m.remove(c).remove(t) =~= m.remove(t).remove(c));
    }
}

/// The order of the terms does not matter.
proof fn lemma_held_in_use(
    m: Map<Seq<char>, Seq<(u32, Seq<u32>)>>,
    keys: Seq<Seq<char>>,
    n: int,
)
    requires
        m.dom().finite(),
        keys.no_duplicates(),
        0 <= n <= keys.len(),
        forall|i: int| 0 <= i < n ==> m.contains_key(#[trigger] keys[i]),
        forall|t: Seq<char>| #[trigger]
            m.contains_key(t) ==> exists|i: int| 0 <= i < n && #[trigger] keys[i] == t,
    ensures
        held_upto(m, keys, n) == bytes_in_use(m),
    decreases n,
{
    if n == 0 {
        assert(m.dom() =~= Set::empty()) by {
            assert forall|t: Seq<char>| !m.dom().contains(t) by {
                if m.contains_key(t) {
                    let i = choose|i: int| 0 <= i < n && #[trigger] keys[i] == t;
                }
            }
        }
    } else {
        let t = keys[n - 1];
        let rest = m.remove(t);
        lemma_bytes_in_use(m, t);
        assert forall|x: Seq<char>| #[trigger] rest.contains_key(x) implies exists|i: int|
            0 <= i < n - 1 && #[trigger] keys[i] == x by {
            assert(m.contains_key(x));
            let i = choose|i: int| 0 <= i < n && #[trigger] keys[i] == x;
            assert(i != n - 1);
        }
        lemma_held_in_use(rest, keys, n - 1);
        lemma_held_same(m, rest, keys, n - 1);
    }
}

proof fn lemma_held_same(
    a: Map<Seq<char>, Seq<(u32, Seq<u32>)>>,
    b: Map<Seq<char>, Seq<(u32, Seq<u32>)>>,
    keys: Seq<Seq<char>>,
    n: int,
)
    requires
        forall|i: int| 0 <= i < n ==> a[#[trigger] keys[i]] == b[keys[i]],
    ensures
        held_upto(a, keys, n) == held_upto(b, keys, n),
    decreases n,
{
    if n > 0 {
        lemma_held_same(a, b, keys, n - 1);
        assert(a[keys[n - 1]] == b[keys[n - 1]]);
    }
}

/// What may be reserved for a term store: room for its entries and, term by term in
/// some order, for the term and by its list.
pub ghost struct StoreRoom {
    pub keys: Seq<Seq<char>>,
    pub slots: usize,
    pub terms: Seq<usize>,
    pub lists: Seq<usize>,
}

/// This may be reserved for a store of these lists.
pub open spec fn store_room(m: Map<Seq<char>, Seq<(u32, Seq<u32>)>>, r: StoreRoom) -> bool {
    &&& r.keys.no_duplicates()
    &&& forall|t: Seq<char>| #[trigger] r.keys.contains(t) <==> m.contains_key(t)
    &&& has_room(r.slots, r.keys.len(), size_of::<TermEntry>())
    &&& r.terms.len() == r.keys.len()
    &&& r.lists.len() == r.keys.len()
    &&& forall|i: int|
        0 <= i < r.keys.len() ==> has_room(
            #[trigger] r.terms[i],
            encode_utf8(r.keys[i]).len(),
            1,
        )
    &&& forall|i: int| 0 <= i < r.keys.len() ==> list_heap(m[r.keys[i]], #[trigger] r.lists[i])
}

/// The bytes of a store with room for so many entries, where its terms have room for
/// so many bytes and its lists account for so many.
pub open spec fn store_heap_for(slots: usize, terms: Seq<usize>, lists: Seq<usize>) -> int {
    capped(
        size_of::<MemTermStore>() + slots * size_of::<TermEntry>() + sum_all(terms) + sum_all(lists),
    )
}

/// A store of these lists may account for `n` bytes: those of what may be reserved
/// for it.
pub open spec fn store_heap(m: Map<Seq<char>, Seq<(u32, Seq<u32>)>>, n: usize) -> bool {
    exists|r: StoreRoom| #[trigger]
        store_room(m, r) && n == store_heap_for(r.slots, r.terms, r.lists)
}

/// The bytes of a store with room for so many entries, where its terms have room for
/// so many bytes and its lists account for so many.
pub fn store_heap_of(slots: usize, terms: &[usize], lists: &[usize]) -> (r: usize)
    ensures
        r == store_heap_for(slots, terms@, lists@),
{
    assert(slots * size_of::<TermEntry>() >= 0) by (nonlinear_arith);
    let own: usize = core::mem::size_of::<MemTermStore>();
    own.saturating_add(product(slots, core::mem::size_of::<TermEntry>())).saturating_add(
        sum_up(terms),
    ).saturating_add(sum_up(lists))
}

proof fn lemma_terms_cover(m: Map<Seq<char>, Seq<(u32, Seq<u32>)>>, r: StoreRoom, n: int)
    requires
        store_room(m, r),
        0 <= n <= r.keys.len(),
    ensures
        total(r.terms, n) + total(r.lists, n) >= capped(held_upto(m, r.keys, n)),
    decreases n,
{
    if n > 0 {
        lemma_terms_cover(m, r, n - 1);
        lemma_held_grows(m, r.keys, n - 1);
        lemma_list_heap(m[r.keys[n - 1]], r.lists[n - 1]);
        assert(has_room(r.terms[n - 1], encode_utf8(r.keys[n - 1]).len(), 1));
    }
}

/// What a store accounts for covers what its terms and lists take.
pub proof fn lemma_store_heap(m: Map<Seq<char>, Seq<(u32, Seq<u32>)>>, n: usize)
    requires
        m.dom().finite(),
        store_heap(m, n),
    ensures
        n >= capped(bytes_in_use(m) as int),
{
    let r = choose|r: StoreRoom| #[trigger]
        store_room(m, r) && n == store_heap_for(r.slots, r.terms, r.lists);
    let keys = r.keys;
    assert forall|t: Seq<char>| #[trigger] m.contains_key(t) implies exists|i: int|
        0 <= i < keys.len() && #[trigger] keys[i] == t by {
        assert(keys.contains(t));
    }
    assert forall|i: int| 0 <= i < keys.len() implies m.contains_key(#[trigger] keys[i]) by {
        assert(keys.contains(keys[i]));
    }
    lemma_held_in_use(m, keys, keys.len() as int);
    lemma_terms_cover(m, r, keys.len() as int);
    assert(r.slots * size_of::<TermEntry>() >= 0) by (nonlinear_arith);
}

/// The in-memory term store.
pub struct MemTermStore {
    terms: TermMap,
}

impl View for MemTermStore {
    type V = Map<Seq<char>, Seq<(u32, Seq<u32>)>>;

    closed spec fn view(&self) -> Map<Seq<char>, Seq<(u32, Seq<u32>)>> {
        self.terms@
    }
}

impl Default for MemTermStore {
    fn default() -> (r: Self)
        ensures
            r.wf(),
            r@ == Map::<Seq<char>, Seq<(u32, Seq<u32>)>>::empty(),
    {
        MemTermStore { terms: TermMap::new() }
    }
}

impl MemTermStore {
    pub closed spec fn wf(&self) -> bool {
        self.terms.wf()
    }

    /// The terms, each once, in the order of [`MemTermStore::iter`].
    pub closed spec fn keys(&self) -> Seq<Seq<char>> {
        self.terms.keys()
    }

    pub proof fn lemma_keys(&self)
        requires
            self.wf(),
        ensures
            forall|t: Seq<char>| #[trigger] self.keys().contains(t) <==> self@.contains_key(t),
            self.keys().no_duplicates(),
            all_sorted(self@),
            self@.dom().finite(),
            self@.dom().len() == self.keys().len(),
    {
        self.terms.lemma_keys();
    }

    /// All terms with their lists.
    pub fn iter(&self) -> (v: Vec<(&str, &MemPostingList)>)
        requires
            self.wf(),
        ensures
            v@.len() == self.keys().len(),
            forall|i: int|
                #![trigger v@[i]]
                0 <= i < v@.len() ==> v@[i].0@ == self.keys()[i] && v@[i].1@
                    == self@[self.keys()[i]] && sorted_list(v@[i].1@),
    {
        let mut v: Vec<(&str, &MemPostingList)> = Vec::new();
        let mut i: usize = 0;
        while i < self.terms.len()
            invariant
                self.wf(),
                i <= self.keys().len(),
                v@.len() == i,
                forall|k: int|
                    #![trigger v@[k]]
                    0 <= k < i ==> v@[k].0@ == self.keys()[k] && v@[k].1@ == self@[self.keys()[k]]
                        && sorted_list(v@[k].1@),
            decreases self.keys().len() - i,
        {
            v.push((self.terms.term(i), self.terms.list(i)));
            i = i + 1;
        }
        v
    }

    /// Total number of postings, up to the largest number there is.
    pub fn total_postings(&self) -> (n: u64)
        requires
            self.wf(),
        ensures
            n == if postings_upto(self@, self.keys(), self.keys().len() as int) <= u64::MAX {
                postings_upto(self@, self.keys(), self.keys().len() as int) as int
            } else {
                u64::MAX as int
            },
    {
        let mut n: u64 = 0;
        let mut i: usize = 0;
        while i < self.terms.len()
            invariant
                self.wf(),
                i <= self.keys().len(),
                n == if postings_upto(self@, self.keys(), i as int) <= u64::MAX {
                    postings_upto(self@, self.keys(), i as int) as int
                } else {
                    u64::MAX as int
                },
            decreases self.keys().len() - i,
        {
            let own: u64 = self.terms.list(i).as_slice().len() as u64;
            n = n.saturating_add(own);
            i = i + 1;
        }
        n
    }

    /// Folds a shard in. Shards must come in ascending document order, so that
    /// each list stays sorted by plain append.
    pub fn merge_shard(&mut self, shard: TermMap)
        requires
            old(self).wf(),
            shard.wf(),
            all_before(old(self)@, shard@),
        ensures
            final(self).wf(),
            final(self)@ == merged(old(self)@, shard@),
    {
        if self.terms.is_empty() {
            proof {
                self.terms.lemma_keys();
                assert(!exists|t: Seq<char>| self@.contains_key(t)) by {
                    assert forall|t: Seq<char>| !self@.contains_key(t) by {
                        assert(!self.keys().contains(t));
                    }
                }
                assert(shard@ =~= merged(self@, shard@)) by {
                    assert forall|t: Seq<char>| list_at(self@, t) + list_at(shard@, t)
                        == #[trigger] list_at(shard@, t) by {
                        assert(Seq::<(u32, Seq<u32>)>::empty() + list_at(shard@, t) =~= list_at(
                            shard@,
                            t,
                        ));
                    }
                }
            }
            self.terms = shard;
            return;
        }
        self.terms.absorb(shard);
    }

    /// Posting list of a lowercased term.
    pub fn get(&self, term: &str) -> (r: Option<&MemPostingList>)
        requires
            self.wf(),
        ensures
            match r {
                Some(l) => self@.contains_key(term@) && l@ == self@[term@] && sorted_list(l@),
                None => !self@.contains_key(term@),
            },
    {
        self.terms.get(term)
    }

    /// Number of unique terms.
    pub fn term_count(&self) -> (n: usize)
        requires
            self.wf(),
        ensures
            n == self@.dom().len(),
            n == self.keys().len(),
    {
        proof {
            self.terms.lemma_keys();
        }
        self.terms.len()
    }

    /// Accounted heap: the entry table plus every term's and every list's own heap,
    /// summed by [`store_heap_of`].
    pub fn memory_bytes(&self) -> (n: usize)
        requires
            self.wf(),
        ensures
            store_heap(self@, n),
    {
        let slots: usize = capacity_of(&self.terms.entries);
        let mut terms: Vec<usize> = Vec::new();
        let mut lists: Vec<usize> = Vec::new();
        let mut i: usize = 0;
        while i < self.terms.len()
            invariant
                self.wf(),
                i <= self.keys().len(),
                terms@.len() == i,
                lists@.len() == i,
                forall|k: int|
                    0 <= k < i ==> has_room(
                        #[trigger] terms@[k],
                        encode_utf8(self.keys()[k]).len(),
                        1,
                    ),
                forall|k: int|
                    0 <= k < i ==> list_heap(self@[self.keys()[k]], #[trigger] lists@[k]),
            decreases self.keys().len() - i,
        {
            terms.push(text_capacity(&self.terms.entries[i].term));
            lists.push(self.terms.list(i).heap_bytes());
            i = i + 1;
        }
        proof {
            self.lemma_keys();
            let r = StoreRoom { keys: self.keys(), slots, terms: terms@, lists: lists@ };
            assert(store_room(self@, r));
        }
        store_heap_of(slots, terms.as_slice(), lists.as_slice())
    }
}

impl<'a> TermStore for &'a MemTermStore {
    type List = &'a MemPostingList;

    open spec fn wf(&self) -> bool {
        (**self).wf()
    }

    open spec fn lookup(&self, term: Seq<char>) -> Option<(Seq<Entry>, u32)> {
        if (**self)@.contains_key(term) {
            let list = (**self)@[term];
            Some((entries_of(list), list.len() as u32))
        } else {
            None
        }
    }

    open spec fn count(&self) -> nat {
        (**self)@.dom().len()
    }

    open spec fn accounts_for(&self, n: usize) -> bool {
        store_heap((**self)@, n)
    }

    fn get(&self, term: &str) -> (r: Option<&'a MemPostingList>) {
        MemTermStore::get(*self, term)
    }

    fn term_count(&self) -> (n: usize) {
        MemTermStore::term_count(*self)
    }

    fn memory_bytes(&self) -> (n: usize) {
        MemTermStore::memory_bytes(*self)
    }
}

} // verus!
