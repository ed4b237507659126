//! Document numbers and the document table.
//!
//! The table is sparse: a number may have no entry. Updates tombstone and
//! append, so holes are the normal, permanent state. Use [`DocTable::iter`] or
//! [`DocTable::get`], never a range up to [`DocTable::len`].

use vstd::arithmetic::mul::lemma_mul_inequality;
use vstd::layout::size_of;
use vstd::prelude::*;
use vstd::utf8::encode_utf8;

use super::reserve::{capacity_of, capped, has_room, product, sum_all, sum_up, text_capacity, total};
use super::postings::DocId;
use crate::crawler::FileEntry;

verus! {

/// What became of a document.
#[derive(Debug, Clone, Copy, PartialEq, Eq, Structural)]
pub enum DocStatus {
    /// Read and tokenized; postings are there.
    Indexed,
    /// Crawled but not indexed: not readable, or not UTF-8. Recorded so that the
    /// failure is visible; left out of ranking statistics.
    Skipped,
    /// Not text; never read.
    Binary,
    /// Over the size limit; never read.
    TooLarge,
}

impl DocStatus {
    /// Whether the file's bytes were read, so that its hash means something.
    pub fn was_read(self) -> (r: bool)
        ensures
            r == (self == DocStatus::Indexed || self == DocStatus::Skipped),
    {
        matches!(self, DocStatus::Indexed | DocStatus::Skipped)
    }
}

/// What is known of one document.
#[derive(Debug)]
pub struct DocMeta {
    /// Path of the file.
    pub path: String,
    pub inode: u64,
    /// Modification time in nanoseconds since the epoch.
    pub mtime: i64,
    pub size: u64,
    /// Length in atoms; zero unless indexed.
    pub len: u32,
    pub status: DocStatus,
    /// Hash of the raw bytes; zero where they were never read. Tells a file
    /// rewritten with the same content from a real change.
    pub content_hash: u64,
}

/// A [`DocMeta`] by value.
#[verifier::ext_equal]
pub ghost struct DocView {
    pub path: Seq<char>,
    pub inode: u64,
    pub mtime: i64,
    pub size: u64,
    pub len: u32,
    pub status: DocStatus,
    pub content_hash: u64,
}

impl View for DocMeta {
    type V = DocView;

    open spec fn view(&self) -> DocView {
        DocView {
            path: self.path@,
            inode: self.inode,
            mtime: self.mtime,
            size: self.size,
            len: self.len,
            status: self.status,
            content_hash: self.content_hash,
        }
    }
}

impl Clone for DocMeta {
    fn clone(&self) -> (r: Self)
        ensures
            r@ == self@,
    {
        DocMeta {
            path: self.path.clone(),
            inode: self.inode,
            mtime: self.mtime,
            size: self.size,
            len: self.len,
            status: self.status,
            content_hash: self.content_hash,
        }
    }
}

impl DocMeta {
    /// The entry of a crawled file that is not indexed yet.
    pub fn from_entry(e: FileEntry) -> (m: Self)
        ensures
            m@ == (DocView {
                path: e.path@,
                inode: e.inode,
                mtime: e.mtime,
                size: e.size,
                len: 0,
                status: DocStatus::Skipped,
                content_hash: 0,
            }),
    {
        DocMeta {
            path: e.path,
            inode: e.inode,
            mtime: e.mtime,
            size: e.size,
            len: 0,
            status: DocStatus::Skipped,
            content_hash: 0,
        }
    }
}

/// What a slot counts for.
pub open spec fn sum_of(s: Seq<Option<DocView>>, weight: spec_fn(Option<DocView>) -> nat) -> nat
    decreases s.len(),
{
    if s.len() == 0 {
        0
    } else {
        sum_of(s.drop_last(), weight) + weight(s.last())
    }
}

/// One for a document, whatever its status.
pub open spec fn as_live() -> spec_fn(Option<DocView>) -> nat {
    |d: Option<DocView>|
        if d is Some {
            1nat
        } else {
            0nat
        }
}

/// One for an indexed document.
pub open spec fn as_indexed() -> spec_fn(Option<DocView>) -> nat {
    |d: Option<DocView>|
        if d is Some && d->Some_0.status == DocStatus::Indexed {
            1nat
        } else {
            0nat
        }
}

/// Its length for an indexed document.
pub open spec fn as_len() -> spec_fn(Option<DocView>) -> nat {
    |d: Option<DocView>|
        if d is Some && d->Some_0.status == DocStatus::Indexed {
            d->Some_0.len as nat
        } else {
            0nat
        }
}

/// The bytes of a document's path.
pub open spec fn as_path_bytes() -> spec_fn(Option<DocView>) -> nat {
    |s: Option<DocView>|
        match s {
            Some(d) => encode_utf8(d.path).len(),
            None => 0,
        }
}

/// The bytes that the slots of a table and the paths in it take.
pub open spec fn table_bytes(s: Seq<Option<DocView>>) -> nat {
    s.len() * size_of::<Option<DocMeta>>() + sum_of(s, as_path_bytes())
}

/// What may be reserved for a table: room for its slots, and for the path in each.
pub open spec fn table_room(s: Seq<Option<DocView>>, slots: usize, paths: Seq<usize>) -> bool {
    &&& has_room(slots, s.len(), size_of::<Option<DocMeta>>())
    &&& paths.len() == s.len()
    &&& forall|i: int|
        0 <= i < s.len() ==> match s[i] {
            Some(d) => has_room(#[trigger] paths[i], encode_utf8(d.path).len(), 1),
            None => paths[i] == 0,
        }
}

/// The bytes of a table with room for so many slots and for paths of so many bytes.
pub open spec fn table_heap_for(slots: usize, paths: Seq<usize>) -> int {
    capped(slots * size_of::<Option<DocMeta>>() + sum_all(paths))
}

/// A table may account for `n` bytes: those of what may be reserved for it.
pub open spec fn table_heap(s: Seq<Option<DocView>>, n: usize) -> bool {
    exists|slots: usize, paths: Seq<usize>| #[trigger]
        table_room(s, slots, paths) && n == table_heap_for(slots, paths)
}

/// The bytes of a table with room for so many slots and for paths of so many bytes.
pub fn table_heap_of(slots: usize, paths: &[usize]) -> (r: usize)
    ensures
        r == table_heap_for(slots, paths@),
{
    assert(slots * size_of::<Option<DocMeta>>() >= 0) by (nonlinear_arith);
    product(slots, core::mem::size_of::<Option<DocMeta>>()).saturating_add(sum_up(paths))
}

proof fn lemma_paths_cover(s: Seq<Option<DocView>>, slots: usize, paths: Seq<usize>, n: int)
    requires
        table_room(s, slots, paths),
        0 <= n <= s.len(),
    ensures
        total(paths, n) >= sum_of(s.take(n), as_path_bytes()),
    decreases n,
{
    if n > 0 {
        lemma_paths_cover(s, slots, paths, n - 1);
        assert(s.take(n) =~= s.take(n - 1).push(s[n - 1]));
        lemma_sum_push(s.take(n - 1), s[n - 1], as_path_bytes());
        assert(paths[n - 1] >= as_path_bytes()(s[n - 1]));
    } else {
        assert(s.take(0) =~= Seq::empty());
    }
}

/// What a table accounts for covers what its slots and paths take.
pub proof fn lemma_table_heap(s: Seq<Option<DocView>>, n: usize)
    requires
        table_heap(s, n),
    ensures
        n >= capped(table_bytes(s) as int),
{
    let (slots, paths) = choose|slots: usize, paths: Seq<usize>| #[trigger]
        table_room(s, slots, paths) && n == table_heap_for(slots, paths);
    lemma_paths_cover(s, slots, paths, s.len() as int);
    assert(s.take(s.len() as int) =~= s);
    lemma_mul_inequality(s.len() as int, slots as int, size_of::<Option<DocMeta>>() as int);
}

proof fn lemma_sum_update(
    s: Seq<Option<DocView>>,
    i: int,
    v: Option<DocView>,
    weight: spec_fn(Option<DocView>) -> nat,
)
    requires
        0 <= i < s.len(),
    ensures
        sum_of(s.update(i, v), weight) + weight(s[i]) == sum_of(s, weight) + weight(v),
        weight(s[i]) <= sum_of(s, weight),
    decreases s.len(),
{
    let t = s.update(i, v);
    if i == s.len() - 1 {
        assert(t.drop_last() =~= s.drop_last());
    } else {
        assert(t.drop_last() =~= s.drop_last().update(i, v));
        lemma_sum_update(s.drop_last(), i, v, weight);
    }
}

proof fn lemma_sum_push(
    s: Seq<Option<DocView>>,
    v: Option<DocView>,
    weight: spec_fn(Option<DocView>) -> nat,
)
    ensures
        sum_of(s.push(v), weight) == sum_of(s, weight) + weight(v),
{
    assert(s.push(v).drop_last() =~= s);
}

proof fn lemma_sum_bounds(s: Seq<Option<DocView>>)
    ensures
        sum_of(s, as_indexed()) <= sum_of(s, as_live()) <= s.len(),
        sum_of(s, as_len()) <= sum_of(s, as_indexed()) * u32::MAX,
    decreases s.len(),
{
    if s.len() > 0 {
        lemma_sum_bounds(s.drop_last());
        let n = sum_of(s.drop_last(), as_indexed());
        assert((n + 1) * u32::MAX == n * u32::MAX + u32::MAX) by (nonlinear_arith);
    }
}

/// `s` with holes up to a length of `n`.
pub open spec fn padded(s: Seq<Option<DocView>>, n: int) -> Seq<Option<DocView>> {
    if s.len() >= n {
        s
    } else {
        s + Seq::new((n - s.len()) as nat, |i: int| None::<DocView>)
    }
}

/// Documents by number, with holes.
pub struct DocTable {
    slots: Vec<Option<DocMeta>>,
    live: u32,
    indexed: u32,
    total_len: u64,
}

pub open spec fn slot_view(s: Option<DocMeta>) -> Option<DocView> {
    match s {
        Some(m) => Some(m@),
        None => None,
    }
}

impl View for DocTable {
    type V = Seq<Option<DocView>>;

    closed spec fn view(&self) -> Seq<Option<DocView>> {
        Seq::new(self.slots@.len(), |i: int| slot_view(self.slots@[i]))
    }
}

impl Default for DocTable {
    fn default() -> (r: Self)
        ensures
            r.wf(),
            r@ == Seq::<Option<DocView>>::empty(),
    {
        let r = DocTable { slots: Vec::new(), live: 0, indexed: 0, total_len: 0 };
        assert(r@ =~= Seq::empty());
        r
    }
}

impl DocTable {
    /// The counters agree with the slots.
    pub closed spec fn wf(&self) -> bool {
        &&& self.slots@.len() <= u32::MAX
        &&& self.live == sum_of(self@, as_live())
        &&& self.indexed == sum_of(self@, as_indexed())
        &&& self.total_len == sum_of(self@, as_len())
    }

    pub proof fn lemma_wf(&self)
        requires
            self.wf(),
        ensures
            self@.len() <= u32::MAX,
    {
    }

    /// There is a document at `id`.
    pub open spec fn has(&self, id: DocId) -> bool {
        id < self@.len() && self@[id as int] is Some
    }

    /// An empty table.
    pub fn new() -> (r: Self)
        ensures
            r.wf(),
            r@ == Seq::<Option<DocView>>::empty(),
    {
        Self::default()
    }

    /// Replaces what is at `id` and corrects the counters.
    fn put(&mut self, id: DocId, meta: Option<DocMeta>) -> (r: Option<DocMeta>)
        requires
            old(self).wf(),
            id < old(self)@.len(),
        ensures
            final(self).wf(),
            final(self)@ == old(self)@.update(id as int, slot_view(meta)),
            slot_view(r) == old(self)@[id as int],
    {
        let i: usize = id as usize;
        let ghost was = self@;
        let ghost now = slot_view(meta);
        proof {
            lemma_sum_update(was, id as int, now, as_live());
            lemma_sum_update(was, id as int, now, as_indexed());
            lemma_sum_update(was, id as int, now, as_len());
            lemma_sum_bounds(was);
            lemma_sum_bounds(was.update(id as int, now));
            let n = sum_of(was.update(id as int, now), as_indexed());
            assert(n * u32::MAX <= u32::MAX * u32::MAX) by (nonlinear_arith)
                requires
                    n <= u32::MAX,
            ;
        }
        let (gained, more): (u32, u64) = weigh(&meta);
        let mut slot: Option<DocMeta> = meta;
        let place = &mut self.slots[i];
        core::mem::swap(place, &mut slot);
        assert(self@ =~= was.update(id as int, now));
        let (lost, less): (u32, u64) = weigh(&slot);
        if slot.is_some() {
            self.live = self.live - 1;
        }
        self.indexed = self.indexed - lost;
        self.total_len = self.total_len - less;
        if now_some(&self.slots[i]) {
            self.live = self.live + 1;
        }
        self.indexed = self.indexed + gained;
        self.total_len = self.total_len + more;
        slot
    }

    /// Inserts at `id`, growing the table with holes as needed. Numbers are
    /// never reused: the slot must be free.
    pub fn insert(&mut self, id: DocId, meta: DocMeta)
        requires
            old(self).wf(),
            id < u32::MAX,
            !old(self).has(id),
        ensures
            final(self).wf(),
            final(self)@ == padded(old(self)@, id + 1).update(id as int, Some(meta@)),
    {
        let i: usize = id as usize;
        let ghost was = self@;
        while self.slots.len() <= i
            invariant
                self.wf(),
                i == id,
                id < u32::MAX,
                was.len() <= self@.len() <= if was.len() > id {
                    was.len() as int
                } else {
                    id + 1
                },
                self@ =~= padded(was, self@.len() as int),
            decreases id + 1 - self@.len(),
        {
            let ghost had = self@;
            self.slots.push(None);
            assert(self@ =~= had.push(None));
            proof {
                lemma_sum_push(had, None, as_live());
                lemma_sum_push(had, None, as_indexed());
                lemma_sum_push(had, None, as_len());
            }
        }
        assert(self@ =~= padded(was, id + 1));
        let _ = self.put(id, Some(meta));
    }

    /// Records that `id` was tokenized to `len` atoms.
    pub fn mark_indexed(&mut self, id: DocId, len: u32)
        requires
            old(self).wf(),
            old(self).has(id),
        ensures
            final(self).wf(),
            final(self)@ == old(self)@.update(
                id as int,
                Some(
                    (DocView {
                        status: DocStatus::Indexed,
                        len,
                        ..old(self)@[id as int]->Some_0
                    }),
                ),
            ),
    {
        match self.put(id, None) {
            Some(m) => {
                let mut m: DocMeta = m;
                m.status = DocStatus::Indexed;
                m.len = len;
                let _ = self.put(id, Some(m));
                assert(self@ =~= old(self)@.update(id as int, Some(m@)));
            },
            None => {},
        }
    }

    /// Sets a status other than indexed; the hash is kept.
    pub fn set_status(&mut self, id: DocId, status: DocStatus)
        requires
            old(self).wf(),
            old(self).has(id),
            status != DocStatus::Indexed,
        ensures
            final(self).wf(),
            final(self)@ == ({
                let m = old(self)@[id as int]->Some_0;
                old(self)@.update(
                    id as int,
                    Some(
                        (DocView {
                            status,
                            len: if m.status == DocStatus::Indexed {
                                0
                            } else {
                                m.len
                            },
                            ..m
                        }),
                    ),
                )
            }),
    {
        match self.put(id, None) {
            Some(m) => {
                let mut m: DocMeta = m;
                if m.status == DocStatus::Indexed {
                    m.len = 0;
                }
                m.status = status;
                let _ = self.put(id, Some(m));
                assert(self@ =~= old(self)@.update(id as int, Some(m@)));
            },
            None => {},
        }
    }

    /// Records the hash of a document that was read; nothing where there is no
    /// such document.
    pub fn set_hash(&mut self, id: DocId, hash: u64)
        requires
            old(self).wf(),
        ensures
            final(self).wf(),
            final(self)@ == if old(self).has(id) {
                old(self)@.update(
                    id as int,
                    Some((DocView { content_hash: hash, ..old(self)@[id as int]->Some_0 })),
                )
            } else {
                old(self)@
            },
    {
        if (id as usize) < self.slots.len() {
            match self.put(id, None) {
                Some(m) => {
                    let mut m: DocMeta = m;
                    m.content_hash = hash;
                    let _ = self.put(id, Some(m));
                    assert(self@ =~= old(self)@.update(id as int, Some(m@)));
                },
                None => {
                    assert(self@ =~= old(self)@);
                },
            }
        }
    }

    /// Removes `id`, leaving a hole.
    pub fn remove(&mut self, id: DocId) -> (r: Option<DocMeta>)
        requires
            old(self).wf(),
        ensures
            final(self).wf(),
            slot_view(r) == if old(self).has(id) {
                old(self)@[id as int]
            } else {
                None
            },
            final(self)@ == if old(self).has(id) {
                old(self)@.update(id as int, None)
            } else {
                old(self)@
            },
    {
        if (id as usize) < self.slots.len() {
            let r = self.put(id, None);
            assert(!old(self).has(id) ==> self@ =~= old(self)@);
            r
        } else {
            None
        }
    }

    /// The document at `id`.
    pub fn get(&self, id: DocId) -> (r: Option<&DocMeta>)
        ensures
            match r {
                Some(m) => self.has(id) && self@[id as int] == Some(m@),
                None => !self.has(id),
            },
    {
        if (id as usize) < self.slots.len() {
            match &self.slots[id as usize] {
                Some(m) => Some(m),
                None => None,
            }
        } else {
            None
        }
    }

    /// Number of documents of any status.
    pub fn len(&self) -> (n: usize)
        requires
            self.wf(),
        ensures
            n == sum_of(self@, as_live()),
            n <= u32::MAX,
    {
        self.live as usize
    }

    /// Whether there is no document.
    pub fn is_empty(&self) -> (r: bool)
        requires
            self.wf(),
        ensures
            r == (sum_of(self@, as_live()) == 0),
    {
        self.live == 0
    }

    /// One past the highest number ever inserted.
    pub fn id_bound(&self) -> (n: DocId)
        requires
            self.wf(),
        ensures
            n == self@.len(),
    {
        self.slots.len() as DocId
    }

    /// Number of indexed documents.
    pub fn indexed_count(&self) -> (n: u32)
        requires
            self.wf(),
        ensures
            n == sum_of(self@, as_indexed()),
    {
        self.indexed
    }

    /// Total length in atoms of the indexed documents.
    pub fn total_len(&self) -> (n: u64)
        requires
            self.wf(),
        ensures
            n == sum_of(self@, as_len()),
    {
        self.total_len
    }

    /// Accounted heap: the slots plus every path's buffer, summed by
    /// [`table_heap_of`].
    pub fn heap_bytes(&self) -> (n: usize)
        ensures
            table_heap(self@, n),
    {
        let slots: usize = capacity_of(&self.slots);
        let mut paths: Vec<usize> = Vec::new();
        let mut i: usize = 0;
        while i < self.slots.len()
            invariant
                i <= self.slots@.len(),
                paths@.len() == i,
                forall|k: int|
                    0 <= k < i ==> match self@[k] {
                        Some(d) => has_room(#[trigger] paths@[k], encode_utf8(d.path).len(), 1),
                        None => paths@[k] == 0,
                    },
            decreases self.slots@.len() - i,
        {
            paths.push(
                match &self.slots[i] {
                    Some(m) => text_capacity(&m.path),
                    None => 0,
                },
            );
            i = i + 1;
        }
        assert(table_room(self@, slots, paths@));
        table_heap_of(slots, paths.as_slice())
    }

    /// The documents in order of their numbers, without the holes.
    pub fn iter(&self) -> (v: Vec<(DocId, &DocMeta)>)
        requires
            self.wf(),
        ensures
            listing(v@) == docs_upto(self@, self@.len() as int),
    {
        let mut v: Vec<(DocId, &DocMeta)> = Vec::new();
        let mut i: usize = 0;
        assert(listing(v@) =~= docs_upto(self@, 0));
        while i < self.slots.len()
            invariant
                self.slots@.len() <= u32::MAX,
                i <= self.slots@.len(),
                listing(v@) == docs_upto(self@, i as int),
            decreases self.slots@.len() - i,
        {
            let ghost had = v@;
            match &self.slots[i] {
                Some(m) => {
                    v.push((i as DocId, m));
                    assert(listing(v@) =~= listing(had).push((i as u32, m@)));
                },
                None => {},
            }
            i = i + 1;
        }
        v
    }
}

fn now_some(s: &Option<DocMeta>) -> (r: bool)
    ensures
        r == s is Some,
{
    s.is_some()
}

/// What a slot adds to the number and the length of the indexed documents.
fn weigh(s: &Option<DocMeta>) -> (r: (u32, u64))
    ensures
        r.0 == as_indexed()(slot_view(*s)),
        r.1 == as_len()(slot_view(*s)),
{
    match s {
        Some(m) => if m.status == DocStatus::Indexed {
            (1, m.len as u64)
        } else {
            (0, 0)
        },
        None => (0, 0),
    }
}

/// The documents with their numbers, by value.
pub open spec fn listing(v: Seq<(DocId, &DocMeta)>) -> Seq<(u32, DocView)> {
    Seq::new(v.len(), |i: int| (v[i].0, v[i].1@))
}

/// The documents below `n`, in order.
pub open spec fn docs_upto(s: Seq<Option<DocView>>, n: int) -> Seq<(u32, DocView)>
    decreases n,
{
    if n <= 0 {
        Seq::empty()
    } else {
        match s[n - 1] {
            Some(d) => docs_upto(s, n - 1).push(((n - 1) as u32, d)),
            None => docs_upto(s, n - 1),
        }
    }
}

} // verus!
