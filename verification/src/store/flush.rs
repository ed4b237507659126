//! Gathering indexed files into segments and serialising them.
//!
//! Shards are folded into one segment until it holds enough documents or takes
//! enough memory; then it is serialised and the next one starts.

use vstd::arithmetic::div_mod::{lemma_fundamental_div_mod, lemma_fundamental_div_mod_converse};
use vstd::prelude::*;
use vstd::utf8::encode_utf8;

use super::writer::{relative, relative_path};
use crate::crawler::FileEntry;
use crate::error::{Error, ErrorView, Result};
use crate::format::doc::{self, status_kind, DocIn, DocKind, DocTableView};
use crate::format::envelope::{crc32, sealed, Kind};
use crate::format::heap::{heap, heap_off, lemma_heap_prefix};
use crate::format::idx::{
    self, idx_body, kept, summary_of, IdxSummary, term_keys, term_views, write_fault, PostingSource,
    TermView,
};
use crate::format::manifest::SegmentEntry;
use crate::format::postings::{encode_postings, list_fault, list_view, posting_fault};
use crate::format::FormatErrorView;
use crate::index::builder::{
    all_below, all_from, capped64, content_views, contents_fit, doc_meta, doc_of, index_shard,
    lemma_shard_bounds, lemma_shards_join, outcomes_of, shard_terms, BuildConfig, Content,
    ContentView, Outcome, Shard,
};
use crate::index::doc_table::DocView;
use crate::index::memory::{
    all_sorted, before, list_at, merged, sorted_list, store_heap, MemPostingList, MemTermStore,
    Posting,
};
use crate::index::{DocId, DocMeta, DocStatus, Position};
use crate::order::{bytes_lt, lemma_total, strictly_ascending};
use crate::sort::{comes_before, lemma_order_is_permutation, order};
use crate::text::lemma_encode_injective;

verus! {

/// Postings by term.
pub type Lists = Map<Seq<char>, Seq<(u32, Seq<u32>)>>;

/// The local number of a document in a segment from `base` on.
pub open spec fn local_id(doc: u32, base: u32) -> u32 {
    if doc >= base {
        (doc - base) as u32
    } else {
        0
    }
}

/// A list under local numbers.
pub open spec fn rebased(list: Seq<(u32, Seq<u32>)>, base: u32) -> Seq<(u32, Seq<u32>)> {
    Seq::new(list.len(), |i: int| (local_id(list[i].0, base), list[i].1))
}

/// A posting list under the local numbers of its segment, for encoding.
pub struct Rebased<'a> {
    pub list: &'a MemPostingList,
    pub base: DocId,
}

impl<'a> PostingSource for Rebased<'a> {
    open spec fn list(&self) -> Seq<(u32, Seq<u32>)> {
        rebased(self.list@, self.base)
    }

    fn doc_freq(&self) -> (n: u32) {
        self.list.doc_freq()
    }

    fn encode(&self, out: &mut Vec<u8>, scratch: &mut Vec<u8>) -> (r: crate::format::Result<u64>) {
        let postings: &[Posting] = self.list.as_slice();
        let mut refs: Vec<(DocId, &[Position])> = Vec::new();
        let mut i: usize = 0;
        while i < postings.len()
            invariant
                i <= postings@.len(),
                refs@.len() == i,
                forall|k: int|
                    #![trigger refs@[k]]
                    0 <= k < i ==> refs@[k].0 == local_id(postings@[k].doc, self.base)
                        && refs@[k].1@ == postings@[k].positions@,
            decreases postings@.len() - i,
        {
            refs.push((postings[i].doc.saturating_sub(self.base), postings[i].positions.as_slice()));
            i = i + 1;
        }
        assert(list_view(refs@) =~= PostingSource::list(self));
        encode_postings(refs.as_slice(), out, scratch)
    }
}

/// The documents by value.
pub open spec fn doc_views(ds: Seq<DocMeta>) -> Seq<DocView> {
    Seq::new(ds.len(), |i: int| ds[i]@)
}

/// The crawled files after they were indexed.
pub open spec fn indexed_docs(files: Seq<FileEntry>, outcomes: Seq<Outcome>) -> Seq<DocView> {
    Seq::new(files.len(), |i: int| doc_of(files[i], outcomes[i]))
}

/// A segment of so many documents that takes so many bytes is large enough to be
/// written.
pub open spec fn full(docs: nat, memory: usize, cfg: BuildConfig) -> bool {
    docs >= cfg.docs_per_segment && docs >= 1 || memory >= cfg.segment_bytes
}

/// A segment of so many documents was found large enough, or was not, by the bytes
/// that its lists account for.
pub open spec fn found_full(docs: nat, lists: Lists, cfg: BuildConfig, r: bool) -> bool {
    exists|memory: usize| #[trigger]
        store_heap(lists, memory) && r == full(docs, memory, cfg)
}

/// Whether a segment is large enough to be written: it holds the configured
/// number of documents, or takes the configured number of bytes.
pub fn is_full(docs: usize, memory: usize, cfg: &BuildConfig) -> (r: bool)
    ensures
        r == full(docs as nat, memory, *cfg),
{
    let limit: usize = if cfg.docs_per_segment >= 1 {
        cfg.docs_per_segment
    } else {
        1
    };
    docs >= limit || memory >= cfg.segment_bytes
}

/// A segment in the making. Its postings carry global numbers.
pub struct SegmentAcc {
    base: DocId,
    docs: Vec<DocMeta>,
    store: MemTermStore,
    tokens: u64,
}

impl SegmentAcc {
    /// The number of the first document.
    pub closed spec fn first(&self) -> u32 {
        self.base
    }

    /// The documents, in order.
    pub closed spec fn held(&self) -> Seq<DocView> {
        doc_views(self.docs@)
    }

    /// The postings.
    pub closed spec fn lists(&self) -> Lists {
        self.store@
    }

    /// The number of tokens, up to the largest number there is.
    pub closed spec fn token_sum(&self) -> u64 {
        self.tokens
    }

    /// The postings are those of the segment's own documents.
    pub closed spec fn wf(&self) -> bool {
        &&& self.store.wf()
        &&& self.base + self.docs@.len() <= u32::MAX
        &&& all_from(self.store@, self.base as int)
        &&& all_below(self.store@, self.base + self.docs@.len())
    }

    /// What well-formedness says.
    pub proof fn lemma_wf(&self)
        requires
            self.wf(),
        ensures
            self.first() + self.held().len() <= u32::MAX,
            all_from(self.lists(), self.first() as int),
            all_below(self.lists(), self.first() + self.held().len()),
            all_sorted(self.lists()),
    {
        self.store.lemma_keys();
    }

    /// An empty segment whose first document will have the number `base`.
    pub fn new(base: DocId) -> (r: Self)
        ensures
            r.wf(),
            r.first() == base,
            r.held() == Seq::<DocView>::empty(),
            r.lists() == Lists::empty(),
            r.token_sum() == 0,
    {
        let r = SegmentAcc {
            base,
            docs: Vec::new(),
            store: MemTermStore::default(),
            tokens: 0,
        };
        assert(r.held() =~= Seq::<DocView>::empty());
        r
    }

    /// A segment of these documents, numbered from zero on, with these postings.
    pub fn from_parts(docs: Vec<DocMeta>, store: MemTermStore) -> (r: Self)
        requires
            store.wf(),
            docs@.len() <= u32::MAX,
            all_below(store@, docs@.len() as int),
        ensures
            r.wf(),
            r.first() == 0,
            r.held() == doc_views(docs@),
            r.lists() == store@,
    {
        SegmentAcc { base: 0, docs, store, tokens: 0 }
    }

    /// The number of documents.
    pub fn len(&self) -> (n: usize)
        ensures
            n == self.held().len(),
    {
        self.docs.len()
    }

    /// Folds in the next shard. `entries` are the files of the shard.
    pub fn absorb(&mut self, shard: Shard, entries: &[FileEntry])
        requires
            old(self).wf(),
            shard.first_doc == old(self).first() + old(self).held().len(),
            shard.outcomes@.len() == entries@.len(),
            shard.first_doc + entries@.len() <= u32::MAX,
            shard.terms.wf(),
            all_from(shard.terms@, shard.first_doc as int),
            all_below(shard.terms@, shard.first_doc + entries@.len()),
        ensures
            final(self).wf(),
            final(self).first() == old(self).first(),
            final(self).held() == old(self).held() + indexed_docs(entries@, shard.outcomes@),
            final(self).lists() == merged(old(self).lists(), shard.terms@),
            final(self).token_sum() == capped64((old(self).token_sum() + shard.tokens) as nat),
    {
        let ghost was = doc_views(self.docs@);
        let ghost old_lists = self.store@;
        let ghost new_lists = shard.terms@;
        let outcomes = shard.outcomes;
        let mut i: usize = 0;
        let ghost own = indexed_docs(entries@, outcomes@);
        assert(was + own.take(0) =~= was);
        while i < entries.len()
            invariant
                i <= entries@.len(),
                outcomes@.len() == entries@.len(),
                own == indexed_docs(entries@, outcomes@),
                doc_views(self.docs@) == was + own.take(i as int),
                self.docs@.len() == was.len() + i,
                self.base == old(self).base,
                self.store == old(self).store,
                self.tokens == old(self).tokens,
            decreases entries@.len() - i,
        {
            let ghost had = doc_views(self.docs@);
            let m = doc_meta(&entries[i], outcomes[i]);
            assert(m@ == own[i as int]);
            self.docs.push(m);
            i = i + 1;
            proof {
                assert(doc_views(self.docs@) =~= had.push(m@));
                assert(own.take(i as int) =~= own.take(i - 1).push(m@));
                assert(had.push(m@) =~= was + own.take(i as int));
            }
        }
        assert(own.take(i as int) =~= own);
        proof {
            self.store.lemma_keys();
            assert forall|t: Seq<char>|
                old_lists.contains_key(t) && #[trigger] new_lists.contains_key(t) implies before(
                old_lists[t],
                new_lists[t],
            ) by {
                if old_lists[t].len() > 0 && new_lists[t].len() > 0 {
                    assert(old_lists[t][old_lists[t].len() - 1].0 < shard.first_doc);
                    assert(new_lists[t][0].0 >= shard.first_doc);
                }
            }
        }
        self.tokens = self.tokens.saturating_add(shard.tokens);
        self.store.merge_shard(shard.terms);
        proof {
            lemma_merged_bounds(
                old_lists,
                new_lists,
                self.base as int,
                shard.first_doc as int,
                shard.first_doc + entries@.len(),
            );
        }
    }

    /// Whether the segment is large enough to be written.
    pub fn over_budget(&self, cfg: &BuildConfig) -> (r: bool)
        requires
            self.wf(),
        ensures
            found_full(self.held().len(), self.lists(), *cfg, r),
    {
        let memory: usize = self.store.memory_bytes();
        assert(store_heap(self.lists(), memory));
        is_full(self.docs.len(), memory, cfg)
    }
}

proof fn lemma_merged_bounds(a: Lists, b: Lists, lo: int, mid: int, hi: int)
    requires
        lo <= mid <= hi,
        all_from(a, lo),
        all_below(a, mid),
        all_from(b, mid),
        all_below(b, hi),
    ensures
        all_from(merged(a, b), lo),
        all_below(merged(a, b), hi),
{
    let m = merged(a, b);
    assert forall|t: Seq<char>| #[trigger] m.contains_key(t) implies forall|i: int|
        0 <= i < m[t].len() ==> lo <= (#[trigger] m[t][i]).0 < hi by {
        assert forall|i: int| 0 <= i < m[t].len() implies lo <= (#[trigger] m[t][i]).0 < hi by {
            if i < list_at(a, t).len() {
                assert(m[t][i] == list_at(a, t)[i]);
                assert(a.contains_key(t));
            } else {
                assert(m[t][i] == list_at(b, t)[i - list_at(a, t).len()]);
                assert(b.contains_key(t));
            }
        }
    }
}

/// The sorted dictionary of these postings, under local numbers.
pub open spec fn dictionary(ts: Seq<TermView>, m: Lists, base: u32) -> bool {
    &&& strictly_ascending(term_keys(ts))
    &&& forall|i: int|
        #![trigger ts[i]]
        0 <= i < ts.len() ==> exists|t: Seq<char>|
            #![trigger m[t]]
            m.contains_key(t) && ts[i].term == encode_utf8(t) && ts[i].list == rebased(m[t], base)
    &&& forall|t: Seq<char>| #[trigger]
        m.contains_key(t) ==> exists|i: int|
            0 <= i < ts.len() && (#[trigger] ts[i]).term == encode_utf8(t)
}

/// The documents as they are handed to the encoder.
pub open spec fn encodes(ds: Seq<DocIn<'_>>, docs: Seq<DocView>, root: Seq<char>) -> bool {
    &&& ds.len() == docs.len()
    &&& forall|i: int|
        #![trigger ds[i]]
        0 <= i < ds.len() ==> {
            &&& ds[i].path@ == relative(root, docs[i].path)
            &&& ds[i].inode == docs[i].inode
            &&& ds[i].mtime_nanos == docs[i].mtime
            &&& ds[i].size == docs[i].size
            &&& ds[i].len == docs[i].len
            &&& ds[i].kind == status_kind(docs[i].status)
            &&& ds[i].content_hash == docs[i].content_hash
        }
}

/// The paths of the documents below `root`.
pub open spec fn relative_paths(docs: Seq<DocView>, root: Seq<char>) -> Seq<Seq<char>> {
    Seq::new(docs.len(), |i: int| relative(root, docs[i].path))
}

/// A serialised segment: its files and its manifest entry.
#[derive(Debug)]
pub struct Flushed {
    pub entry: SegmentEntry,
    pub idx: Vec<u8>,
    pub doc: Vec<u8>,
}

/// The entry of a segment that was just written.
pub open spec fn fresh_entry(id: u32, base: u32, ts: Seq<TermView>, n: nat, doc: Seq<u8>, crc: u32) -> SegmentEntry {
    let s = summary_of(kept(ts));
    SegmentEntry {
        segment_id: id,
        del_gen: 0,
        base_doc: base,
        num_docs: n as u32,
        num_deleted: 0,
        idx_crc: s.crc,
        doc_crc: crc,
        del_crc: 0,
        idx_len: s.len,
        doc_len: doc.len() as u64,
        del_len: 0,
        num_tokens: s.num_tokens,
        num_postings: s.num_postings,
        num_terms: s.num_terms,
    }
}

impl Flushed {
    /// These are the files and the entry of a segment with these postings and
    /// documents.
    #[verifier::opaque]
    pub open spec fn is_of(
        &self,
        id: u32,
        base: u32,
        m: Lists,
        docs: Seq<DocView>,
        root: Seq<char>,
    ) -> bool {
        exists|ts: Seq<TermView>, ds: Seq<DocIn<'_>>|
            {
                &&& #[trigger] dictionary(ts, m, base)
                &&& #[trigger] encodes(ds, docs, root)
                &&& doc::doc_fault(ds, 0) is None
                &&& self.idx@ == sealed(Kind::Idx, idx_body(kept(ts)))
                &&& self.doc@ == sealed(Kind::Doc, doc::body_view(ds))
                &&& self.entry == fresh_entry(
                    id,
                    base,
                    ts,
                    docs.len(),
                    self.doc@,
                    crc32(doc::body_view(ds)),
                )
            }
    }
}

/// A sorted list stays one under local numbers.
pub proof fn lemma_rebased_sorted(list: Seq<(u32, Seq<u32>)>, base: u32, i: int)
    requires
        sorted_list(list),
        forall|k: int| 0 <= k < list.len() ==> (#[trigger] list[k]).0 >= base,
        0 <= i,
    ensures
        list_fault(rebased(list, base), i) is None,
    decreases list.len() - i,
{
    if i < list.len() {
        let r = rebased(list, base);
        assert(r[i] == (local_id(list[i].0, base), list[i].1));
        if i > 0 {
            assert(list[i - 1].0 < list[i].0);
            assert(r[i - 1] == (local_id(list[i - 1].0, base), list[i - 1].1));
        }
        assert(posting_fault(r, i) is None);
        lemma_rebased_sorted(list, base, i + 1);
    }
}

proof fn lemma_no_write_fault(ts: Seq<TermView>, i: int)
    requires
        0 <= i,
        forall|k: int| 0 <= k < ts.len() ==> list_fault((#[trigger] ts[k]).list, 0) is None,
    ensures
        write_fault(ts, i) is None,
    decreases ts.len() - i,
{
    if i < ts.len() {
        assert(list_fault(ts[i].list, 0) is None);
        lemma_no_write_fault(ts, i + 1);
    }
}

/// The terms of a store with their lists, sorted by bytes.
fn sorted_terms<'a>(store: &'a MemTermStore, base: DocId) -> (terms: Vec<(&'a str, Rebased<'a>)>)
    requires
        store.wf(),
        all_from(store@, base as int),
    ensures
        dictionary(term_views(terms@), store@, base),
        write_fault(term_views(terms@), 0) is None,
{
    let all = store.iter();
    let ghost names = store.keys();
    let mut keys: Vec<&[u8]> = Vec::new();
    let mut i: usize = 0;
    while i < all.len()
        invariant
            i <= all@.len(),
            keys@.len() == i,
            forall|k: int| 0 <= k < i ==> (#[trigger] keys@[k])@ == encode_utf8(all@[k].0@),
        decreases all@.len() - i,
    {
        keys.push(all[i].0.as_bytes());
        i = i + 1;
    }
    let places = order(keys.as_slice());
    let mut terms: Vec<(&'a str, Rebased<'a>)> = Vec::new();
    let mut i: usize = 0;
    while i < places.len()
        invariant
            i <= places@.len(),
            forall|k: int| 0 <= k < places@.len() ==> (#[trigger] places@[k]) < all@.len(),
            terms@.len() == i,
            forall|k: int|
                #![trigger terms@[k]]
                0 <= k < i ==> terms@[k].0 == all@[places@[k] as int].0 && terms@[k].1.list
                    == all@[places@[k] as int].1 && terms@[k].1.base == base,
        decreases places@.len() - i,
    {
        let (term, list) = all[places[i]];
        terms.push((term, Rebased { list, base }));
        i = i + 1;
    }
    proof {
        let ts = term_views(terms@);
        store.lemma_keys();
        lemma_order_is_permutation(keys@, places@);
        assert forall|i: int, j: int| 0 <= i < j < ts.len() implies bytes_lt(
            #[trigger] term_keys(ts)[i],
            #[trigger] term_keys(ts)[j],
        ) by {
            let (a, b) = (places@[i] as int, places@[j] as int);
            let (x, y) = (terms@[i], terms@[j]);
            assert(comes_before(keys@, a, b));
            assert(keys@[a]@ == encode_utf8(all@[a].0@));
            assert(keys@[b]@ == encode_utf8(all@[b].0@));
            assert(places@[i] != places@[j]);
            lemma_total(keys@[a]@, keys@[b]@);
            if keys@[a]@ == keys@[b]@ {
                lemma_encode_injective(all@[a].0@, all@[b].0@);
                assert(names[a] == names[b]);
            }
        }
        assert forall|i: int| #![trigger ts[i]] 0 <= i < ts.len() implies exists|t: Seq<char>|
            #![trigger store@[t]]
            store@.contains_key(t) && ts[i].term == encode_utf8(t) && ts[i].list == rebased(
                store@[t],
                base,
            ) by {
            let x = terms@[i];
            let a = places@[i] as int;
            let t = all@[a].0@;
            assert(names[a] == t);
            assert(names.contains(t));
            let l = store@[t];
            assert(ts[i].list == rebased(l, base));
        }
        assert forall|t: Seq<char>| #[trigger] store@.contains_key(t) implies exists|i: int|
            0 <= i < ts.len() && (#[trigger] ts[i]).term == encode_utf8(t) by {
            assert(names.contains(t));
            let a = choose|a: int| 0 <= a < names.len() && names[a] == t;
            assert(all@[a].0@ == t);
            assert(places@.contains(a as usize));
            let i = choose|i: int| 0 <= i < places@.len() && places@[i] == a as usize;
            let x = terms@[i];
            assert(ts[i].term == encode_utf8(t));
        }
        assert forall|k: int| 0 <= k < ts.len() implies list_fault((#[trigger] ts[k]).list, 0) is None by {
            let t = choose|t: Seq<char>|
                #![trigger store@[t]]
                store@.contains_key(t) && ts[k].term == encode_utf8(t) && ts[k].list == rebased(
                    store@[t],
                    base,
                );
            lemma_rebased_sorted(store@[t], base, 0);
        }
        lemma_no_write_fault(ts, 0);
    }
    terms
}

/// Why documents from `i` on cannot be stored, if they cannot.
pub open spec fn docs_fault(docs: Seq<DocView>, root: Seq<char>, i: int) -> Option<Seq<char>>
    decreases docs.len() - i,
{
    if i >= docs.len() {
        None
    } else if heap_off(relative_paths(docs, root), i + 1) > u32::MAX {
        Some("path heap exceeds 4 GiB"@)
    } else if docs[i].status != DocStatus::Indexed && docs[i].len != 0 {
        Some("non-indexed doc with non-zero length"@)
    } else {
        docs_fault(docs, root, i + 1)
    }
}

/// Documents cannot be stored, for this reason.
pub open spec fn unstorable(why: Option<Seq<char>>, e: ErrorView) -> bool {
    why matches Some(msg) && e == ErrorView::Format(FormatErrorView::Invariant(msg))
}

proof fn lemma_same_fault(ds: Seq<DocIn<'_>>, docs: Seq<DocView>, root: Seq<char>, i: int)
    requires
        encodes(ds, docs, root),
        0 <= i <= ds.len(),
    ensures
        doc::doc_fault(ds, i) == docs_fault(docs, root, i),
    decreases ds.len() - i,
{
    assert(doc::paths_of(ds) =~= relative_paths(docs, root));
    if i < ds.len() {
        let d = ds[i];
        lemma_same_fault(ds, docs, root, i + 1);
    }
}

/// Documents of the index step cannot be stored only where their paths take
/// more than 4 GiB.
proof fn lemma_clean_fault(files: Seq<FileEntry>, cs: Seq<ContentView>, root: Seq<char>, i: int)
    requires
        files.len() == cs.len(),
        0 <= i <= files.len(),
        heap_off(relative_paths(indexed_docs(files, outcomes_of(cs)), root), i) <= u32::MAX,
    ensures
        ({
            let docs = indexed_docs(files, outcomes_of(cs));
            docs_fault(docs, root, i) == if path_bytes(docs, root) > u32::MAX {
                Some("path heap exceeds 4 GiB"@)
            } else {
                None
            }
        }),
    decreases files.len() - i,
{
    let docs = indexed_docs(files, outcomes_of(cs));
    let paths = relative_paths(docs, root);
    if i < docs.len() {
        if heap_off(paths, i + 1) > u32::MAX {
            lemma_heap_prefix(paths, i + 1, docs.len() as int);
        } else {
            let d = docs[i];
            lemma_clean_fault(files, cs, root, i + 1);
        }
    }
}

/// The bytes of the paths of the documents.
pub open spec fn path_bytes(docs: Seq<DocView>, root: Seq<char>) -> nat {
    heap_off(relative_paths(docs, root), docs.len() as int)
}

/// The paths of a segment do not fit its document file.
pub open spec fn paths_too_long() -> ErrorView {
    ErrorView::Format(FormatErrorView::Invariant("path heap exceeds 4 GiB"@))
}

/// The document file of these documents and its checksum.
fn encode_docs(root: &str, docs: &Vec<DocMeta>) -> (r: Result<(Vec<u8>, u32)>)
    requires
        docs@.len() <= u32::MAX,
    ensures
        match r {
            Ok((doc, crc)) => docs_fault(doc_views(docs@), root@, 0) is None && exists|
                ds: Seq<DocIn<'_>>,
            | #[trigger] encodes(ds, doc_views(docs@), root@) && doc::doc_fault(ds, 0) is None
                && doc@ == sealed(Kind::Doc, doc::body_view(ds)) && crc == crc32(
                doc::body_view(ds),
            ),
            Err(e) => unstorable(docs_fault(doc_views(docs@), root@, 0), e@),
        },
{
    let mut rels: Vec<String> = Vec::new();
    let mut i: usize = 0;
    while i < docs.len()
        invariant
            i <= docs@.len(),
            rels@.len() == i,
            forall|k: int|
                0 <= k < i ==> (#[trigger] rels@[k])@ == relative(root@, docs@[k].path@),
        decreases docs@.len() - i,
    {
        rels.push(relative_path(root, docs[i].path.as_str()));
        i = i + 1;
    }
    let mut ds: Vec<DocIn<'_>> = Vec::new();
    let mut i: usize = 0;
    while i < docs.len()
        invariant
            i <= docs@.len(),
            rels@.len() == docs@.len(),
            forall|k: int|
                0 <= k < rels@.len() ==> (#[trigger] rels@[k])@ == relative(
                    root@,
                    docs@[k].path@,
                ),
            ds@.len() == i,
            forall|k: int|
                #![trigger ds@[k]]
                0 <= k < i ==> {
                    &&& ds@[k].path@ == relative(root@, docs@[k]@.path)
                    &&& ds@[k].inode == docs@[k].inode
                    &&& ds@[k].mtime_nanos == docs@[k].mtime
                    &&& ds@[k].size == docs@[k].size
                    &&& ds@[k].len == docs@[k].len
                    &&& ds@[k].kind == status_kind(docs@[k].status)
                    &&& ds@[k].content_hash == docs@[k].content_hash
                },
        decreases docs@.len() - i,
    {
        let m = &docs[i];
        ds.push(
            DocIn {
                path: rels[i].as_str(),
                inode: m.inode,
                mtime_nanos: m.mtime,
                size: m.size,
                len: m.len,
                kind: DocKind::from(m.status),
                content_hash: m.content_hash,
            },
        );
        i = i + 1;
    }
    proof {
        assert(encodes(ds@, doc_views(docs@), root@));
        lemma_same_fault(ds@, doc_views(docs@), root@, 0);
    }
    let doc = match doc::encode(ds.as_slice()) {
        Ok(doc) => doc,
        Err(e) => {
            return Err(Error::Format(e));
        },
    };
    assert(doc@.len() == doc.len());
    proof {
        doc::lemma_roundtrip(ds@);
    }
    let doc_crc: u32 = match DocTableView::parse(doc.as_slice()) {
        Ok(v) => v.crc(),
        Err(e) => {
            return Err(Error::Format(e));
        },
    };
    Ok((doc, doc_crc))
}

/// The index file of these postings and what was written.
fn encode_terms(store: &MemTermStore, base: DocId) -> (r: Option<(Vec<u8>, IdxSummary)>)
    requires
        store.wf(),
        all_from(store@, base as int),
    ensures
        r matches Some((idx, summary)) && exists|ts: Seq<TermView>| #[trigger]
            dictionary(ts, store@, base) && idx@ == sealed(Kind::Idx, idx_body(kept(ts)))
                && summary == summary_of(kept(ts)),
{
    let terms = sorted_terms(store, base);
    let ghost ts = term_views(terms@);
    match idx::write(Vec::new(), terms.as_slice()) {
        Ok((idx, summary)) => {
            assert(Seq::<u8>::empty() + sealed(Kind::Idx, idx_body(kept(ts))) =~= sealed(
                Kind::Idx,
                idx_body(kept(ts)),
            ));
            Some((idx, summary))
        },
        Err(_) => None,
    }
}

/// Serialises a segment. It fails only where its documents cannot be stored:
/// their paths take more than 4 GiB, or one that is not indexed has a length.
pub fn flush_segment(root: &str, segment_id: u32, acc: SegmentAcc) -> (r: Result<Flushed>)
    requires
        acc.wf(),
    ensures
        match r {
            Ok(f) => f.is_of(segment_id, acc.first(), acc.lists(), acc.held(), root@)
                && docs_fault(acc.held(), root@, 0) is None,
            Err(e) => unstorable(docs_fault(acc.held(), root@, 0), e@),
        },
{
    let (doc, doc_crc) = encode_docs(root, &acc.docs)?;
    let (idx, summary) = encode_terms(&acc.store, acc.base).unwrap();
    let entry = SegmentEntry {
        segment_id,
        del_gen: 0,
        base_doc: acc.base,
        num_docs: acc.docs.len() as u32,
        num_deleted: 0,
        idx_crc: summary.crc,
        doc_crc,
        del_crc: 0,
        idx_len: summary.len,
        doc_len: doc.len() as u64,
        del_len: 0,
        num_tokens: summary.num_tokens,
        num_postings: summary.num_postings,
        num_terms: summary.num_terms,
    };
    let f = Flushed { entry, idx, doc };
    proof {
        let ts = choose|ts: Seq<TermView>| #[trigger]
            dictionary(ts, acc.lists(), acc.first()) && f.idx@ == sealed(
                Kind::Idx,
                idx_body(kept(ts)),
            ) && summary == summary_of(kept(ts));
        let ds = choose|ds: Seq<DocIn<'_>>| #[trigger]
            encodes(ds, acc.held(), root@) && doc::doc_fault(ds, 0) is None && f.doc@ == sealed(
                Kind::Doc,
                doc::body_view(ds),
            ) && doc_crc == crc32(doc::body_view(ds));
        reveal(Flushed::is_of);
        assert(dictionary(ts, acc.lists(), acc.first()));
        assert(encodes(ds, acc.held(), root@));
        assert(f.entry == fresh_entry(
            segment_id,
            acc.first(),
            ts,
            acc.held().len(),
            f.doc@,
            crc32(doc::body_view(ds)),
        ));
    }
    Ok(f)
}

/// Cuts a stream of shards into segments.
pub struct SegmentBuilder {
    root: String,
    cfg: BuildConfig,
    acc: SegmentAcc,
    next_id: u32,
}

impl SegmentBuilder {
    pub closed spec fn wf(&self) -> bool {
        self.acc.wf()
    }

    /// The segment in the making.
    pub closed spec fn pending(&self) -> SegmentAcc {
        self.acc
    }

    /// The indexed root.
    pub closed spec fn root(&self) -> Seq<char> {
        self.root@
    }

    /// How segments are cut.
    pub closed spec fn config(&self) -> BuildConfig {
        self.cfg
    }

    /// The id of the next segment.
    pub closed spec fn next(&self) -> u32 {
        self.next_id
    }

    pub proof fn lemma_wf(&self)
        requires
            self.wf(),
        ensures
            self.pending().wf(),
    {
    }

    /// A builder whose first document will have the number `base` and whose
    /// first segment the id `next_id`.
    pub fn new(root: &str, cfg: &BuildConfig, base: DocId, next_id: u32) -> (r: Self)
        ensures
            r.wf(),
            r.root() == root@,
            r.config() == *cfg,
            r.next() == next_id,
            r.pending().first() == base,
            r.pending().held() == Seq::<DocView>::empty(),
            r.pending().lists() == Lists::empty(),
    {
        SegmentBuilder {
            root: root.to_string(),
            cfg: *cfg,
            acc: SegmentAcc::new(base),
            next_id,
        }
    }

    /// Folds in the next shard, whose files are `entries`. Gives back a segment
    /// once one is full.
    pub fn add_shard(&mut self, shard: Shard, entries: &[FileEntry]) -> (r: Result<Option<Flushed>>)
        requires
            old(self).wf(),
            old(self).next() < u32::MAX,
            shard.first_doc == old(self).pending().first() + old(self).pending().held().len(),
            shard.outcomes@.len() == entries@.len(),
            shard.first_doc + entries@.len() <= u32::MAX,
            shard.terms.wf(),
            all_from(shard.terms@, shard.first_doc as int),
            all_below(shard.terms@, shard.first_doc + entries@.len()),
        ensures
            final(self).root() == old(self).root(),
            final(self).config() == old(self).config(),
            ({
                let was = old(self).pending();
                let now = final(self).pending();
                let lists = merged(was.lists(), shard.terms@);
                let docs = was.held() + indexed_docs(entries@, shard.outcomes@);
                match r {
                    Ok(None) => final(self).wf() && final(self).next() == old(self).next()
                        && now.first() == was.first() && now.held() == docs && now.lists() == lists
                        && found_full(docs.len(), lists, old(self).config(), false),
                    Ok(Some(f)) => final(self).wf() && final(self).next() == old(self).next() + 1
                        && f.is_of(old(self).next(), was.first(), lists, docs, old(self).root())
                        && docs_fault(docs, old(self).root(), 0) is None && now.first()
                        == was.first() + docs.len() && now.held() == Seq::<DocView>::empty()
                        && now.lists() == Lists::empty() && found_full(
                        docs.len(),
                        lists,
                        old(self).config(),
                        true,
                    ),
                    Err(e) => unstorable(docs_fault(docs, old(self).root(), 0), e@),
                }
            }),
    {
        let cfg: BuildConfig = self.cfg;
        self.acc.absorb(shard, entries);
        if !self.acc.over_budget(&cfg) {
            return Ok(None);
        }
        proof {
            self.acc.lemma_wf();
        }
        let next_base: u32 = self.acc.base + self.acc.docs.len() as u32;
        let mut full = SegmentAcc::new(next_base);
        core::mem::swap(&mut full, &mut self.acc);
        let id: u32 = self.next_id;
        let f = flush_segment(self.root.as_str(), id, full)?;
        self.next_id = id + 1;
        Ok(Some(f))
    }

    /// Ends the stream. Gives back the last segment, unless it would be empty,
    /// and the next free segment id.
    pub fn finish(self) -> (r: Result<(Option<Flushed>, u32)>)
        requires
            self.wf(),
            self.next() < u32::MAX,
        ensures
            ({
                let was = self.pending();
                match r {
                    Ok((None, next)) => was.held().len() == 0 && next == self.next(),
                    Ok((Some(f), next)) => was.held().len() > 0 && next == self.next() + 1
                        && f.is_of(self.next(), was.first(), was.lists(), was.held(), self.root())
                        && docs_fault(was.held(), self.root(), 0) is None,
                    Err(e) => unstorable(docs_fault(was.held(), self.root(), 0), e@),
                }
            }),
    {
        if self.acc.docs.len() == 0 {
            return Ok((None, self.next_id));
        }
        let f = flush_segment(self.root.as_str(), self.next_id, self.acc)?;
        Ok((Some(f), self.next_id + 1))
    }
}

/// What the entry of a serialised segment says.
pub proof fn lemma_flushed_entry(
    f: Flushed,
    id: u32,
    base: u32,
    m: Lists,
    docs: Seq<DocView>,
    root: Seq<char>,
)
    requires
        f.is_of(id, base, m, docs, root),
        docs.len() <= u32::MAX,
    ensures
        f.entry.segment_id == id,
        f.entry.base_doc == base,
        f.entry.num_docs == docs.len(),
        f.entry.del_gen == 0,
        f.entry.del_len == 0,
        f.entry.num_deleted == 0,
{
    reveal(Flushed::is_of);
}

/// The segment holds the files `a..b`, numbered from `base` on, where `a` and
/// `b` are as its entry says.
pub open spec fn holds_part(
    f: Flushed,
    id: u32,
    root: Seq<char>,
    files: Seq<FileEntry>,
    cs: Seq<ContentView>,
    base: u32,
) -> bool {
    let a = f.entry.base_doc - base;
    let b = a + f.entry.num_docs;
    let part = cs.subrange(a, b);
    &&& 0 <= a < b <= files.len()
    &&& f.entry.segment_id == id
    &&& f.entry.del_gen == 0 && f.entry.del_len == 0 && f.entry.num_deleted == 0
    &&& f.is_of(
        id,
        f.entry.base_doc,
        shard_terms(f.entry.base_doc as int, part, b - a),
        indexed_docs(files.subrange(a, b), outcomes_of(part)),
        root,
    )
}

/// Where segment `k` of these starts.
pub open spec fn part_start(fs: Seq<Flushed>, base: u32, k: int) -> int {
    if k <= 0 {
        base as int
    } else {
        fs[k - 1].entry.end()
    }
}

/// Segment `k` of these holds its part of the files.
pub open spec fn placed(
    fs: Seq<Flushed>,
    root: Seq<char>,
    files: Seq<FileEntry>,
    cs: Seq<ContentView>,
    base: u32,
    next_id: u32,
    k: int,
) -> bool {
    fs[k].entry.base_doc == part_start(fs, base, k) && holds_part(
        fs[k],
        (next_id + k) as u32,
        root,
        files,
        cs,
        base,
    )
}

/// The segments hold the first `done` files, each once, in order.
pub open spec fn cover(
    fs: Seq<Flushed>,
    root: Seq<char>,
    files: Seq<FileEntry>,
    cs: Seq<ContentView>,
    base: u32,
    next_id: u32,
    done: int,
) -> bool {
    &&& part_start(fs, base, fs.len() as int) == base + done
    &&& forall|k: int|
        0 <= k < fs.len() ==> #[trigger] placed(fs, root, files, cs, base, next_id, k)
}

proof fn lemma_cover_push(
    fs: Seq<Flushed>,
    f: Flushed,
    root: Seq<char>,
    files: Seq<FileEntry>,
    cs: Seq<ContentView>,
    base: u32,
    next_id: u32,
    done: int,
    end: int,
)
    requires
        cover(fs, root, files, cs, base, next_id, done),
        0 <= done < end <= files.len(),
        files.len() == cs.len(),
        base + files.len() <= u32::MAX,
        next_id + fs.len() <= u32::MAX,
        f.is_of(
            (next_id + fs.len()) as u32,
            (base + done) as u32,
            shard_terms(base + done, cs.subrange(done, end), end - done),
            indexed_docs(files.subrange(done, end), outcomes_of(cs.subrange(done, end))),
            root,
        ),
    ensures
        cover(fs.push(f), root, files, cs, base, next_id, end),
{
    let docs = indexed_docs(files.subrange(done, end), outcomes_of(cs.subrange(done, end)));
    lemma_flushed_entry(
        f,
        (next_id + fs.len()) as u32,
        (base + done) as u32,
        shard_terms(base + done, cs.subrange(done, end), end - done),
        docs,
        root,
    );
    let all = fs.push(f);
    assert forall|k: int| 0 <= k < all.len() implies #[trigger] placed(
        all,
        root,
        files,
        cs,
        base,
        next_id,
        k,
    ) by {
        if k < fs.len() {
            assert(placed(fs, root, files, cs, base, next_id, k));
            assert(all[k] == fs[k]);
            if k > 0 {
                assert(all[k - 1] == fs[k - 1]);
            }
        } else if k > 0 {
            assert(all[k - 1] == fs[k - 1]);
        }
    }
}

/// The bytes of the paths of a part are among those of all.
proof fn lemma_part_paths(docs: Seq<DocView>, root: Seq<char>, a: int, b: int)
    requires
        0 <= a <= b <= docs.len(),
    ensures
        path_bytes(docs.subrange(a, b), root) <= path_bytes(docs, root),
{
    let all = relative_paths(docs, root);
    let part = docs.subrange(a, b);
    assert(all.take(docs.len() as int) =~= all);
    assert(relative_paths(part, root) =~= all.subrange(a, b));
    assert(relative_paths(part, root).take(part.len() as int) =~= all.subrange(a, b));
    lemma_heap_part(all, a, b);
    lemma_heap_prefix(all, b, all.len() as int);
}

proof fn lemma_heap_part(all: Seq<Seq<char>>, a: int, b: int)
    requires
        0 <= a <= b <= all.len(),
    ensures
        heap(all.subrange(a, b)).len() <= heap(all.take(b)).len(),
    decreases b,
{
    if a < b {
        lemma_heap_part(all, a, b - 1);
        assert(all.subrange(a, b).drop_last() =~= all.subrange(a, b - 1));
        assert(all.take(b).drop_last() =~= all.take(b - 1));
    }
}

/// The segment behind these holds as many documents as there are files between
/// the two ends.
proof fn lemma_last_part(
    fs: Seq<Flushed>,
    f: Flushed,
    root: Seq<char>,
    files: Seq<FileEntry>,
    cs: Seq<ContentView>,
    base: u32,
    next_id: u32,
    done: int,
    end: int,
)
    requires
        cover(fs, root, files, cs, base, next_id, done),
        cover(fs.push(f), root, files, cs, base, next_id, end),
    ensures
        f.entry.num_docs == end - done,
        f.entry.base_doc == base + done,
{
    let all = fs.push(f);
    assert(placed(all, root, files, cs, base, next_id, fs.len() as int));
    if fs.len() > 0 {
        assert(all[fs.len() - 1] == fs[fs.len() - 1]);
    }
}

/// How many files are indexed at a time.
pub open spec fn shard_len(cfg: BuildConfig) -> int {
    if cfg.shard_size >= 1 {
        cfg.shard_size as int
    } else {
        1
    }
}

/// A segment of the first `n` of these files, numbered from `first` on, was found
/// large enough to be written, or was not.
pub open spec fn found_at(
    first: int,
    part: Seq<ContentView>,
    n: int,
    cfg: BuildConfig,
    r: bool,
) -> bool {
    found_full(n as nat, shard_terms(first, part.take(n), n), cfg, r)
}

/// A segment of these files was not cut too late: it was not full behind any shard but
/// its last.
pub open spec fn cut_in_time(first: int, part: Seq<ContentView>, cfg: BuildConfig) -> bool {
    forall|n: int|
        0 < n < part.len() && n % shard_len(cfg) == 0 ==> #[trigger] found_at(
            first,
            part,
            n,
            cfg,
            false,
        )
}

/// The contents of the files of a segment, where files are numbered from `base` on.
pub open spec fn part_of(e: SegmentEntry, cs: Seq<ContentView>, base: u32) -> Seq<ContentView> {
    cs.subrange(e.base_doc - base, e.base_doc - base + e.num_docs)
}

/// A segment was not cut too early: it ends behind a whole shard, and was full by then.
pub open spec fn cut_when_full(
    e: SegmentEntry,
    cs: Seq<ContentView>,
    base: u32,
    cfg: BuildConfig,
) -> bool {
    &&& e.num_docs as int % shard_len(cfg) == 0
    &&& found_at(e.base_doc as int, part_of(e, cs, base), e.num_docs as int, cfg, true)
}

/// The segments are cut between shards, none of them too late, and none but the last
/// too early.
pub open spec fn well_cut(
    fs: Seq<Flushed>,
    cs: Seq<ContentView>,
    base: u32,
    cfg: BuildConfig,
) -> bool {
    &&& forall|k: int|
        0 <= k < fs.len() ==> cut_in_time(
            (#[trigger] fs[k]).entry.base_doc as int,
            part_of(fs[k].entry, cs, base),
            cfg,
        )
    &&& forall|k: int|
        0 <= k < fs.len() - 1 ==> cut_when_full((#[trigger] fs[k]).entry, cs, base, cfg)
}

/// None of the segments was cut too early.
spec fn all_full(fs: Seq<Flushed>, cs: Seq<ContentView>, base: u32, cfg: BuildConfig) -> bool {
    forall|k: int| 0 <= k < fs.len() ==> cut_when_full((#[trigger] fs[k]).entry, cs, base, cfg)
}

proof fn lemma_well_cut_push(
    fs: Seq<Flushed>,
    f: Flushed,
    cs: Seq<ContentView>,
    base: u32,
    cfg: BuildConfig,
)
    requires
        well_cut(fs, cs, base, cfg),
        all_full(fs, cs, base, cfg),
        cut_in_time(f.entry.base_doc as int, part_of(f.entry, cs, base), cfg),
    ensures
        well_cut(fs.push(f), cs, base, cfg),
        cut_when_full(f.entry, cs, base, cfg) ==> all_full(fs.push(f), cs, base, cfg),
{
    let all = fs.push(f);
    assert forall|k: int| 0 <= k < all.len() implies cut_in_time(
        (#[trigger] all[k]).entry.base_doc as int,
        part_of(all[k].entry, cs, base),
        cfg,
    ) by {
        if k < fs.len() {
            assert(all[k] == fs[k]);
        }
    }
    assert forall|k: int| 0 <= k < fs.len() implies cut_when_full(
        (#[trigger] all[k]).entry,
        cs,
        base,
        cfg,
    ) by {
        assert(all[k] == fs[k]);
    }
}

/// Files `done..end` make a segment that was not cut too late, where none was found
/// full behind any of its first whole shards.
proof fn lemma_cut_in_time(
    first: int,
    cs: Seq<ContentView>,
    done: int,
    at: int,
    end: int,
    shards: int,
    cfg: BuildConfig,
)
    requires
        0 <= done <= at < end <= cs.len(),
        0 <= shards,
        at - done == shards * shard_len(cfg),
        end - at <= shard_len(cfg),
        forall|n: int|
            0 < n <= at - done && n % shard_len(cfg) == 0 ==> #[trigger] found_at(
                first,
                cs.skip(done),
                n,
                cfg,
                false,
            ),
    ensures
        cut_in_time(first, cs.subrange(done, end), cfg),
{
    let size = shard_len(cfg);
    let part = cs.subrange(done, end);
    assert forall|n: int| 0 < n < part.len() && n % size == 0 implies #[trigger] found_at(
        first,
        part,
        n,
        cfg,
        false,
    ) by {
        lemma_fundamental_div_mod(n, size);
        let q = n / size;
        assert(q <= shards) by (nonlinear_arith)
            requires
                n == size * q + 0,
                n < shards * size + size,
                size >= 1,
        ;
        assert(n <= shards * size) by (nonlinear_arith)
            requires
                n == size * q,
                q <= shards,
                size >= 1,
        ;
        assert(found_at(first, cs.skip(done), n, cfg, false));
        assert(part.take(n) =~= cs.skip(done).take(n));
    }
}

/// One more shard behind `shards` whole ones was not found full.
proof fn lemma_next_shard(
    first: int,
    rest: Seq<ContentView>,
    at: int,
    end: int,
    shards: int,
    cfg: BuildConfig,
)
    requires
        0 <= shards,
        at == shards * shard_len(cfg),
        at < end <= at + shard_len(cfg),
        forall|n: int|
            0 < n <= at && n % shard_len(cfg) == 0 ==> #[trigger] found_at(
                first,
                rest,
                n,
                cfg,
                false,
            ),
        found_at(first, rest, end, cfg, false),
    ensures
        forall|n: int|
            0 < n <= end && n % shard_len(cfg) == 0 ==> #[trigger] found_at(
                first,
                rest,
                n,
                cfg,
                false,
            ),
        end == at + shard_len(cfg) ==> end == (shards + 1) * shard_len(cfg),
{
    let size = shard_len(cfg);
    assert((shards + 1) * size == shards * size + size) by (nonlinear_arith);
    assert forall|n: int| 0 < n <= end && n % size == 0 implies #[trigger] found_at(
        first,
        rest,
        n,
        cfg,
        false,
    ) by {
        if n < end {
            lemma_fundamental_div_mod(n, size);
            let q = n / size;
            assert(n <= shards * size) by (nonlinear_arith)
                requires
                    n == size * q,
                    n < shards * size + size,
                    size >= 1,
            {
                assert(q <= shards);
            }
        }
    }
}

/// Indexes the files and cuts them into segments. Returns the segments, in
/// order, and the next free segment id. A segment ends behind the shard with which
/// it has its number of documents or takes its number of bytes. It fails only where
/// the paths of a segment take more than 4 GiB.
#[verifier::rlimit(40)]
pub fn build_segments(
    root: &str,
    files: &[FileEntry],
    contents: &[Content],
    base_id: DocId,
    cfg: &BuildConfig,
    next_id: u32,
) -> (r: Result<(Vec<Flushed>, u32)>)
    requires
        files@.len() == contents@.len(),
        base_id + files@.len() <= u32::MAX,
        next_id + files@.len() < u32::MAX,
        contents_fit(content_views(contents@)),
    ensures
        ({
            let cs = content_views(contents@);
            let n = files@.len() as int;
            match r {
                Ok((fs, next)) => next == next_id + fs@.len() && fs@.len() <= n && cover(
                    fs@,
                    root@,
                    files@,
                    cs,
                    base_id,
                    next_id,
                    n,
                ) && well_cut(fs@, cs, base_id, *cfg),
                Err(e) => path_bytes(indexed_docs(files@, outcomes_of(cs)), root@) > u32::MAX
                    && e@ == paths_too_long(),
            }
        }),
{
    let ghost cs = content_views(contents@);
    let ghost all_docs = indexed_docs(files@, outcomes_of(cs));
    let n: usize = files.len();
    assert(n == files@.len());
    let size: usize = if cfg.shard_size >= 1 {
        cfg.shard_size
    } else {
        1
    };
    let mut builder = SegmentBuilder::new(root, cfg, base_id, next_id);
    let mut fs: Vec<Flushed> = Vec::new();
    let mut i: usize = 0;
    let ghost mut done: int = 0;
    let ghost mut shards: int = 0;
    proof {
        assert(0 * size == 0);
        assert(indexed_docs(files@.subrange(0, 0), outcomes_of(cs.subrange(0, 0))) =~= Seq::empty());
    }
    while i < n
        invariant
            n == files@.len(),
            size == shard_len(*cfg),
            size >= 1,
            builder.config() == *cfg,
            0 <= shards,
            i < n ==> i - done == shards * size,
            i == n && done < n ==> cut_in_time(
                base_id + done,
                cs.subrange(done, n as int),
                *cfg,
            ),
            forall|k: int|
                0 < k <= i - done && k % shard_len(*cfg) == 0 ==> #[trigger] found_at(
                    base_id + done,
                    cs.skip(done),
                    k,
                    *cfg,
                    false,
                ),
            well_cut(fs@, cs, base_id, *cfg),
            done < n ==> all_full(fs@, cs, base_id, *cfg),
            cs == content_views(contents@),
            cs.len() == n,
            contents@.len() == n,
            contents_fit(cs),
            all_docs == indexed_docs(files@, outcomes_of(cs)),
            base_id + n <= u32::MAX,
            next_id + n < u32::MAX,
            0 <= done <= i <= n,
            fs@.len() <= done,
            builder.wf(),
            builder.root() == root@,
            builder.next() == next_id + fs@.len(),
            builder.pending().first() == base_id + done,
            builder.pending().held() == indexed_docs(
                files@.subrange(done, i as int),
                outcomes_of(cs.subrange(done, i as int)),
            ),
            builder.pending().lists() == shard_terms(
                base_id + done,
                cs.subrange(done, i as int),
                i - done,
            ),
            cover(fs@, root@, files@, cs, base_id, next_id, done),
        decreases n - i,
    {
        let end: usize = if n - i > size {
            i + size
        } else {
            n
        };
        let part = &contents[i..end];
        let ghost own = cs.subrange(i as int, end as int);
        assert(content_views(part@) =~= own);
        assert(contents_fit(own)) by {
            assert forall|k: int| #![trigger own[k]] 0 <= k < own.len() implies (
            own[k] matches ContentView::Bytes(b) ==> b.len() <= u32::MAX) by {
                assert(own[k] == cs[i + k]);
            }
        }
        let first: u32 = base_id + i as u32;
        let shard = index_shard(first, part);
        let entries = &files[i..end];
        proof {
            lemma_shard_bounds(first as int, own, own.len() as int);
            lemma_grown(base_id as int, files@, cs, done, i as int, end as int);
            lemma_part_docs(files@, cs, done, end as int);
            lemma_part_fault(files@, cs, root@, done, end as int);
            lemma_part_paths(all_docs, root@, done, end as int);
            lemma_cut_in_time(
                base_id + done,
                cs,
                done,
                i as int,
                end as int,
                shards,
                *cfg,
            );
        }
        let ghost grown = cs.subrange(done, end as int);
        assert(grown.take(end - done) =~= grown);
        assert(cs.skip(done).take(end - done) =~= grown);
        match builder.add_shard(shard, entries)? {
            None => {
                proof {
                    assert(found_at(base_id + done, cs.skip(done), end - done, *cfg, false));
                    lemma_next_shard(base_id + done, cs.skip(done), i - done, end - done, shards, *cfg);
                    shards = shards + 1;
                }
            },
            Some(f) => {
                proof {
                    lemma_cover_push(
                        fs@,
                        f,
                        root@,
                        files@,
                        cs,
                        base_id,
                        next_id,
                        done,
                        end as int,
                    );
                    lemma_last_part(fs@, f, root@, files@, cs, base_id, next_id, done, end as int);
                    assert(part_of(f.entry, cs, base_id) == grown);
                    assert(found_at(base_id + done, grown, end - done, *cfg, true));
                    if end < n {
                        assert((shards + 1) * size == shards * size + size) by (nonlinear_arith);
                        lemma_fundamental_div_mod_converse(end - done, size as int, shards + 1, 0);
                    }
                    lemma_well_cut_push(fs@, f, cs, base_id, *cfg);
                    shards = 0;
                    assert(0 * size == 0);
                    done = end as int;
                    assert(indexed_docs(
                        files@.subrange(done, done),
                        outcomes_of(cs.subrange(done, done)),
                    ) =~= Seq::empty());
                }
                fs.push(f);
            },
        }
        i = end;
    }
    proof {
        lemma_part_docs(files@, cs, done, n as int);
        lemma_part_fault(files@, cs, root@, done, n as int);
        lemma_part_paths(all_docs, root@, done, n as int);
    }
    let (last, next) = builder.finish()?;
    match last {
        None => {},
        Some(f) => {
            proof {
                lemma_cover_push(fs@, f, root@, files@, cs, base_id, next_id, done, n as int);
                lemma_last_part(fs@, f, root@, files@, cs, base_id, next_id, done, n as int);
                lemma_well_cut_push(fs@, f, cs, base_id, *cfg);
            }
            fs.push(f);
        },
    }
    Ok((fs, next))
}

proof fn lemma_part_docs(files: Seq<FileEntry>, cs: Seq<ContentView>, a: int, b: int)
    requires
        files.len() == cs.len(),
        0 <= a <= b <= files.len(),
    ensures
        indexed_docs(files, outcomes_of(cs)).subrange(a, b) == indexed_docs(
            files.subrange(a, b),
            outcomes_of(cs.subrange(a, b)),
        ),
{
    assert(indexed_docs(files, outcomes_of(cs)).subrange(a, b) =~= indexed_docs(
        files.subrange(a, b),
        outcomes_of(cs.subrange(a, b)),
    ));
}

proof fn lemma_part_fault(files: Seq<FileEntry>, cs: Seq<ContentView>, root: Seq<char>, a: int, b: int)
    requires
        files.len() == cs.len(),
        0 <= a <= b <= files.len(),
    ensures
        ({
            let docs = indexed_docs(files.subrange(a, b), outcomes_of(cs.subrange(a, b)));
            docs_fault(docs, root, 0) == if path_bytes(docs, root) > u32::MAX {
                Some("path heap exceeds 4 GiB"@)
            } else {
                None
            }
        }),
{
    let docs = indexed_docs(files.subrange(a, b), outcomes_of(cs.subrange(a, b)));
    assert(relative_paths(docs, root).take(0) =~= Seq::empty());
    lemma_clean_fault(files.subrange(a, b), cs.subrange(a, b), root, 0);
}

/// A part of the files and the shard behind it make the longer part.
proof fn lemma_grown(
    base: int,
    files: Seq<FileEntry>,
    cs: Seq<ContentView>,
    done: int,
    i: int,
    end: int,
)
    requires
        files.len() == cs.len(),
        0 <= done <= i <= end <= cs.len(),
    ensures
        merged(
            shard_terms(base + done, cs.subrange(done, i), i - done),
            shard_terms(base + i, cs.subrange(i, end), end - i),
        ) == shard_terms(base + done, cs.subrange(done, end), end - done),
        indexed_docs(files.subrange(done, i), outcomes_of(cs.subrange(done, i))) + indexed_docs(
            files.subrange(i, end),
            outcomes_of(cs.subrange(i, end)),
        ) == indexed_docs(files.subrange(done, end), outcomes_of(cs.subrange(done, end))),
{
    let a = cs.subrange(done, i);
    let b = cs.subrange(i, end);
    assert(a + b =~= cs.subrange(done, end));
    lemma_shards_join(base + done, a, b, end - i);
    assert(indexed_docs(files.subrange(done, i), outcomes_of(a)) + indexed_docs(
        files.subrange(i, end),
        outcomes_of(b),
    ) =~= indexed_docs(files.subrange(done, end), outcomes_of(cs.subrange(done, end))));
}

} // verus!
