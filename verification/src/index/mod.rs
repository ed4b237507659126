//! The read side of an index, and the index in memory.
//!
//! A query sees an index only through [`IndexReader`]: its segments in ascending
//! order of disjoint document ranges, and statistics over all of them. It is
//! evaluated segment by segment on local numbers.

pub mod builder;
pub mod doc_table;
pub mod laws;
pub mod memory;
pub mod postings;
pub mod reserve;

use vstd::prelude::*;

pub use builder::{BuildConfig, IndexBuilder};
pub use doc_table::{DocMeta, DocStatus, DocTable};
pub use memory::MemTermStore;
pub use postings::{DocId, Position, PostingCursor, PostingList, TermStore};

use crate::crawler::CrawlStats;
use crate::format::postings::entries_of;
use doc_table::{as_indexed, as_len, sum_of, DocView};
use memory::MemPostingList;
use postings::Entry;

verus! {

/// Read side of one segment. Numbers are local; the global number is the base
/// plus the local one.
pub trait SegmentReader {
    type List: PostingList;

    /// The segment is in a proper state.
    spec fn wf(&self) -> bool;

    /// The global number of local document zero.
    spec fn first(&self) -> u32;

    /// One past the highest local number.
    spec fn bound(&self) -> u32;

    /// The postings of a term and the stored number of its documents, if the
    /// term is there.
    spec fn lookup(&self, term: Seq<char>) -> Option<(Seq<Entry>, u32)>;

    /// The length of a live, indexed document.
    spec fn length(&self, local: u32) -> Option<u32>;

    /// Documents that have a length are below the bound, and their global
    /// numbers fit.
    proof fn lemma_bounds(&self)
        requires
            self.wf(),
        ensures
            self.first() + self.bound() <= u32::MAX + 1,
            forall|local: u32| #[trigger] self.length(local) is Some ==> local < self.bound(),
    ;

    /// Global number of local document zero.
    fn base(&self) -> (r: DocId)
        requires
            self.wf(),
        ensures
            r == self.first(),
    ;

    /// One past the highest local number.
    fn num_docs(&self) -> (r: u32)
        requires
            self.wf(),
        ensures
            r == self.bound(),
    ;

    /// Posting list of a lowercased term, with local numbers.
    fn postings(&self, term: &str) -> (r: Option<Self::List>)
        requires
            self.wf(),
        ensures
            match r {
                Some(l) => l.wf() && self.lookup(term@) == Some((l.entries(), l.freq())),
                None => self.lookup(term@) is None,
            },
    ;

    /// Length in atoms of a live document: indexed, not deleted, not a hole.
    /// Postings of others are passed over.
    fn doc_len(&self, local: DocId) -> (r: Option<u32>)
        requires
            self.wf(),
        ensures
            r == self.length(local),
    ;
}

/// Read side of a whole index.
pub trait IndexReader {
    type Segment: SegmentReader;

    /// The index is in a proper state.
    spec fn wf(&self) -> bool;

    /// The segments.
    spec fn parts(&self) -> Seq<Self::Segment>;

    /// The number of indexed documents that are not deleted.
    spec fn live(&self) -> u32;

    /// The mean length of the indexed documents as a fraction: their total
    /// length and their number.
    spec fn mean(&self) -> (u64, u64);

    /// What is known of a document, if it is there and not deleted.
    spec fn doc_at(&self, id: u32) -> Option<DocView>;

    /// The segments in ascending order of their bases.
    fn segments(&self) -> (v: Vec<Self::Segment>)
        requires
            self.wf(),
        ensures
            v@ == self.parts(),
            forall|i: int| 0 <= i < v@.len() ==> (#[trigger] v@[i]).wf(),
    ;

    /// Number of indexed documents that are not deleted.
    fn indexed_count(&self) -> (n: u32)
        requires
            self.wf(),
        ensures
            n == self.live(),
    ;

    /// The mean length in atoms of the indexed documents, as a fraction: their
    /// total length and their number. Zero where there is none.
    fn avg_len(&self) -> (r: (u64, u64))
        requires
            self.wf(),
        ensures
            r == self.mean(),
    ;

    /// What is known of a document; `None` for holes and deleted ones.
    fn doc(&self, id: DocId) -> (r: Option<DocMeta>)
        requires
            self.wf(),
        ensures
            match r {
                Some(m) => self.doc_at(id) == Some(m@),
                None => self.doc_at(id) is None,
            },
    ;
}

/// Statistics of a build or an opened index. Times are in nanoseconds.
#[derive(Debug, Clone, Copy, PartialEq, Eq, Structural)]
pub struct IndexStats {
    pub crawl: CrawlStats,
    /// Documents of any status that are not deleted.
    pub docs_total: u32,
    pub docs_indexed: u32,
    /// Documents without postings, whatever the reason.
    pub docs_skipped: u32,
    /// Total number of occurrences stored.
    pub total_tokens: u64,
    /// Total number of postings stored.
    pub total_postings: u64,
    /// Unique terms; over several segments the sum.
    pub unique_terms: u64,
    pub segments: u32,
    pub crawl_time: u64,
    /// Everything of a build but the crawl.
    pub build_time: u64,
    /// The last open.
    pub open_time: u64,
    /// Accounted heap of the structures in the process.
    pub memory_bytes: u64,
    /// Size of all files of the index.
    pub on_disk_bytes: u64,
    /// Resident set right after the build.
    pub rss_bytes: Option<u64>,
    /// Growth of the resident set over crawl and build.
    pub rss_delta_bytes: Option<i64>,
}

impl Default for IndexStats {
    fn default() -> (s: Self)
        ensures
            s == (IndexStats {
                crawl: s.crawl,
                docs_total: 0,
                docs_indexed: 0,
                docs_skipped: 0,
                total_tokens: 0,
                total_postings: 0,
                unique_terms: 0,
                segments: 0,
                crawl_time: 0,
                build_time: 0,
                open_time: 0,
                memory_bytes: 0,
                on_disk_bytes: 0,
                rss_bytes: None,
                rss_delta_bytes: None,
            }),
            s.crawl == (CrawlStats {
                files_seen: 0,
                skipped_too_large: 0,
                skipped_binary: 0,
                errors: 0,
                indexable: 0,
                indexable_bytes: 0,
            }),
    {
        IndexStats {
            crawl: CrawlStats::default(),
            docs_total: 0,
            docs_indexed: 0,
            docs_skipped: 0,
            total_tokens: 0,
            total_postings: 0,
            unique_terms: 0,
            segments: 0,
            crawl_time: 0,
            build_time: 0,
            open_time: 0,
            memory_bytes: 0,
            on_disk_bytes: 0,
            rss_bytes: None,
            rss_delta_bytes: None,
        }
    }
}

/// A single segment in memory, with base zero.
pub struct MemIndex {
    docs: DocTable,
    terms: MemTermStore,
    stats: IndexStats,
}

impl MemIndex {
    pub closed spec fn wf(&self) -> bool {
        self.docs.wf() && self.terms.wf()
    }

    /// The documents.
    pub closed spec fn table(&self) -> Seq<Option<DocView>> {
        self.docs@
    }

    /// The postings.
    pub closed spec fn lists(&self) -> Map<Seq<char>, Seq<(u32, Seq<u32>)>> {
        self.terms@
    }

    /// The terms, each once.
    pub closed spec fn keys(&self) -> Seq<Seq<char>> {
        self.terms.keys()
    }

    pub proof fn lemma_keys(&self)
        requires
            self.wf(),
        ensures
            forall|t: Seq<char>| #[trigger] self.keys().contains(t) <==> self.lists().contains_key(t),
            self.keys().no_duplicates(),
    {
        self.terms.lemma_keys();
    }

    /// The statistics.
    pub closed spec fn numbers(&self) -> IndexStats {
        self.stats
    }

    /// An index of these parts.
    pub fn new(docs: DocTable, terms: MemTermStore, stats: IndexStats) -> (r: Self)
        requires
            docs.wf(),
            terms.wf(),
        ensures
            r.wf(),
            r.table() == docs@,
            r.lists() == terms@,
            r.keys() == terms.keys(),
            r.numbers() == stats,
    {
        MemIndex { docs, terms, stats }
    }

    /// The document table.
    pub fn docs(&self) -> (r: &DocTable)
        requires
            self.wf(),
        ensures
            r.wf(),
            r@ == self.table(),
    {
        &self.docs
    }

    /// The terms.
    pub fn terms(&self) -> (r: &MemTermStore)
        requires
            self.wf(),
        ensures
            r.wf(),
            r@ == self.lists(),
    {
        &self.terms
    }

    /// The statistics.
    pub fn stats(&self) -> (r: &IndexStats)
        ensures
            *r == self.numbers(),
    {
        &self.stats
    }

    /// Takes the index apart.
    pub fn into_parts(self) -> (r: (DocTable, MemTermStore, IndexStats))
        requires
            self.wf(),
        ensures
            r.0.wf(),
            r.0@ == self.table(),
            r.1.wf(),
            r.1@ == self.lists(),
            r.2 == self.numbers(),
    {
        (self.docs, self.terms, self.stats)
    }
}

/// The length of an indexed document.
pub open spec fn indexed_len(table: Seq<Option<DocView>>, id: u32) -> Option<u32> {
    if id < table.len() && table[id as int] is Some && table[id as int]->Some_0.status
        == DocStatus::Indexed {
        Some(table[id as int]->Some_0.len)
    } else {
        None
    }
}

impl<'a> SegmentReader for &'a MemIndex {
    type List = &'a MemPostingList;

    open spec fn wf(&self) -> bool {
        (**self).wf()
    }

    open spec fn first(&self) -> u32 {
        0
    }

    open spec fn bound(&self) -> u32 {
        (**self).table().len() as u32
    }

    open spec fn lookup(&self, term: Seq<char>) -> Option<(Seq<Entry>, u32)> {
        if (**self).lists().contains_key(term) {
            let list = (**self).lists()[term];
            Some((entries_of(list), list.len() as u32))
        } else {
            None
        }
    }

    open spec fn length(&self, local: u32) -> Option<u32> {
        indexed_len((**self).table(), local)
    }

    proof fn lemma_bounds(&self) {
        (**self).docs.lemma_wf();
    }

    fn base(&self) -> (r: DocId) {
        0
    }

    fn num_docs(&self) -> (r: u32) {
        self.docs.id_bound()
    }

    fn postings(&self, term: &str) -> (r: Option<&'a MemPostingList>) {
        self.terms.get(term)
    }

    fn doc_len(&self, local: DocId) -> (r: Option<u32>) {
        match self.docs.get(local) {
            Some(m) => if m.status == DocStatus::Indexed {
                Some(m.len)
            } else {
                None
            },
            None => None,
        }
    }
}

impl<'a> IndexReader for &'a MemIndex {
    type Segment = &'a MemIndex;

    open spec fn wf(&self) -> bool {
        (**self).wf()
    }

    open spec fn parts(&self) -> Seq<&'a MemIndex> {
        seq![*self]
    }

    open spec fn live(&self) -> u32 {
        sum_of((**self).table(), as_indexed()) as u32
    }

    open spec fn mean(&self) -> (u64, u64) {
        (
            sum_of((**self).table(), as_len()) as u64,
            sum_of((**self).table(), as_indexed()) as u64,
        )
    }

    open spec fn doc_at(&self, id: u32) -> Option<DocView> {
        if id < (**self).table().len() {
            (**self).table()[id as int]
        } else {
            None
        }
    }

    fn segments(&self) -> (v: Vec<&'a MemIndex>) {
        let mut v: Vec<&'a MemIndex> = Vec::new();
        v.push(*self);
        assert(v@ =~= seq![*self]);
        v
    }

    fn indexed_count(&self) -> (n: u32) {
        self.docs.indexed_count()
    }

    fn avg_len(&self) -> (r: (u64, u64)) {
        proof {
            (**self).docs.lemma_wf();
        }
        (self.docs.total_len(), self.docs.indexed_count() as u64)
    }

    fn doc(&self, id: DocId) -> (r: Option<DocMeta>) {
        match self.docs.get(id) {
            Some(m) => Some(m.clone()),
            None => None,
        }
    }
}

} // verus!
