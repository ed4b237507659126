//! The storage boundary: the only view of postings that queries get.
//!
//! Implemented in memory by [`super::memory`] and over encoded bytes by
//! [`crate::format::postings`]. Cursors are forward-only and decode positions
//! on demand.

use vstd::prelude::*;

use crate::format::postings::ascending;

verus! {

/// Document number.
pub type DocId = u32;

/// Token position within a document.
pub type Position = u32;

/// One posting: a document, how often the term occurs in it and where.
/// `positions` is `None` where the stored positions cannot be decoded.
pub ghost struct Entry {
    pub doc: u32,
    pub tf: u32,
    pub positions: Option<Seq<u32>>,
}

/// The documents strictly ascend.
pub open spec fn docs_ascend(es: Seq<Entry>) -> bool {
    forall|i: int, j: int| 0 <= i < j < es.len() ==> (#[trigger] es[i]).doc < (#[trigger] es[j]).doc
}

/// The positions of every posting strictly ascend, where they can be decoded.
pub open spec fn positions_ascend(es: Seq<Entry>) -> bool {
    forall|i: int|
        0 <= i < es.len() ==> ((#[trigger] es[i]).positions matches Some(p) ==> ascending(p))
}

/// The document a cursor with these postings ahead is on.
pub open spec fn head_doc(rest: Seq<Entry>) -> Option<u32> {
    if rest.len() > 0 {
        Some(rest[0].doc)
    } else {
        None
    }
}

/// The postings ahead after one step.
pub open spec fn step(rest: Seq<Entry>) -> Seq<Entry> {
    if rest.len() > 0 {
        rest.drop_first()
    } else {
        rest
    }
}

/// The postings from the first with `doc >= target` on.
pub open spec fn from_target(rest: Seq<Entry>, target: u32) -> Seq<Entry>
    decreases rest.len(),
{
    if rest.len() > 0 && rest[0].doc < target {
        from_target(rest.drop_first(), target)
    } else {
        rest
    }
}

/// The postings ahead after the positions were asked for: a posting whose
/// positions cannot be decoded ends the list.
pub open spec fn after_positions(rest: Seq<Entry>) -> Seq<Entry> {
    if rest.len() > 0 && rest[0].positions is None {
        Seq::empty()
    } else {
        rest
    }
}

/// Forward-only cursor over one posting list.
pub trait PostingCursor {
    /// The cursor is in a proper state.
    spec fn wf(&self) -> bool;

    /// The postings from the current one on.
    spec fn rest(&self) -> Seq<Entry>;

    /// Current document, or `None` once exhausted.
    fn doc(&self) -> (r: Option<DocId>)
        requires
            self.wf(),
        ensures
            r == head_doc(self.rest()),
    ;

    /// Steps to the next posting; returns the new current document.
    fn advance(&mut self) -> (r: Option<DocId>)
        requires
            old(self).wf(),
        ensures
            final(self).wf(),
            final(self).rest() == step(old(self).rest()),
            r == head_doc(final(self).rest()),
    ;

    /// Moves to the first posting with `doc >= target`; stays where it is if it
    /// is there already.
    fn seek(&mut self, target: DocId) -> (r: Option<DocId>)
        requires
            old(self).wf(),
        ensures
            final(self).wf(),
            final(self).rest() == from_target(old(self).rest(), target),
            r == head_doc(final(self).rest()),
    ;

    /// Positions of the term in the current document, ascending; empty where
    /// they cannot be decoded, and then the cursor is exhausted.
    fn positions(&mut self) -> (r: &[Position])
        requires
            old(self).wf(),
            old(self).rest().len() > 0,
        ensures
            final(self).wf(),
            final(self).rest() == after_positions(old(self).rest()),
            r@ == match old(self).rest()[0].positions {
                Some(p) => p,
                None => Seq::empty(),
            },
    ;

    /// How often the term occurs in the current document; zero once exhausted.
    fn term_freq(&mut self) -> (r: u32)
        requires
            old(self).wf(),
        ensures
            final(self).wf(),
            final(self).rest() == old(self).rest(),
            r == if old(self).rest().len() > 0 {
                old(self).rest()[0].tf
            } else {
                0
            },
    ;
}

/// A term's postings, sorted by document.
pub trait PostingList {
    type Cursor: PostingCursor;

    /// The list is in a proper state.
    spec fn wf(&self) -> bool;

    /// The postings.
    spec fn entries(&self) -> Seq<Entry>;

    /// The stored number of documents.
    spec fn freq(&self) -> u32;

    /// The documents strictly ascend, and so do the positions of each.
    proof fn lemma_ascends(&self)
        requires
            self.wf(),
        ensures
            docs_ascend(self.entries()),
            positions_ascend(self.entries()),
    ;

    /// Number of documents containing the term.
    fn doc_freq(&self) -> (r: u32)
        requires
            self.wf(),
        ensures
            r == self.freq(),
    ;

    /// A cursor on the first posting, or exhausted if there is none.
    fn cursor(&self) -> (c: Self::Cursor)
        requires
            self.wf(),
        ensures
            c.wf(),
            c.rest() == self.entries(),
    ;
}

/// Lookup of a term's posting list.
pub trait TermStore {
    type List: PostingList;

    /// The store is in a proper state.
    spec fn wf(&self) -> bool;

    /// The postings of a term and the stored number of its documents, if the
    /// term is there.
    spec fn lookup(&self, term: Seq<char>) -> Option<(Seq<Entry>, u32)>;

    /// The number of unique terms.
    spec fn count(&self) -> nat;

    /// The store may account for so many bytes: those of what may be reserved for it.
    spec fn accounts_for(&self, n: usize) -> bool;

    /// Posting list for a lowercased term, or `None` if absent.
    fn get(&self, term: &str) -> (r: Option<Self::List>)
        requires
            self.wf(),
        ensures
            match r {
                Some(l) => l.wf() && self.lookup(term@) == Some((l.entries(), l.freq())),
                None => self.lookup(term@) is None,
            },
    ;

    /// Number of unique terms.
    fn term_count(&self) -> (n: usize)
        requires
            self.wf(),
        ensures
            n == self.count(),
    ;

    /// The bytes held by the store, with what it has reserved beyond what is in use.
    fn memory_bytes(&self) -> (n: usize)
        requires
            self.wf(),
        ensures
            self.accounts_for(n),
    ;
}

} // verus!
