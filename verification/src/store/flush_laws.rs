//! What is read from a segment is what was written into it.

use vstd::prelude::*;
use vstd::utf8::{encode_utf8, encode_utf8_valid_utf8};

use super::flush::{dictionary, encodes, fresh_entry, lemma_rebased_sorted, rebased, Flushed, Lists};
use super::segment::{
    doc_in, live_len, opened, postings_in, status_of, under, FileView, SegmentView,
};
use super::writer::relative;
use crate::error::ErrorView;
use crate::format::dict_laws::lemma_kept;
use crate::format::doc::{self, DocIn, DocKind, STATUS_INDEXED};
use crate::format::envelope::{crc32, lemma_sealed_parses, sealed, Kind};
use crate::format::idx::{idx_body, kept, sparse_offs, sparse_region, TermView, MAX_TERM_BYTES};
use crate::format::idx_laws::{
    file_of, lemma_lookup_finds, lemma_lookup_misses, lemma_parses, lemma_verifies, writable,
};
use crate::format::postings::{entries_of, fits, list_fault};
use crate::index::builder::all_from;
use crate::index::doc_table::DocView;
use crate::index::memory::all_sorted;
use crate::index::DocStatus;
use crate::text::lemma_encode_injective;

verus! {

/// Everything that the index file of these postings stores in 32 bits fits.
pub open spec fn storable(m: Lists, base: u32) -> bool {
    forall|ts: Seq<TermView>| #[trigger]
        dictionary(ts, m, base) ==> {
            &&& sparse_region(kept(ts)).len() <= u32::MAX
            &&& sparse_offs(kept(ts)).len() <= u32::MAX
            &&& file_of(kept(ts)).len() <= usize::MAX
            &&& forall|i: int| 0 <= i < ts.len() ==> fits((#[trigger] ts[i]).list)
        }
}

proof fn lemma_dictionary_writable(ts: Seq<TermView>, m: Lists, base: u32)
    requires
        dictionary(ts, m, base),
        storable(m, base),
        all_sorted(m),
        all_from(m, base as int),
    ensures
        writable(kept(ts)),
{
    let k = kept(ts);
    lemma_kept(ts);
    assert forall|i: int| #![trigger k[i]] 0 <= i < k.len() implies k[i].term.len()
        <= MAX_TERM_BYTES && vstd::utf8::valid_utf8(k[i].term) && list_fault(k[i].list, 0) is None
        && fits(k[i].list) by {
        let j = choose|j: int| 0 <= j < ts.len() && ts[j] == k[i];
        let t = choose|t: Seq<char>|
            #![trigger m[t]]
            m.contains_key(t) && ts[j].term == encode_utf8(t) && ts[j].list == rebased(m[t], base);
        encode_utf8_valid_utf8(t);
        lemma_rebased_sorted(m[t], base, 0);
    }
}

/// The terms and documents behind a serialised segment.
proof fn lemma_parts<'x>(
    f: Flushed,
    id: u32,
    base: u32,
    m: Lists,
    docs: Seq<DocView>,
    root: Seq<char>,
) -> (r: (Seq<TermView>, Seq<DocIn<'x>>))
    requires
        f.is_of(id, base, m, docs, root),
    ensures
        dictionary(r.0, m, base),
        encodes(r.1, docs, root),
        doc::doc_fault(r.1, 0) is None,
        f.idx@ == file_of(kept(r.0)),
        f.idx@ == sealed(Kind::Idx, idx_body(kept(r.0))),
        f.doc@ == sealed(Kind::Doc, doc::body_view(r.1)),
        f.entry == fresh_entry(
            id,
            base,
            r.0,
            docs.len(),
            f.doc@,
            crc32(doc::body_view(r.1)),
        ),
{
    reveal(Flushed::is_of);
    reveal(file_of);
    let (ts, ds) = choose|ts: Seq<TermView>, ds: Seq<DocIn<'_>>|
        {
            &&& #[trigger] dictionary(ts, m, base)
            &&& #[trigger] encodes(ds, docs, root)
            &&& doc::doc_fault(ds, 0) is None
            &&& f.idx@ == sealed(Kind::Idx, idx_body(kept(ts)))
            &&& f.doc@ == sealed(Kind::Doc, doc::body_view(ds))
            &&& f.entry == fresh_entry(
                id,
                base,
                ts,
                docs.len(),
                f.doc@,
                crc32(doc::body_view(ds)),
            )
        };
    (ts, ds)
}

proof fn lemma_looked_up(ts: Seq<TermView>, m: Lists, base: u32, term: Seq<char>)
    requires
        dictionary(ts, m, base),
        all_sorted(m),
        all_from(m, base as int),
        storable(m, base),
    ensures
        postings_in(file_of(kept(ts)), term) == if m.contains_key(term) && encode_utf8(term).len()
            <= MAX_TERM_BYTES {
            Some((entries_of(rebased(m[term], base)), m[term].len() as u32))
        } else {
            None
        },
{
    let k = kept(ts);
    let target = encode_utf8(term);
    lemma_dictionary_writable(ts, m, base);
    lemma_parses(k);
    lemma_kept(ts);
    if m.contains_key(term) && target.len() <= MAX_TERM_BYTES {
        let i = choose|i: int| 0 <= i < ts.len() && (#[trigger] ts[i]).term == target;
        let t = choose|t: Seq<char>|
            #![trigger m[t]]
            m.contains_key(t) && ts[i].term == encode_utf8(t) && ts[i].list == rebased(m[t], base);
        lemma_encode_injective(t, term);
        assert(ts.contains(ts[i]));
        let j = choose|j: int| 0 <= j < k.len() && k[j] == ts[i];
        lemma_lookup_finds(k, j);
    } else {
        assert forall|j: int| 0 <= j < k.len() implies (#[trigger] k[j]).term != target by {
            let x = choose|x: int| 0 <= x < ts.len() && ts[x] == k[j];
            let t = choose|t: Seq<char>|
                #![trigger m[t]]
                m.contains_key(t) && ts[x].term == encode_utf8(t) && ts[x].list == rebased(
                    m[t],
                    base,
                );
            if k[j].term == target {
                lemma_encode_injective(t, term);
            }
        }
        lemma_lookup_misses(k, target);
    }
}

/// Looking a term up in a serialised segment gives back its postings, under
/// local numbers, unless its term is overlong; and nothing else is found.
pub proof fn lemma_finds_what_was_indexed(
    f: Flushed,
    id: u32,
    base: u32,
    m: Lists,
    docs: Seq<DocView>,
    root: Seq<char>,
    term: Seq<char>,
)
    requires
        f.is_of(id, base, m, docs, root),
        all_sorted(m),
        all_from(m, base as int),
        storable(m, base),
    ensures
        postings_in(f.idx@, term) == if m.contains_key(term) && encode_utf8(term).len()
            <= MAX_TERM_BYTES {
            Some((entries_of(rebased(m[term], base)), m[term].len() as u32))
        } else {
            None
        },
{
    let (ts, _) = lemma_parts(f, id, base, m, docs, root);
    lemma_looked_up(ts, m, base, term);
}

/// The terms that a serialised segment was written with.
pub(crate) proof fn lemma_flushed_dictionary(
    f: Flushed,
    id: u32,
    base: u32,
    m: Lists,
    docs: Seq<DocView>,
    root: Seq<char>,
) -> (ks: Seq<TermView>)
    requires
        f.is_of(id, base, m, docs, root),
        all_sorted(m),
        all_from(m, base as int),
        storable(m, base),
    ensures
        writable(ks),
        f.idx@ == file_of(ks),
{
    let (ts, ds) = lemma_parts(f, id, base, m, docs, root);
    lemma_dictionary_writable(ts, m, base);
    kept(ts)
}

/// A serialised segment as it is read back.
pub open spec fn read_back(f: Flushed) -> SegmentView {
    SegmentView { entry: f.entry, idx: f.idx@, doc: f.doc@, del: None }
}

/// A serialised segment opens under its own entry, with a full check or
/// without.
pub proof fn lemma_flushed_opens(
    f: Flushed,
    id: u32,
    base: u32,
    m: Lists,
    docs: Seq<DocView>,
    root: Seq<char>,
    dir: Seq<char>,
    del: FileView,
    verify: bool,
)
    requires
        f.is_of(id, base, m, docs, root),
        docs.len() <= u32::MAX,
        all_sorted(m),
        all_from(m, base as int),
        storable(m, base),
        f.idx@.len() <= usize::MAX,
        f.doc@.len() <= usize::MAX,
    ensures
        opened(dir, f.entry, FileView::Bytes(f.idx@), FileView::Bytes(f.doc@), del, verify)
            == Ok::<_, ErrorView>(read_back(f)),
{
    reveal(opened);
    let (ts, ds) = lemma_parts(f, id, base, m, docs, root);
    let k = kept(ts);
    assert(f.idx@ == file_of(k));
    lemma_dictionary_writable(ts, m, base);
    lemma_parses(k);
    lemma_verifies(k);
    vstd::assert_by_contradiction!(idx_body(k).len() <= u64::MAX, {
        assert(sealed(Kind::Idx, idx_body(k)).len() >= idx_body(k).len());
    });
    lemma_sealed_parses(Kind::Idx, idx_body(k));
    doc::lemma_roundtrip(ds);
}

/// The documents of a serialised segment are read back as they were written:
/// under the root that it is read with, each at the path that it had below the
/// root it was written with.
pub proof fn lemma_docs_read_back(
    f: Flushed,
    id: u32,
    base: u32,
    m: Lists,
    docs: Seq<DocView>,
    root: Seq<char>,
    at: Seq<char>,
    local: u32,
)
    requires
        f.is_of(id, base, m, docs, root),
        docs.len() <= u32::MAX,
        f.doc@.len() <= usize::MAX,
    ensures
        doc_in(read_back(f), local, at) == if local < docs.len() {
            Some(
                DocView {
                    path: under(at, relative(root, docs[local as int].path)),
                    ..docs[local as int]
                },
            )
        } else {
            None
        },
        live_len(read_back(f), local) == if local < docs.len() && docs[local as int].status
            == DocStatus::Indexed {
            Some(docs[local as int].len)
        } else {
            None
        },
{
    let (ts, ds) = lemma_parts(f, id, base, m, docs, root);
    doc::lemma_roundtrip(ds);
    if local < docs.len() {
        let d = ds[local as int];
        let status = doc::record_in(f.doc@, local as int).status;
        doc::lemma_kind_bytes(d.kind, status);
        assert(status_of(status) == docs[local as int].status);
        assert(status == STATUS_INDEXED <==> d.kind == DocKind::Indexed);
    }
}

} // verus!
