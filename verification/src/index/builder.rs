//! The map and reduce steps of a build.
//!
//! Map: a contiguous shard of files becomes postings by term and one outcome per
//! file. Text is hashed, checked for UTF-8 and tokenized; other files are
//! recorded without their content. A file that cannot be read or decoded never
//! fails its shard.
//!
//! Reduce: shards are folded in ascending document order, so that each list
//! stays sorted by plain append.

use vstd::prelude::*;
use vstd::utf8::{decode_utf8, decode_utf8_encode_utf8, valid_utf8};

use super::doc_table::{
    as_indexed, as_live, sum_of, table_heap, DocMeta, DocStatus, DocTable, DocView,
};
use super::memory::{
    all_before, before, list_at, merged, postings_upto, pushable, pushed, store_heap,
    MemTermStore, TermMap,
};
use super::postings::DocId;
use super::reserve::capped;
use super::{IndexStats, MemIndex};
use crate::crawler::FileEntry;
use crate::text::{chars_of, lemma_byte_len, text_of, utf8_str};
use crate::tokenizer::{
    atom_tokens, lemma_atom_terms, lemma_token_positions, text_atoms, text_tokens, token_views,
    tokenize, tokens_of, Token, TokenView,
};

verus! {

/// How to build.
#[derive(Debug, Clone, Copy)]
pub struct BuildConfig {
    /// Files per shard. Default 128.
    pub shard_size: usize,
    /// A segment is written once it holds this many documents. Default 8192.
    pub docs_per_segment: usize,
    /// Or once its postings take this many bytes. Default 64 MiB.
    pub segment_bytes: usize,
}

impl Default for BuildConfig {
    fn default() -> (c: Self)
        ensures
            c.shard_size == 128,
            c.docs_per_segment == 8192,
            c.segment_bytes == 64 * 1024 * 1024,
    {
        BuildConfig { shard_size: 128, docs_per_segment: 8192, segment_bytes: 64 * 1024 * 1024 }
    }
}

/// The 64-bit XXH3 hash of these bytes.
pub uninterp spec fn xxh3(b: Seq<u8>) -> u64;

/// `xxhash_rust::xxh3::xxh3_64`: the hash of raw bytes, by which a rewritten
/// file is told from a changed one.
#[verifier::external_body]
pub fn hash_bytes(bytes: &[u8]) -> (h: u64)
    ensures
        h == xxh3(bytes@),
{
    xxhash_rust::xxh3::xxh3_64(bytes)
}

/// The text in these bytes, without a byte order mark; `None` where they are not
/// UTF-8.
pub open spec fn decoded_text(b: Seq<u8>) -> Option<Seq<char>> {
    if valid_utf8(b) {
        let s = decode_utf8(b);
        Some(
            if s.len() > 0 && s[0] == '\u{feff}' {
                s.drop_first()
            } else {
                s
            },
        )
    } else {
        None
    }
}

/// Decodes the bytes of a file, or says up to where they are UTF-8.
pub fn decode_text(bytes: &[u8]) -> (r: Result<String, usize>)
    ensures
        match r {
            Ok(s) => decoded_text(bytes@) == Some(s@),
            Err(n) => {
                &&& decoded_text(bytes@) is None
                &&& n < bytes@.len()
                &&& valid_utf8(bytes@.take(n as int))
                &&& forall|k: int|
                    n < k <= bytes@.len() ==> !valid_utf8(#[trigger] bytes@.take(k))
            },
        },
{
    let text: &str = utf8_str(bytes)?;
    let cs = chars_of(text);
    if cs.len() > 0 && cs[0] == '\u{feff}' {
        let rest = text_of(cs.as_slice(), 1, cs.len());
        assert(rest@ =~= text@.drop_first());
        Ok(rest)
    } else {
        Ok(text.to_string())
    }
}

/// What is known of a file when it is indexed.
#[derive(Debug)]
pub enum Content {
    /// Not text; not read.
    Binary,
    /// Over the size limit; not read.
    TooLarge,
    /// Text that could not be read.
    Unreadable,
    /// The bytes of a text file.
    Bytes(Vec<u8>),
}

/// A [`Content`] by value.
pub ghost enum ContentView {
    Binary,
    TooLarge,
    Unreadable,
    Bytes(Seq<u8>),
}

impl View for Content {
    type V = ContentView;

    open spec fn view(&self) -> ContentView {
        match self {
            Content::Binary => ContentView::Binary,
            Content::TooLarge => ContentView::TooLarge,
            Content::Unreadable => ContentView::Unreadable,
            Content::Bytes(b) => ContentView::Bytes(b@),
        }
    }
}

pub open spec fn content_views(cs: Seq<Content>) -> Seq<ContentView> {
    Seq::new(cs.len(), |i: int| cs[i]@)
}

/// What became of one file.
#[derive(Debug, Clone, Copy, PartialEq, Eq, Structural)]
pub struct Outcome {
    pub status: DocStatus,
    /// Length in atoms; zero unless indexed.
    pub len: u32,
    /// Hash of the bytes; zero where they were not read.
    pub content_hash: u64,
}

/// What becomes of a file with this content.
pub open spec fn outcome_of(c: ContentView) -> Outcome {
    match c {
        ContentView::Binary => Outcome { status: DocStatus::Binary, len: 0, content_hash: 0 },
        ContentView::TooLarge => Outcome { status: DocStatus::TooLarge, len: 0, content_hash: 0 },
        ContentView::Unreadable => Outcome { status: DocStatus::Skipped, len: 0, content_hash: 0 },
        ContentView::Bytes(b) => match decoded_text(b) {
            Some(t) => Outcome {
                status: DocStatus::Indexed,
                len: text_atoms(t).len() as u32,
                content_hash: xxh3(b),
            },
            None => Outcome { status: DocStatus::Skipped, len: 0, content_hash: xxh3(b) },
        },
    }
}

/// The tokens that a file with this content adds.
pub open spec fn content_tokens(c: ContentView) -> Seq<TokenView> {
    match c {
        ContentView::Bytes(b) => match decoded_text(b) {
            Some(t) => text_tokens(t, true),
            None => Seq::empty(),
        },
        _ => Seq::empty(),
    }
}

/// The positions of a term among the first `n` tokens.
pub open spec fn occurrences(ts: Seq<TokenView>, n: int, term: Seq<char>) -> Seq<u32>
    decreases n,
{
    if n <= 0 {
        Seq::empty()
    } else if ts[n - 1].term == term {
        occurrences(ts, n - 1, term).push(ts[n - 1].position)
    } else {
        occurrences(ts, n - 1, term)
    }
}

/// A list with one more posting, where there is any position.
pub open spec fn with_posting(list: Seq<(u32, Seq<u32>)>, doc: u32, ps: Seq<u32>) -> Seq<
    (u32, Seq<u32>),
> {
    if ps.len() == 0 {
        list
    } else {
        list.push((doc, ps))
    }
}

/// The postings after the first `n` tokens of `doc` were recorded.
pub open spec fn recorded(
    m: Map<Seq<char>, Seq<(u32, Seq<u32>)>>,
    doc: u32,
    ts: Seq<TokenView>,
    n: int,
) -> Map<Seq<char>, Seq<(u32, Seq<u32>)>> {
    Map::new(
        |t: Seq<char>| m.contains_key(t) || occurrences(ts, n, t).len() > 0,
        |t: Seq<char>| with_posting(list_at(m, t), doc, occurrences(ts, n, t)),
    )
}

/// Every document in the lists is below `doc`.
pub open spec fn all_below(m: Map<Seq<char>, Seq<(u32, Seq<u32>)>>, doc: int) -> bool {
    forall|t: Seq<char>| #[trigger]
        m.contains_key(t) ==> forall|i: int| 0 <= i < m[t].len() ==> (#[trigger] m[t][i]).0 < doc
}

/// Every document in the lists is at least `doc`.
pub open spec fn all_from(m: Map<Seq<char>, Seq<(u32, Seq<u32>)>>, doc: int) -> bool {
    forall|t: Seq<char>| #[trigger]
        m.contains_key(t) ==> forall|i: int| 0 <= i < m[t].len() ==> (#[trigger] m[t][i]).0 >= doc
}

proof fn lemma_last_occurrence(ts: Seq<TokenView>, n: int, term: Seq<char>) -> (i: int)
    requires
        0 <= n <= ts.len(),
        occurrences(ts, n, term).len() > 0,
    ensures
        0 <= i < n,
        ts[i].term == term,
        ts[i].position == occurrences(ts, n, term).last(),
    decreases n,
{
    if ts[n - 1].term == term {
        n - 1
    } else {
        lemma_last_occurrence(ts, n - 1, term)
    }
}

/// Tokenizes one document into `terms`. Returns its length in atoms and the
/// number of tokens.
pub fn index_document(doc: DocId, text: &str, terms: &mut TermMap) -> (r: (u32, u64))
    requires
        old(terms).wf(),
        all_below(old(terms)@, doc as int),
        text@.len() <= u32::MAX,
    ensures
        final(terms).wf(),
        final(terms)@ == recorded(
            old(terms)@,
            doc,
            text_tokens(text@, true),
            text_tokens(text@, true).len() as int,
        ),
        r.0 == text_atoms(text@).len(),
        r.1 == text_tokens(text@, true).len(),
{
    let toks = tokenize(text);
    let ghost ts = text_tokens(text@, true);
    let ghost atoms = text_atoms(text@);
    let ghost start = terms@;
    let mut len: u32 = 0;
    let mut i: usize = 0;
    proof {
        lemma_token_positions(atoms, atoms.len() as int, true);
        assert forall|t: Seq<char>| start.contains_key(t) implies #[trigger] recorded(
            start,
            doc,
            ts,
            0,
        )[t] == start[t] by {}
        assert(terms@ =~= recorded(start, doc, ts, 0));
        assert(toks@.len() == toks.len());
    }
    while i < toks.len()
        invariant
            terms.wf(),
            all_below(start, doc as int),
            ts == token_views(toks@),
            toks@.len() <= usize::MAX,
            forall|a: int, b: int|
                0 <= a < b < ts.len() ==> (#[trigger] ts[a]).position <= (#[trigger] ts[b]).position,
            forall|a: int, b: int|
                0 <= a < b < ts.len() && (#[trigger] ts[a]).position == (
                #[trigger] ts[b]).position ==> ts[a].term != ts[b].term,
            forall|a: int| 0 <= a < ts.len() ==> (#[trigger] ts[a]).position < atoms.len(),
            atoms.len() <= u32::MAX,
            i <= toks@.len(),
            len == if i > 0 {
                ts[i - 1].position + 1
            } else {
                0
            },
            terms@ == recorded(start, doc, ts, i as int),
        decreases toks@.len() - i,
    {
        let tok: &Token = &toks[i];
        let ghost t = tok.term@;
        assert(ts[i as int] == tok@);
        len = tok.position + 1;
        let ghost had = terms@;
        proof {
            let occ = occurrences(ts, i as int, t);
            if occ.len() > 0 {
                let k = lemma_last_occurrence(ts, i as int, t);
                assert(ts[k].position < ts[i as int].position);
                assert(had.contains_key(t));
            } else if start.contains_key(t) {
                assert(had[t] == start[t]);
            }
            assert(pushable(list_at(had, t), doc, tok.position));
        }
        terms.push(tok.term.as_str(), doc, tok.position);
        i = i + 1;
        proof {
            let next = recorded(start, doc, ts, i as int);
            let occ = occurrences(ts, i - 1, t);
            assert(occurrences(ts, i as int, t) == occ.push(tok.position));
            if occ.len() > 0 {
                let base = list_at(start, t);
                assert(base.push((doc, occ)).drop_last() =~= base);
                assert(pushed(list_at(had, t), doc, tok.position) =~= base.push(
                    (doc, occ.push(tok.position)),
                ));
            } else {
                assert(seq![tok.position] =~= occ.push(tok.position));
                assert(list_at(had, t) == list_at(start, t));
            }
            assert forall|u: Seq<char>| #[trigger] terms@.contains_key(u) == next.contains_key(u)
                && (next.contains_key(u) ==> terms@[u] == next[u]) by {
                if u != t {
                    assert(occurrences(ts, i as int, u) == occurrences(ts, i - 1, u));
                }
            }
            assert(terms@ =~= next);
        }
    }
    proof {
        lemma_last_position(text@);
    }
    (len, toks.len() as u64)
}

/// The last token belongs to the last atom.
proof fn lemma_last_position(text: Seq<char>)
    requires
        text_atoms(text).len() <= u32::MAX,
    ensures
        ({
            let ts = text_tokens(text, true);
            text_atoms(text).len() == if ts.len() > 0 {
                ts.last().position + 1
            } else {
                0
            }
        }),
{
    let atoms = text_atoms(text);
    let n = atoms.len() as int;
    if n > 0 {
        lemma_atom_terms(atoms[n - 1].text, true);
        let own = atom_tokens(atoms[n - 1], (n - 1) as nat, true);
        assert(text_tokens(text, true) == tokens_of(atoms, n - 1, true) + own);
        assert(text_tokens(text, true).last() == own.last());
    }
}

/// The postings of the first `n` files, numbered from `first` on.
pub open spec fn shard_terms(first: int, cs: Seq<ContentView>, n: int) -> Map<
    Seq<char>,
    Seq<(u32, Seq<u32>)>,
>
    decreases n,
{
    if n <= 0 {
        Map::empty()
    } else {
        let ts = content_tokens(cs[n - 1]);
        recorded(shard_terms(first, cs, n - 1), (first + n - 1) as u32, ts, ts.len() as int)
    }
}

/// The number of tokens of the first `n` files.
pub open spec fn shard_tokens(cs: Seq<ContentView>, n: int) -> nat
    decreases n,
{
    if n <= 0 {
        0
    } else {
        shard_tokens(cs, n - 1) + content_tokens(cs[n - 1]).len()
    }
}

/// `n`, or the largest number there is.
pub open spec fn capped64(n: nat) -> int {
    if n <= u64::MAX {
        n as int
    } else {
        u64::MAX as int
    }
}

/// Every file's content fits the numbers of positions.
pub open spec fn contents_fit(cs: Seq<ContentView>) -> bool {
    forall|i: int|
        #![trigger cs[i]]
        0 <= i < cs.len() ==> (cs[i] matches ContentView::Bytes(b) ==> b.len() <= u32::MAX)
}

/// Recording documents keeps lists below the next document and from the first
/// on.
proof fn lemma_recorded_bounds(
    m: Map<Seq<char>, Seq<(u32, Seq<u32>)>>,
    lo: int,
    doc: u32,
    ts: Seq<TokenView>,
    n: int,
)
    requires
        all_below(m, doc as int),
        all_from(m, lo),
        lo <= doc,
    ensures
        all_below(recorded(m, doc, ts, n), doc + 1),
        all_from(recorded(m, doc, ts, n), lo),
{
    let r = recorded(m, doc, ts, n);
    assert forall|t: Seq<char>| #[trigger] r.contains_key(t) implies forall|i: int|
        0 <= i < r[t].len() ==> lo <= (#[trigger] r[t][i]).0 < doc + 1 by {
        assert forall|i: int| 0 <= i < r[t].len() implies lo <= (#[trigger] r[t][i]).0 < doc
            + 1 by {
            if m.contains_key(t) && i < m[t].len() {
                assert(r[t][i] == m[t][i]);
            }
        }
    }
}

/// The documents of a shard are its own.
pub proof fn lemma_shard_bounds(first: int, cs: Seq<ContentView>, n: int)
    requires
        0 <= first,
        0 <= n <= cs.len(),
        first + n <= u32::MAX,
    ensures
        all_below(shard_terms(first, cs, n), first + n),
        all_from(shard_terms(first, cs, n), first),
    decreases n,
{
    if n > 0 {
        lemma_shard_bounds(first, cs, n - 1);
        let ts = content_tokens(cs[n - 1]);
        lemma_recorded_bounds(
            shard_terms(first, cs, n - 1),
            first,
            (first + n - 1) as u32,
            ts,
            ts.len() as int,
        );
    }
}

/// How the files are cut into shards does not matter: the postings of two
/// adjoining shards, merged, are those of both in one.
pub proof fn lemma_shards_join(first: int, a: Seq<ContentView>, b: Seq<ContentView>, n: int)
    requires
        0 <= n <= b.len(),
    ensures
        merged(
            shard_terms(first, a, a.len() as int),
            shard_terms(first + a.len(), b, n),
        ) == shard_terms(first, a + b, a.len() + n),
    decreases n,
{
    let left = shard_terms(first, a, a.len() as int);
    let all = a + b;
    if n == 0 {
        lemma_shard_prefix(first, a, all, a.len() as int);
        assert(merged(left, Map::empty()) =~= left) by {
            assert forall|t: Seq<char>| left.contains_key(t) implies list_at(left, t) + list_at(
                Map::<Seq<char>, Seq<(u32, Seq<u32>)>>::empty(),
                t,
            ) == #[trigger] left[t] by {
                assert(left[t] + Seq::<(u32, Seq<u32>)>::empty() =~= left[t]);
            }
        }
    } else {
        lemma_shards_join(first, a, b, n - 1);
        let right = shard_terms(first + a.len(), b, n - 1);
        let doc = (first + a.len() + n - 1) as u32;
        let ts = content_tokens(b[n - 1]);
        assert(all[a.len() + n - 1] == b[n - 1]);
        let x = merged(left, recorded(right, doc, ts, ts.len() as int));
        let y = recorded(merged(left, right), doc, ts, ts.len() as int);
        assert forall|t: Seq<char>| #[trigger] x.contains_key(t) == y.contains_key(t) && (
        x.contains_key(t) ==> x[t] == y[t]) by {
            let occ = occurrences(ts, ts.len() as int, t);
            if x.contains_key(t) {
                assert(list_at(left, t) + with_posting(list_at(right, t), doc, occ)
                    =~= with_posting(list_at(left, t) + list_at(right, t), doc, occ));
                assert(list_at(recorded(right, doc, ts, ts.len() as int), t) =~= with_posting(
                    list_at(right, t),
                    doc,
                    occ,
                ));
                assert(list_at(merged(left, right), t) =~= list_at(left, t) + list_at(right, t));
            }
        }
        assert(x =~= y);
    }
}

proof fn lemma_shard_prefix(first: int, a: Seq<ContentView>, b: Seq<ContentView>, n: int)
    requires
        0 <= n <= a.len(),
        n <= b.len(),
        forall|i: int| 0 <= i < n ==> a[i] == b[i],
    ensures
        shard_terms(first, a, n) == shard_terms(first, b, n),
        shard_tokens(a, n) == shard_tokens(b, n),
    decreases n,
{
    if n > 0 {
        lemma_shard_prefix(first, a, b, n - 1);
    }
}

/// The result of the map step for one shard.
pub struct Shard {
    /// The number of the first file.
    pub first_doc: DocId,
    /// The postings, under the numbers of the files.
    pub terms: TermMap,
    /// What became of each file.
    pub outcomes: Vec<Outcome>,
    /// The number of tokens.
    pub tokens: u64,
}

/// What becomes of these files.
pub open spec fn outcomes_of(cs: Seq<ContentView>) -> Seq<Outcome> {
    Seq::new(cs.len(), |i: int| outcome_of(cs[i]))
}

impl Shard {
    /// The shard is what the map step makes of these files.
    pub open spec fn is_of(&self, cs: Seq<ContentView>) -> bool {
        &&& self.terms.wf()
        &&& self.terms@ == shard_terms(self.first_doc as int, cs, cs.len() as int)
        &&& self.outcomes@ == outcomes_of(cs)
        &&& self.tokens == capped64(shard_tokens(cs, cs.len() as int))
    }
}

/// Indexes one file as `doc`. Returns what became of it and its number of
/// tokens.
fn index_content(doc: DocId, content: &Content, terms: &mut TermMap) -> (r: (Outcome, u64))
    requires
        old(terms).wf(),
        all_below(old(terms)@, doc as int),
        content@ matches ContentView::Bytes(b) ==> b.len() <= u32::MAX,
    ensures
        final(terms).wf(),
        final(terms)@ == recorded(
            old(terms)@,
            doc,
            content_tokens(content@),
            content_tokens(content@).len() as int,
        ),
        r.0 == outcome_of(content@),
        r.1 == content_tokens(content@).len(),
{
    let ghost ts = content_tokens(content@);
    let ghost start = terms@;
    assert(ts.len() == 0 ==> start =~= recorded(start, doc, ts, ts.len() as int));
    match content {
        Content::Binary => (
            Outcome { status: DocStatus::Binary, len: 0, content_hash: 0 },
            0,
        ),
        Content::TooLarge => (
            Outcome { status: DocStatus::TooLarge, len: 0, content_hash: 0 },
            0,
        ),
        Content::Unreadable => (
            Outcome { status: DocStatus::Skipped, len: 0, content_hash: 0 },
            0,
        ),
        Content::Bytes(bytes) => {
            let hash: u64 = hash_bytes(bytes.as_slice());
            match decode_text(bytes.as_slice()) {
                Ok(text) => {
                    proof {
                        lemma_text_fits(bytes@);
                    }
                    let (len, n): (u32, u64) = index_document(doc, text.as_str(), terms);
                    (Outcome { status: DocStatus::Indexed, len, content_hash: hash }, n)
                },
                Err(_) => (
                    Outcome { status: DocStatus::Skipped, len: 0, content_hash: hash },
                    0,
                ),
            }
        },
    }
}

proof fn lemma_text_fits(b: Seq<u8>)
    requires
        valid_utf8(b),
    ensures
        decoded_text(b) matches Some(t) ==> t.len() <= b.len(),
{
    decode_utf8_encode_utf8(b);
    lemma_byte_len(decode_utf8(b));
}

/// The map step for one shard. Failures of single files are outcomes.
pub fn index_shard(first_doc: DocId, contents: &[Content]) -> (shard: Shard)
    requires
        first_doc + contents@.len() <= u32::MAX,
        contents_fit(content_views(contents@)),
    ensures
        shard.first_doc == first_doc,
        shard.is_of(content_views(contents@)),
{
    let ghost cs = content_views(contents@);
    let mut terms = TermMap::new();
    let mut outcomes: Vec<Outcome> = Vec::new();
    let mut tokens: u64 = 0;
    let mut i: usize = 0;
    assert(outcomes@ =~= outcomes_of(cs.take(0)));
    while i < contents.len()
        invariant
            i <= contents@.len(),
            cs == content_views(contents@),
            contents_fit(cs),
            first_doc + contents@.len() <= u32::MAX,
            terms.wf(),
            terms@ == shard_terms(first_doc as int, cs, i as int),
            outcomes@ == outcomes_of(cs.take(i as int)),
            tokens == capped64(shard_tokens(cs, i as int)),
        decreases contents@.len() - i,
    {
        proof {
            lemma_shard_bounds(first_doc as int, cs, i as int);
            assert(contents@[i as int]@ == cs[i as int]);
        }
        let doc: DocId = first_doc + i as DocId;
        let (outcome, count): (Outcome, u64) = index_content(doc, &contents[i], &mut terms);
        outcomes.push(outcome);
        tokens = tokens.saturating_add(count);
        i = i + 1;
        assert(outcomes@ =~= outcomes_of(cs.take(i as int)));
    }
    assert(cs.take(i as int) =~= cs);
    Shard { first_doc, terms, outcomes, tokens }
}

/// The postings of the first `n` shards, merged.
pub open spec fn merged_shards(shards: Seq<Shard>, n: int) -> Map<
    Seq<char>,
    Seq<(u32, Seq<u32>)>,
>
    decreases n,
{
    if n <= 0 {
        Map::empty()
    } else {
        merged(merged_shards(shards, n - 1), shards[n - 1].terms@)
    }
}

/// Earlier shards hold earlier documents.
pub open spec fn in_doc_order(shards: Seq<Shard>) -> bool {
    forall|i: int, j: int|
        #![trigger shards[i], shards[j]]
        0 <= i < j < shards.len() ==> all_before(shards[i].terms@, shards[j].terms@)
}

proof fn lemma_merged_before(shards: Seq<Shard>, n: int, k: int)
    requires
        0 <= n <= k < shards.len(),
        in_doc_order(shards),
    ensures
        all_before(merged_shards(shards, n), shards[k].terms@),
    decreases n,
{
    if n > 0 {
        lemma_merged_before(shards, n - 1, k);
        let a = merged_shards(shards, n - 1);
        let b = shards[n - 1].terms@;
        let c = shards[k].terms@;
        let m = merged(a, b);
        assert(all_before(b, c));
        assert forall|t: Seq<char>| m.contains_key(t) && #[trigger] c.contains_key(t) implies before(
            m[t],
            c[t],
        ) by {
            if m[t].len() > 0 {
                if list_at(b, t).len() > 0 {
                    assert(m[t].last() == list_at(b, t).last());
                } else {
                    assert(m[t] =~= list_at(a, t));
                }
            }
        }
    }
}

/// The reduce step. The shards must be in ascending document order.
pub fn merge(shards: Vec<Shard>) -> (store: MemTermStore)
    requires
        forall|i: int| 0 <= i < shards@.len() ==> (#[trigger] shards@[i]).terms.wf(),
        in_doc_order(shards@),
    ensures
        store.wf(),
        store@ == merged_shards(shards@, shards@.len() as int),
{
    let ghost all = shards@;
    let n: usize = shards.len();
    let mut shards = shards;
    let mut store = MemTermStore::default();
    let mut i: usize = 0;
    while i < n
        invariant
            n == all.len(),
            i <= n,
            shards@ == all.skip(i as int),
            forall|k: int| 0 <= k < all.len() ==> (#[trigger] all[k]).terms.wf(),
            in_doc_order(all),
            store.wf(),
            store@ == merged_shards(all, i as int),
        decreases n - i,
    {
        let shard = shards.remove(0);
        proof {
            assert(shard == all[i as int]);
            lemma_merged_before(all, i as int, i as int);
            assert(shards@ =~= all.skip(i + 1));
        }
        store.merge_shard(shard.terms);
        i = i + 1;
    }
    store
}

/// A crawled file after it was indexed.
pub open spec fn doc_of(e: FileEntry, o: Outcome) -> DocView {
    DocView {
        path: e.path@,
        inode: e.inode,
        mtime: e.mtime,
        size: e.size,
        len: o.len,
        status: o.status,
        content_hash: o.content_hash,
    }
}

/// The record of a crawled file after it was indexed.
pub fn doc_meta(e: &FileEntry, o: Outcome) -> (m: DocMeta)
    ensures
        m@ == doc_of(*e, o),
{
    let mut m = DocMeta::from_entry(e.clone());
    m.status = o.status;
    m.len = o.len;
    m.content_hash = o.content_hash;
    m
}

/// The documents of a build.
pub open spec fn table_of(files: Seq<FileEntry>, cs: Seq<ContentView>) -> Seq<Option<DocView>> {
    Seq::new(files.len(), |i: int| Some(doc_of(files[i], outcome_of(cs[i]))))
}

/// How many of the files have no postings: text that could not be read or decoded,
/// binary files and those that are too large.
pub open spec fn skipped_count(cs: Seq<ContentView>, n: int) -> nat
    decreases n,
{
    if n <= 0 {
        0
    } else {
        skipped_count(cs, n - 1) + if outcome_of(cs[n - 1]).status != DocStatus::Indexed {
            1nat
        } else {
            0nat
        }
    }
}

/// An index in memory may account for `n` bytes: those of its table and of its lists.
pub open spec fn index_heap(
    table: Seq<Option<DocView>>,
    lists: Map<Seq<char>, Seq<(u32, Seq<u32>)>>,
    n: u64,
) -> bool {
    exists|a: usize, b: usize| #[trigger]
        table_heap(table, a) && #[trigger] store_heap(lists, b) && n == capped(a + b)
}

/// Builds an index in memory.
pub struct IndexBuilder {
    config: BuildConfig,
}

impl IndexBuilder {
    pub closed spec fn settings(&self) -> BuildConfig {
        self.config
    }

    /// A builder with this configuration.
    pub fn new(config: BuildConfig) -> (r: Self)
        ensures
            r.settings() == config,
    {
        IndexBuilder { config }
    }

    /// Numbers the files from zero on in their order and indexes them shard by
    /// shard. `contents` is what was read of each.
    pub fn build(&self, files: &[FileEntry], contents: &[Content]) -> (r: MemIndex)
        requires
            files@.len() == contents@.len(),
            files@.len() < u32::MAX,
            contents_fit(content_views(contents@)),
        ensures
            r.wf(),
            r.table() == table_of(files@, content_views(contents@)),
            r.lists() == shard_terms(0, content_views(contents@), contents@.len() as int),
            ({
                let cs = content_views(contents@);
                let s = r.numbers();
                &&& s.docs_total == sum_of(r.table(), as_live())
                &&& s.docs_indexed == sum_of(r.table(), as_indexed())
                &&& s.docs_skipped == skipped_count(cs, cs.len() as int)
                &&& s.total_tokens == capped64(shard_tokens(cs, cs.len() as int))
                &&& s.total_postings == capped64(
                    postings_upto(r.lists(), r.keys(), r.keys().len() as int),
                )
                &&& s.unique_terms == r.lists().dom().len()
                &&& s.segments == 1
                &&& index_heap(r.table(), r.lists(), s.memory_bytes)
            }),
    {
        let ghost cs = content_views(contents@);
        let n: usize = contents.len();
        let size: usize = if self.config.shard_size < 1 {
            1
        } else {
            self.config.shard_size
        };
        let mut store = MemTermStore::default();
        let mut docs = DocTable::new();
        let mut tokens: u64 = 0;
        let mut skipped: u32 = 0;
        let mut at: usize = 0;
        assert(docs@ =~= table_of(files@, cs).take(0));
        while at < n
            invariant
                at <= n,
                n == contents@.len() == files@.len(),
                n < u32::MAX,
                1 <= size,
                cs == content_views(contents@),
                contents_fit(cs),
                store.wf(),
                store@ == shard_terms(0, cs, at as int),
                docs.wf(),
                docs@ == table_of(files@, cs).take(at as int),
                tokens == capped64(shard_tokens(cs, at as int)),
                skipped == skipped_count(cs, at as int) <= at,
            decreases n - at,
        {
            let end: usize = if size < n - at {
                at + size
            } else {
                n
            };
            let chunk = &contents[at..end];
            let ghost part = cs.subrange(at as int, end as int);
            proof {
                assert(content_views(chunk@) =~= part);
                assert(contents_fit(part)) by {
                    assert forall|i: int| #![trigger part[i]] 0 <= i < part.len() implies (
                    part[i] matches ContentView::Bytes(b) ==> b.len() <= u32::MAX) by {
                        assert(part[i] == cs[at + i]);
                    }
                }
            }
            let shard = index_shard(at as DocId, chunk);
            let mut i: usize = at;
            while i < end
                invariant
                    at <= i <= end <= n,
                    n == files@.len() == cs.len(),
                    n < u32::MAX,
                    part == cs.subrange(at as int, end as int),
                    shard.outcomes@ == outcomes_of(part),
                    docs.wf(),
                    docs@ == table_of(files@, cs).take(i as int),
                    skipped == skipped_count(cs, i as int) <= i,
                decreases end - i,
            {
                let o: Outcome = shard.outcomes[i - at];
                assert(part[i - at] == cs[i as int]);
                if o.status != DocStatus::Indexed {
                    skipped = skipped + 1;
                }
                docs.insert(i as DocId, doc_meta(&files[i], o));
                i = i + 1;
                assert(docs@ =~= table_of(files@, cs).take(i as int));
            }
            proof {
                let head = cs.take(at as int);
                lemma_shard_prefix(0, head, cs, at as int);
                lemma_shard_bounds(0, head, at as int);
                lemma_shard_bounds(at as int, part, part.len() as int);
                lemma_bounds_order(store@, shard.terms@, at as int);
                lemma_shards_join(0, head, part, part.len() as int);
                lemma_tokens_join(head, part, part.len() as int);
                assert(head + part =~= cs.take(end as int));
                lemma_shard_prefix(0, cs.take(end as int), cs, end as int);
            }
            tokens = tokens.saturating_add(shard.tokens);
            store.merge_shard(shard.terms);
            at = end;
        }
        assert(table_of(files@, cs).take(n as int) =~= table_of(files@, cs));
        let mut stats = IndexStats::default();
        stats.docs_total = docs.len() as u32;
        stats.docs_indexed = docs.indexed_count();
        stats.docs_skipped = skipped;
        stats.total_tokens = tokens;
        stats.total_postings = store.total_postings();
        stats.unique_terms = store.term_count() as u64;
        stats.segments = 1;
        let table: usize = docs.heap_bytes();
        let lists: usize = store.memory_bytes();
        stats.memory_bytes = table.saturating_add(lists) as u64;
        assert(index_heap(docs@, store@, stats.memory_bytes));
        MemIndex::new(docs, store, stats)
    }
}

/// Lists below a document are before lists from it on.
proof fn lemma_bounds_order(
    a: Map<Seq<char>, Seq<(u32, Seq<u32>)>>,
    b: Map<Seq<char>, Seq<(u32, Seq<u32>)>>,
    doc: int,
)
    requires
        all_below(a, doc),
        all_from(b, doc),
    ensures
        all_before(a, b),
{
    assert forall|t: Seq<char>| a.contains_key(t) && #[trigger] b.contains_key(t) implies before(
        a[t],
        b[t],
    ) by {
        if a[t].len() > 0 && b[t].len() > 0 {
            assert(a[t][a[t].len() - 1].0 < doc);
            assert(b[t][0].0 >= doc);
        }
    }
}

proof fn lemma_tokens_join(a: Seq<ContentView>, b: Seq<ContentView>, n: int)
    requires
        0 <= n <= b.len(),
    ensures
        shard_tokens(a + b, a.len() + n) == shard_tokens(a, a.len() as int) + shard_tokens(b, n),
    decreases n,
{
    if n == 0 {
        lemma_shard_prefix(0, a, a + b, a.len() as int);
    } else {
        lemma_tokens_join(a, b, n - 1);
        assert((a + b)[a.len() + n - 1] == b[n - 1]);
    }
}

} // verus!
