//! What a sweep deletes, what a refresh retires, and what the counts over segments count.

use vstd::prelude::*;

use super::flush::{cut_in_time, cut_when_full, found_at, full, part_of, well_cut, Flushed};
use super::live::refreshed;
use super::reader::{
    index_files, live_docs_of, orphaned, orphans_upto, segment_paths, sums, total, IndexView,
};
use super::segment::{
    gone, gone_indexed, lemma_live_count, live_indexed, status_of, SegmentView,
};
use super::state::{tally, ChangeView};
use super::{cleanable, del_file, doc_file, files_of, idx_file, joined, overlay_file, MANIFEST};
use crate::format::doc::{parsed, record_in, verified, TableView, STATUS_INDEXED};
use crate::format::manifest::{ManifestView, SegmentEntry};
use crate::format::FormatErrorView;
use crate::index::builder::{shard_terms, BuildConfig, ContentView};
use crate::index::memory::store_heap;
use crate::index::DocStatus;
use crate::text::lemma_push_contains;

verus! {

/// The manifest needs the file: it is a file of one of its segments, or its overlay.
pub open spec fn needs(m: ManifestView, name: Seq<char>) -> bool {
    ||| exists|i: int|
        0 <= i < m.segments.len() && {
            let e = #[trigger] m.segments[i];
            ||| name == idx_file(e.segment_id)
            ||| name == doc_file(e.segment_id)
            ||| e.del_gen > 0 && name == del_file(e.segment_id, e.del_gen)
        }
    ||| m.state_gen > 0 && name == overlay_file(m.state_gen)
}

/// The name is one that the index gives to its files, but not that of the manifest.
pub open spec fn own_name(name: Seq<char>) -> bool {
    ||| name.len() >= 4 && name.subrange(0, 4) == seq!['s', 'e', 'g', '-']
    ||| name.len() >= 6 && name.subrange(0, 6) == seq!['s', 't', 'a', 't', 'e', '-']
    ||| name.len() >= 4 && name.subrange(name.len() - 4, name.len() as int) == seq![
        '.',
        't',
        'm',
        'p',
    ]
}

proof fn lemma_swept(m: ManifestView, name: Seq<char>)
    ensures
        orphaned(m, name) <==> own_name(name) && !needs(m, name),
{
    reveal_strlit("seg-");
    reveal_strlit("state-");
    reveal_strlit(".tmp");
    assert("seg-"@ =~= seq!['s', 'e', 'g', '-']);
    assert("state-"@ =~= seq!['s', 't', 'a', 't', 'e', '-']);
    assert(".tmp"@ =~= seq!['.', 't', 'm', 'p']);
    assert(cleanable(name) <==> own_name(name));
    assert forall|i: int| 0 <= i < m.segments.len() implies (files_of(
        #[trigger] m.segments[i],
    ).contains(name) <==> ({
        let e = m.segments[i];
        ||| name == idx_file(e.segment_id)
        ||| name == doc_file(e.segment_id)
        ||| e.del_gen > 0 && name == del_file(e.segment_id, e.del_gen)
    })) by {
        let e = m.segments[i];
        let fs = files_of(e);
        assert(fs[0] == idx_file(e.segment_id));
        assert(fs[1] == doc_file(e.segment_id));
        if e.del_gen > 0 {
            assert(fs[2] == del_file(e.segment_id, e.del_gen));
        }
    }
    if needs(m, name) {
        if m.state_gen > 0 && name == overlay_file(m.state_gen) {
        } else {
            let i = choose|i: int|
                0 <= i < m.segments.len() && {
                    let e = #[trigger] m.segments[i];
                    ||| name == idx_file(e.segment_id)
                    ||| name == doc_file(e.segment_id)
                    ||| e.del_gen > 0 && name == del_file(e.segment_id, e.del_gen)
                };
            assert(files_of(m.segments[i]).contains(name));
        }
    }
}

/// A sweep deletes the files of the index that its manifest does not need, all of them, and
/// nothing else.
pub proof fn lemma_sweep(m: ManifestView, names: Seq<Seq<char>>)
    ensures
        orphans_upto(m, names, names.len() as int) == names.filter(
            |n: Seq<char>| own_name(n) && !needs(m, n),
        ),
{
    lemma_sweep_upto(m, names, names.len() as int);
    assert(names.take(names.len() as int) =~= names);
}

proof fn lemma_sweep_upto(m: ManifestView, names: Seq<Seq<char>>, n: int)
    requires
        0 <= n <= names.len(),
    ensures
        orphans_upto(m, names, n) == names.take(n).filter(
            |n: Seq<char>| own_name(n) && !needs(m, n),
        ),
    decreases n,
{
    reveal(Seq::filter);
    let swept = |n: Seq<char>| own_name(n) && !needs(m, n);
    if n > 0 {
        lemma_sweep_upto(m, names, n - 1);
        assert(names.take(n).drop_last() =~= names.take(n - 1));
        assert(names.take(n).last() == names[n - 1]);
        lemma_swept(m, names[n - 1]);
    } else {
        assert(names.take(n) =~= Seq::empty());
        assert(names.take(n).filter(swept) =~= Seq::empty());
    }
}

/// A refresh keeps what is in use where there is nothing new. Else it retires exactly the
/// segments that the new list does not have.
pub proof fn lemma_refreshed(
    generation: u64,
    current: Seq<SegmentEntry>,
    g: u64,
    fresh: Seq<SegmentEntry>,
)
    ensures
        refreshed(generation, current, None) is None,
        refreshed(generation, current, Some((g, fresh))) is None <==> g == generation,
        refreshed(generation, current, Some((g, fresh))) matches Some(flags) ==> {
            &&& flags.len() == current.len()
            &&& forall|i: int|
                0 <= i < flags.len() ==> (#[trigger] flags[i] <==> forall|k: int|
                    0 <= k < fresh.len() ==> (#[trigger] fresh[k]).segment_id
                        != current[i].segment_id)
        },
{
}

/// A sum over segments adds what each of them has.
pub proof fn lemma_total(ss: Seq<SegmentView>, weight: spec_fn(SegmentView) -> nat)
    ensures
        total(ss, weight) == ss.fold_left(0int, |a: int, s: SegmentView| a + weight(s)),
    decreases ss.len(),
{
    if ss.len() > 0 {
        lemma_total(ss.drop_last(), weight);
    }
}

/// The indexed ones among the first `n` documents of a segment that are deleted.
pub open spec fn gone_and_indexed(s: SegmentView, n: int) -> Set<int> {
    Set::new(
        |l: int| 0 <= l < n && gone(s, l) && record_in(s.doc, l).status == STATUS_INDEXED,
    )
}

/// As many indexed documents are counted as deleted as are.
pub proof fn lemma_gone_indexed(s: SegmentView, n: int)
    requires
        0 <= n,
    ensures
        gone_and_indexed(s, n).finite(),
        gone_indexed(s, n) == gone_and_indexed(s, n).len(),
    decreases n,
{
    let now = gone_and_indexed(s, n);
    if n > 0 {
        lemma_gone_indexed(s, n - 1);
        let before = gone_and_indexed(s, n - 1);
        if gone(s, n - 1) && record_in(s.doc, n - 1).status == STATUS_INDEXED {
            assert(now =~= before.insert(n - 1));
        } else {
            assert(now =~= before);
        }
    } else {
        assert(now =~= Set::empty());
    }
}

/// The changes of a plan of one sort.
pub open spec fn changes_where(cs: Seq<ChangeView>, sort: spec_fn(ChangeView) -> bool) -> Set<int> {
    Set::new(|i: int| 0 <= i < cs.len() && sort(cs[i]))
}

/// A plan counts its deletions, patches and reindexings.
pub proof fn lemma_tally(cs: Seq<ChangeView>)
    ensures
        tally(cs).0 == changes_where(cs, |c: ChangeView| c is Delete).len(),
        tally(cs).1 == changes_where(cs, |c: ChangeView| c is Patch).len(),
        tally(cs).2 == changes_where(cs, |c: ChangeView| c is Reindex).len(),
{
    lemma_tally_of(cs, |c: ChangeView| c is Delete);
    lemma_tally_of(cs, |c: ChangeView| c is Patch);
    lemma_tally_of(cs, |c: ChangeView| c is Reindex);
    lemma_tallies(cs);
}

spec fn number_of(cs: Seq<ChangeView>, sort: spec_fn(ChangeView) -> bool) -> nat
    decreases cs.len(),
{
    if cs.len() == 0 {
        0
    } else {
        number_of(cs.drop_last(), sort) + if sort(cs.last()) {
            1nat
        } else {
            0
        }
    }
}

proof fn lemma_tallies(cs: Seq<ChangeView>)
    ensures
        tally(cs).0 == number_of(cs, |c: ChangeView| c is Delete),
        tally(cs).1 == number_of(cs, |c: ChangeView| c is Patch),
        tally(cs).2 == number_of(cs, |c: ChangeView| c is Reindex),
    decreases cs.len(),
{
    if cs.len() > 0 {
        lemma_tallies(cs.drop_last());
    }
}

proof fn lemma_tally_of(cs: Seq<ChangeView>, sort: spec_fn(ChangeView) -> bool)
    ensures
        changes_where(cs, sort).finite(),
        changes_where(cs, sort).len() == number_of(cs, sort),
    decreases cs.len(),
{
    let now = changes_where(cs, sort);
    if cs.len() > 0 {
        let f = cs.drop_last();
        lemma_tally_of(f, sort);
        if sort(cs.last()) {
            assert(now =~= changes_where(f, sort).insert(f.len() as int));
        } else {
            assert(now =~= changes_where(f, sort));
        }
    } else {
        assert(now =~= Set::empty());
    }
}

/// A segment is full with the configured number of documents, one at least, or with the
/// configured number of bytes, and only then.
pub proof fn lemma_full(docs: nat, memory: usize, cfg: BuildConfig)
    ensures
        memory >= cfg.segment_bytes ==> full(docs, memory, cfg),
        memory < cfg.segment_bytes ==> (full(docs, memory, cfg) <==> docs > 0 && docs
            >= cfg.docs_per_segment),
{
}

/// The statistics add what the segments have: documents that are not deleted, tokens, postings,
/// terms and bytes.
pub proof fn lemma_sums(ss: Seq<SegmentView>)
    requires
        forall|k: int|
            0 <= k < ss.len() ==> (#[trigger] ss[k]).entry.num_deleted <= ss[k].entry.num_docs,
    ensures
        sums(ss).live == ss.fold_left(
            0int,
            |a: int, s: SegmentView| a + (s.entry.num_docs - s.entry.num_deleted),
        ),
        sums(ss).tokens == ss.fold_left(0int, |a: int, s: SegmentView| a + s.entry.num_tokens),
        sums(ss).postings == ss.fold_left(0int, |a: int, s: SegmentView| a + s.entry.num_postings),
        sums(ss).terms == ss.fold_left(0int, |a: int, s: SegmentView| a + s.entry.num_terms),
        sums(ss).disk == ss.fold_left(
            0int,
            |a: int, s: SegmentView| a + (s.entry.idx_len + s.entry.doc_len + s.entry.del_len),
        ),
    decreases ss.len(),
{
    if ss.len() > 0 {
        let f = ss.drop_last();
        assert forall|k: int| 0 <= k < f.len() implies (#[trigger] f[k]).entry.num_deleted
            <= f[k].entry.num_docs by {
            assert(f[k] == ss[k]);
        }
        lemma_sums(f);
        assert(ss[ss.len() - 1].entry.num_deleted <= ss[ss.len() - 1].entry.num_docs);
    }
}

/// The name is that of a file of the segment.
pub open spec fn is_file_of(e: SegmentEntry, name: Seq<char>) -> bool {
    ||| name == idx_file(e.segment_id)
    ||| name == doc_file(e.segment_id)
    ||| e.del_gen > 0 && name == del_file(e.segment_id, e.del_gen)
}

proof fn lemma_segment_paths(v: IndexView, n: int, path: Seq<char>)
    requires
        0 <= n <= v.segments.len(),
    ensures
        segment_paths(v, n).contains(path) <==> exists|i: int, name: Seq<char>|
            0 <= i < n && #[trigger] is_file_of(#[trigger] v.segments[i].entry, name) && path
                == joined(v.dir(), name),
    decreases n,
{
    let now = segment_paths(v, n);
    if n > 0 {
        lemma_segment_paths(v, n - 1, path);
        let before = segment_paths(v, n - 1);
        let e = v.segments[n - 1].entry;
        let fs = files_of(e);
        let own = fs.map_values(|name: Seq<char>| joined(v.dir(), name));
        assert(now == before + own);
        assert(fs[0] == idx_file(e.segment_id));
        assert(fs[1] == doc_file(e.segment_id));
        if e.del_gen > 0 {
            assert(fs[2] == del_file(e.segment_id, e.del_gen));
        }
        if now.contains(path) {
            let k = choose|k: int| 0 <= k < now.len() && now[k] == path;
            if k < before.len() {
                assert(before[k] == path);
                assert(before.contains(path));
            } else {
                let name = fs[k - before.len()];
                assert(own[k - before.len()] == path);
                assert(is_file_of(v.segments[n - 1].entry, name));
            }
        }
        if exists|i: int, name: Seq<char>|
            0 <= i < n && #[trigger] is_file_of(#[trigger] v.segments[i].entry, name) && path
                == joined(v.dir(), name) {
            let (i, name) = choose|i: int, name: Seq<char>|
                0 <= i < n && #[trigger] is_file_of(#[trigger] v.segments[i].entry, name) && path
                    == joined(v.dir(), name);
            if i < n - 1 {
                assert(before.contains(path));
                let k = choose|k: int| 0 <= k < before.len() && before[k] == path;
                assert(now[k] == path);
            } else {
                let k: int = if name == idx_file(e.segment_id) {
                    0
                } else if name == doc_file(e.segment_id) {
                    1
                } else {
                    2
                };
                assert(fs[k] == name);
                assert(own[k] == path);
                assert(now[before.len() + k] == path);
            }
        }
    }
}

/// The files of an index are those of its segments, its overlay where it has one, and the
/// manifest.
pub proof fn lemma_index_files(v: IndexView, path: Seq<char>)
    ensures
        index_files(v).contains(path) <==> {
            ||| path == joined(v.dir(), seq!['M', 'A', 'N', 'I', 'F', 'E', 'S', 'T'])
            ||| v.manifest.state_gen > 0 && path == joined(
                v.dir(),
                overlay_file(v.manifest.state_gen),
            )
            ||| exists|i: int, name: Seq<char>|
                0 <= i < v.segments.len() && #[trigger] is_file_of(
                    #[trigger] v.segments[i].entry,
                    name,
                ) && path == joined(v.dir(), name)
        },
{
    let n = v.segments.len() as int;
    lemma_segment_paths(v, n, path);
    reveal_strlit("MANIFEST");
    assert("MANIFEST"@ =~= seq!['M', 'A', 'N', 'I', 'F', 'E', 'S', 'T']);
    let own = segment_paths(v, n);
    let over = if v.manifest.state_gen > 0 {
        own.push(joined(v.dir(), overlay_file(v.manifest.state_gen)))
    } else {
        own
    };
    lemma_push_contains(own, joined(v.dir(), overlay_file(v.manifest.state_gen)), path);
    lemma_push_contains(over, joined(v.dir(), MANIFEST@), path);
}

/// A segment is cut behind the first shard by which it has the documents that a segment is meant
/// to have; only the last may be cut before it is full.
pub proof fn lemma_well_cut(
    fs: Seq<Flushed>,
    cs: Seq<ContentView>,
    base: u32,
    cfg: BuildConfig,
    k: int,
    n: int,
)
    requires
        well_cut(fs, cs, base, cfg),
        0 <= k < fs.len(),
        cfg.shard_size >= 1,
        cfg.docs_per_segment >= 1,
        fs[k].entry.base_doc >= base,
        fs[k].entry.base_doc - base + fs[k].entry.num_docs <= cs.len(),
    ensures
        cfg.docs_per_segment <= n < fs[k].entry.num_docs ==> n % (cfg.shard_size as int) != 0,
        k < fs.len() - 1 ==> fs[k].entry.num_docs as int % (cfg.shard_size as int) == 0,
        k < fs.len() - 1 && fs[k].entry.num_docs < cfg.docs_per_segment ==> exists|memory: usize|
            memory >= cfg.segment_bytes && #[trigger] store_heap(
                shard_terms(
                    fs[k].entry.base_doc as int,
                    cs.subrange(
                        fs[k].entry.base_doc - base,
                        fs[k].entry.base_doc - base + fs[k].entry.num_docs,
                    ),
                    fs[k].entry.num_docs as int,
                ),
                memory,
            ),
{
    let e = fs[k].entry;
    let part = part_of(e, cs, base);
    if cfg.docs_per_segment <= n < e.num_docs && n % (cfg.shard_size as int) == 0 {
        assert(cut_in_time(e.base_doc as int, part, cfg));
        assert(found_at(e.base_doc as int, part, n, cfg, false));
    }
    if k < fs.len() - 1 {
        assert(cut_when_full(fs[k].entry, cs, base, cfg));
        assert(part.take(e.num_docs as int) =~= part);
    }
}

/// The documents of a segment that can be found.
pub open spec fn findable(s: SegmentView, n: int) -> Set<int> {
    Set::new(
        |l: int| 0 <= l < n && !gone(s, l) && record_in(s.doc, l).status == STATUS_INDEXED,
    )
}

proof fn lemma_findable(s: SegmentView, n: int)
    requires
        0 <= n <= s.entry.num_docs,
    ensures
        findable(s, n).finite(),
        live_indexed(s, n) == findable(s, n).len(),
    decreases n,
{
    let now = findable(s, n);
    if n > 0 {
        lemma_findable(s, n - 1);
        let before = findable(s, n - 1);
        if !gone(s, n - 1) && record_in(s.doc, n - 1).status == STATUS_INDEXED {
            assert(now =~= before.insert(n - 1));
        } else {
            assert(now =~= before);
        }
    } else {
        assert(now =~= Set::empty());
    }
}

/// As many documents of a segment are counted as can be found, where its document file passes
/// its check; and where it does not, the deleted ones are taken off what the file says.
pub proof fn lemma_live_docs(s: SegmentView, head: TableView)
    requires
        parsed(s.doc) == Ok::<TableView, FormatErrorView>(head),
        head.num_docs == s.entry.num_docs,
    ensures
        verified(s.doc, head) is Ok ==> live_docs_of(s) == findable(
            s,
            s.entry.num_docs as int,
        ).len(),
        gone_and_indexed(s, s.entry.num_docs as int).len() <= head.num_indexed ==> live_docs_of(s)
            + gone_and_indexed(s, s.entry.num_docs as int).len() == head.num_indexed,
        gone_and_indexed(s, s.entry.num_docs as int).len() > head.num_indexed ==> live_docs_of(s)
            == 0,
{
    lemma_gone_indexed(s, s.entry.num_docs as int);
    lemma_findable(s, s.entry.num_docs as int);
    if verified(s.doc, head) is Ok {
        lemma_live_count(s, head);
    }
}

/// The average length of a document is that of all indexed ones, deleted or not; what is found
/// is counted without the deleted ones.
pub proof fn lemma_found_sums(ss: Seq<SegmentView>)
    ensures
        sums(ss).live_indexed == ss.map_values(|s: SegmentView| live_docs_of(s)).fold_left(
            0nat,
            |a: nat, b: nat| a + b,
        ),
        sums(ss).indexed == ss.map_values(
            |s: SegmentView| parsed(s.doc)->Ok_0.num_indexed as nat,
        ).fold_left(0nat, |a: nat, b: nat| a + b),
        sums(ss).len == ss.map_values(
            |s: SegmentView| parsed(s.doc)->Ok_0.total_len as nat,
        ).fold_left(0nat, |a: nat, b: nat| a + b),
    decreases ss.len(),
{
    let found = |s: SegmentView| live_docs_of(s);
    let indexed = |s: SegmentView| parsed(s.doc)->Ok_0.num_indexed as nat;
    let len = |s: SegmentView| parsed(s.doc)->Ok_0.total_len as nat;
    if ss.len() > 0 {
        let f = ss.drop_last();
        lemma_found_sums(f);
        assert(ss.map_values(found).drop_last() =~= f.map_values(found));
        assert(ss.map_values(indexed).drop_last() =~= f.map_values(indexed));
        assert(ss.map_values(len).drop_last() =~= f.map_values(len));
    }
}

/// The status of a document, by its byte.
pub proof fn lemma_status_of(b: u8)
    ensures
        status_of(b) == match b {
            1 => DocStatus::Indexed,
            2 => DocStatus::Binary,
            3 => DocStatus::TooLarge,
            _ => DocStatus::Skipped,
        },
{
}

} // verus!
