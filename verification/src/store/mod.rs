//! The persistent index: a directory under the indexed root, committed through
//! an atomic manifest.

pub mod answer_laws;
pub mod check_laws;
pub mod commit;
pub mod commit_laws;
pub mod converge_laws;
pub mod count_laws;
pub mod disk;
pub mod flush;
pub mod flush_laws;
pub mod governor;
pub mod governor_laws;
pub mod live;
pub mod live_laws;
pub mod merge;
pub mod merge_commit;
pub mod merge_laws;
pub mod merge_plan;
pub mod merged_laws;
pub mod names;
pub mod open_laws;
pub mod path_laws;
pub mod plan_laws;
pub mod protocol;
pub mod reader;
pub mod recovery_laws;
pub mod search_laws;
pub mod segment;
pub mod sound;
pub mod state;
pub mod state_laws;
pub mod sweep_laws;
pub mod tier_laws;
pub mod update;
pub mod watch_laws;
pub mod watcher;
pub mod writer;

use vstd::prelude::*;

use crate::format::manifest::{Manifest, ManifestView, SegmentEntry};
use crate::text::{
    decimal, ends_with, is_among, lemma_push_contains, push_decimal, starts_with, views,
};

verus! {

/// The index directory under the root.
pub const DIR_NAME: &'static str = ".ripindex";

pub const MANIFEST: &'static str = "MANIFEST";

pub const MANIFEST_TMP: &'static str = "MANIFEST.tmp";

pub const LOCK: &'static str = "LOCK";

/// `name` under the directory `dir`.
pub open spec fn joined(dir: Seq<char>, name: Seq<char>) -> Seq<char> {
    if dir.len() == 0 {
        name
    } else if dir.last() == '/' {
        dir + name
    } else {
        dir.push('/') + name
    }
}

/// `name` under the directory `dir`. `name` must be relative. Both have `/` between
/// their names, on every platform.
pub fn join(dir: &str, name: &str) -> (r: String)
    ensures
        r@ == joined(dir@, name@),
{
    proof {
        reveal_strlit("/");
        assert("/"@ =~= seq!['/']);
    }
    let mut r: String = dir.to_string();
    if !dir.is_empty() && !ends_with(dir, "/") {
        r.push('/');
    }
    proof {
        if dir@.len() > 0 {
            assert(dir@.subrange(dir@.len() - 1, dir@.len() as int) =~= seq![dir@.last()]);
            assert(seq![dir@.last()][0] == dir@.last());
            assert(seq!['/'][0] == '/');
        } else {
            assert(dir@ + name@ =~= name@);
        }
    }
    r.push_str(name);
    r
}

/// The index directory of a root.
pub fn index_dir(root: &str) -> (r: String)
    ensures
        r@ == joined(root@, DIR_NAME@),
{
    join(root, DIR_NAME)
}

/// Where an unlocked merge puts its files until it is committed: inside the
/// index directory, so that they move by a plain rename, but below a directory
/// of its own, which the sweep at open never enters.
pub fn staging_dir(root: &str) -> (r: String)
    ensures
        r@ == joined(joined(root@, DIR_NAME@), "staging"@),
{
    join(index_dir(root).as_str(), "staging")
}

/// `n` in decimal, with leading zeros up to five digits.
pub open spec fn padded(n: nat) -> Seq<char> {
    let d = decimal(n);
    if d.len() < 5 {
        Seq::new((5 - d.len()) as nat, |i: int| '0') + d
    } else {
        d
    }
}

fn push_padded(out: &mut String, n: u32)
    ensures
        final(out)@ == old(out)@ + padded(n as nat),
{
    let ghost was = out@;
    let ghost d = decimal(n as nat);
    if n < 10000 {
        out.push('0');
    }
    if n < 1000 {
        out.push('0');
    }
    if n < 100 {
        out.push('0');
    }
    if n < 10 {
        out.push('0');
    }
    proof {
        reveal_with_fuel(decimal, 6);
        let zeros = Seq::new(
            (if n < 10 {
                4
            } else if n < 100 {
                3
            } else if n < 1000 {
                2
            } else if n < 10000 {
                1nat
            } else {
                0
            }),
            |i: int| '0',
        );
        assert(out@ =~= was + zeros);
        assert(was + zeros + d =~= was + (zeros + d));
        assert(d.len() >= 5 ==> zeros + d =~= d);
    }
    push_decimal(out, n as u64);
}

/// The name of a segment's index file.
pub open spec fn idx_file(segment_id: u32) -> Seq<char> {
    "seg-"@ + padded(segment_id as nat) + ".idx"@
}

/// The name of a segment's document file.
pub open spec fn doc_file(segment_id: u32) -> Seq<char> {
    "seg-"@ + padded(segment_id as nat) + ".doc"@
}

/// The name of a generation of a segment's deletions.
pub open spec fn del_file(segment_id: u32, del_gen: u32) -> Seq<char> {
    "seg-"@ + padded(segment_id as nat) + "."@ + padded(del_gen as nat) + ".del"@
}

/// The name of a generation of the file-state overlay.
pub open spec fn overlay_file(state_gen: u32) -> Seq<char> {
    "state-"@ + padded(state_gen as nat) + ".ovl"@
}

/// The name of a segment's index file.
pub fn idx_name(segment_id: u32) -> (r: String)
    ensures
        r@ == idx_file(segment_id),
{
    let mut r: String = "seg-".to_string();
    push_padded(&mut r, segment_id);
    r.push_str(".idx");
    r
}

/// The name of a segment's document file.
pub fn doc_name(segment_id: u32) -> (r: String)
    ensures
        r@ == doc_file(segment_id),
{
    let mut r: String = "seg-".to_string();
    push_padded(&mut r, segment_id);
    r.push_str(".doc");
    r
}

/// The name of a generation of a segment's deletions.
pub fn del_name(segment_id: u32, del_gen: u32) -> (r: String)
    ensures
        r@ == del_file(segment_id, del_gen),
{
    let mut r: String = "seg-".to_string();
    push_padded(&mut r, segment_id);
    r.push_str(".");
    push_padded(&mut r, del_gen);
    r.push_str(".del");
    r
}

/// The name of a generation of the file-state overlay: patches to the mutable
/// fields of documents whose content is unchanged. One generation is live.
pub fn overlay_name(state_gen: u32) -> (r: String)
    ensures
        r@ == overlay_file(state_gen),
{
    let mut r: String = "state-".to_string();
    push_padded(&mut r, state_gen);
    r.push_str(".ovl");
    r
}

/// The name under which a file is written before it is renamed.
pub fn tmp_name(final_name: &str) -> (r: String)
    ensures
        r@ == final_name@ + ".tmp"@,
{
    let mut r: String = final_name.to_string();
    r.push_str(".tmp");
    r
}

/// The files that a segment entry refers to.
pub open spec fn files_of(e: SegmentEntry) -> Seq<Seq<char>> {
    if e.del_gen > 0 {
        seq![idx_file(e.segment_id), doc_file(e.segment_id), del_file(e.segment_id, e.del_gen)]
    } else {
        seq![idx_file(e.segment_id), doc_file(e.segment_id)]
    }
}

/// The files that a segment entry refers to.
pub fn segment_files(e: &SegmentEntry) -> (v: Vec<String>)
    ensures
        views(v@) == files_of(*e),
{
    let mut v: Vec<String> = Vec::new();
    v.push(idx_name(e.segment_id));
    v.push(doc_name(e.segment_id));
    if e.del_gen > 0 {
        v.push(del_name(e.segment_id, e.del_gen));
    }
    assert(views(v@) =~= files_of(*e));
    v
}

/// `name` is a file of one of the first `n` segments.
pub open spec fn in_segments(segments: Seq<SegmentEntry>, n: int, name: Seq<char>) -> bool {
    exists|i: int| 0 <= i < n && files_of(#[trigger] segments[i]).contains(name)
}

/// The manifest refers to the file `name`.
pub open spec fn referenced(m: ManifestView, name: Seq<char>) -> bool {
    ||| in_segments(m.segments, m.segments.len() as int, name)
    ||| m.state_gen > 0 && name == overlay_file(m.state_gen)
}

/// Appends a name that is not among the names yet.
fn add_name(names: &mut Vec<String>, name: String)
    ensures
        views(final(names)@) == if views(old(names)@).contains(name@) {
            views(old(names)@)
        } else {
            views(old(names)@).push(name@)
        },
{
    let ghost was = views(names@);
    if is_among(names, name.as_str()) {
        return;
    }
    names.push(name);
    assert(views(names@) =~= was.push(name@));
}

/// Every file that a manifest refers to, each once: the files of every segment
/// and the overlay if one is live. The manifest itself is not among them.
pub fn referenced_files(m: &Manifest) -> (names: Vec<String>)
    ensures
        views(names@).no_duplicates(),
        forall|n: Seq<char>| #[trigger] views(names@).contains(n) <==> referenced(m@, n),
{
    let mut names: Vec<String> = Vec::new();
    let mut i: usize = 0;
    while i < m.segments.len()
        invariant
            i <= m.segments@.len(),
            views(names@).no_duplicates(),
            forall|n: Seq<char>| #[trigger]
                views(names@).contains(n) <==> in_segments(m.segments@, i as int, n),
        decreases m.segments@.len() - i,
    {
        let files = segment_files(&m.segments[i]);
        let ghost own = files_of(m.segments@[i as int]);
        let mut j: usize = 0;
        while j < files.len()
            invariant
                i < m.segments@.len(),
                views(files@) == own,
                own == files_of(m.segments@[i as int]),
                j <= files@.len(),
                views(names@).no_duplicates(),
                forall|n: Seq<char>| #[trigger]
                    views(names@).contains(n) <==> (in_segments(m.segments@, i as int, n)
                        || own.take(j as int).contains(n)),
            decreases files@.len() - j,
        {
            let name: String = files[j].clone();
            let ghost had = views(names@);
            add_name(&mut names, name);
            j = j + 1;
            proof {
                let now = views(names@);
                assert(name@ == own[j - 1]);
                assert(own.take(j as int) =~= own.take(j - 1).push(name@));
                assert forall|n: Seq<char>| #[trigger] now.contains(n) <==> (in_segments(
                    m.segments@,
                    i as int,
                    n,
                ) || own.take(j as int).contains(n)) by {
                    lemma_push_contains(own.take(j - 1), name@, n);
                    lemma_push_contains(had, name@, n);
                    assert(had.contains(n) <==> (in_segments(m.segments@, i as int, n)
                        || own.take(j - 1).contains(n)));
                }
            }
        }
        proof {
            assert(own.take(j as int) =~= own);
            assert forall|n: Seq<char>| #[trigger]
                views(names@).contains(n) <==> in_segments(m.segments@, i + 1, n) by {
                if in_segments(m.segments@, i + 1, n) {
                    let k = choose|k: int|
                        0 <= k < i + 1 && files_of(#[trigger] m.segments@[k]).contains(n);
                    if k < i {
                        assert(in_segments(m.segments@, i as int, n));
                    }
                }
                if own.contains(n) {
                    assert(files_of(m.segments@[i as int]).contains(n));
                }
            }
        }
        i = i + 1;
    }
    if m.state_gen > 0 {
        let ghost had = views(names@);
        add_name(&mut names, overlay_name(m.state_gen));
        proof {
            assert forall|n: Seq<char>| #[trigger]
                views(names@).contains(n) <==> referenced(m@, n) by {
                lemma_push_contains(had, overlay_file(m.state_gen), n);
                assert(had.contains(n) <==> in_segments(m.segments@, i as int, n));
            }
        }
    }
    names
}

/// The name is one that open may delete when no manifest refers to it: a segment
/// file of any generation, an overlay, or anything transient.
pub open spec fn cleanable(name: Seq<char>) -> bool {
    ||| "seg-"@.is_prefix_of(name)
    ||| "state-"@.is_prefix_of(name)
    ||| ".tmp"@.is_suffix_of(name)
}

/// Whether open may delete the file when no manifest refers to it.
pub fn is_cleanable(name: &str) -> (r: bool)
    ensures
        r == cleanable(name@),
{
    starts_with(name, "seg-") || starts_with(name, "state-") || ends_with(name, ".tmp")
}

} // verus!
