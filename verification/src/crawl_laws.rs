//! What a crawl keeps, what it counts, and the order in which it numbers files.

use vstd::prelude::*;
use vstd::utf8::encode_utf8;

use crate::crawler::{
    count_kind, path_key, path_sorted, ranks_match, text_bytes, text_entries, CrawledFile,
    FileEntry, FileKind, PathRank,
};
use crate::order::bytes_lt;
use crate::sort::{comes_before, is_order, lemma_order_is_permutation, picked};

verus! {

/// The text files are kept, all of them and no others, in their order.
pub proof fn lemma_text_entries(files: Seq<CrawledFile>)
    ensures
        text_entries(files) == files.filter(|f: CrawledFile| f.kind == FileKind::Text).map_values(
            |f: CrawledFile| f.entry,
        ),
    decreases files.len(),
{
    reveal(Seq::filter);
    let is_text = |f: CrawledFile| f.kind == FileKind::Text;
    let entry = |f: CrawledFile| f.entry;
    if files.len() > 0 {
        lemma_text_entries(files.drop_last());
        let before = files.drop_last().filter(is_text);
        let now = files.filter(is_text);
        if files.last().kind == FileKind::Text {
            assert(now == before.push(files.last()));
            assert(now.map_values(entry) =~= before.map_values(entry).push(files.last().entry));
        }
    } else {
        assert(files.filter(is_text).map_values(entry) =~= Seq::<FileEntry>::empty());
    }
}

/// The places of the files of a kind.
pub open spec fn of_kind(files: Seq<CrawledFile>, kind: FileKind) -> Set<int> {
    Set::new(|i: int| 0 <= i < files.len() && files[i].kind == kind)
}

/// As many files of a kind are counted as there are.
pub proof fn lemma_count_kind(files: Seq<CrawledFile>, kind: FileKind)
    ensures
        of_kind(files, kind).finite(),
        count_kind(files, kind) == of_kind(files, kind).len(),
    decreases files.len(),
{
    if files.len() > 0 {
        let f = files.drop_last();
        lemma_count_kind(f, kind);
        if files.last().kind == kind {
            assert(of_kind(files, kind) =~= of_kind(f, kind).insert(f.len() as int));
        } else {
            assert(of_kind(files, kind) =~= of_kind(f, kind));
        }
    } else {
        assert(of_kind(files, kind) =~= Set::empty());
    }
}

/// The bytes that are counted are those of the text files.
pub proof fn lemma_text_bytes(files: Seq<CrawledFile>)
    ensures
        text_bytes(files) == files.fold_left(
            0int,
            |a: int, f: CrawledFile|
                if f.kind == FileKind::Text {
                    a + f.entry.size
                } else {
                    a
                },
        ),
    decreases files.len(),
{
    if files.len() > 0 {
        lemma_text_bytes(files.drop_last());
    }
}

/// The byte strings are the same up to place `k`, where `a` has ended or has the smaller byte.
pub open spec fn smaller_at(a: Seq<u8>, b: Seq<u8>, k: int) -> bool {
    &&& 0 <= k < b.len()
    &&& k <= a.len()
    &&& forall|i: int| 0 <= i < k ==> #[trigger] a[i] == b[i]
    &&& k == a.len() || a[k] < b[k]
}

/// One byte string comes before another where it has the smaller byte at the first place where
/// they differ, or ends there.
pub proof fn lemma_bytes_lt(a: Seq<u8>, b: Seq<u8>)
    ensures
        bytes_lt(a, b) <==> exists|k: int| #[trigger] smaller_at(a, b, k),
    decreases a.len(),
{
    if b.len() == 0 {
    } else if a.len() == 0 {
        assert(smaller_at(a, b, 0));
    } else if a[0] != b[0] {
        if a[0] < b[0] {
            assert(smaller_at(a, b, 0));
        }
        assert forall|k: int| #[trigger] smaller_at(a, b, k) implies a[0] < b[0] by {
            if k > 0 {
                assert(a[0] == b[0]);
            }
        }
    } else {
        let x = a.drop_first();
        let y = b.drop_first();
        lemma_bytes_lt(x, y);
        if exists|k: int| #[trigger] smaller_at(x, y, k) {
            let k = choose|k: int| #[trigger] smaller_at(x, y, k);
            assert forall|i: int| 0 <= i < k + 1 implies #[trigger] a[i] == b[i] by {
                if i > 0 {
                    assert(x[i - 1] == y[i - 1]);
                }
            }
            assert(smaller_at(a, b, k + 1));
        }
        if exists|k: int| #[trigger] smaller_at(a, b, k) {
            let k = choose|k: int| #[trigger] smaller_at(a, b, k);
            assert(k > 0);
            assert forall|i: int| 0 <= i < k - 1 implies #[trigger] x[i] == y[i] by {
                assert(a[i + 1] == b[i + 1]);
            }
            assert(smaller_at(x, y, k - 1));
        }
    }
}

/// The paths are the same up to byte `k`, and there `a` has ended, or a name of it has, or it
/// has the smaller byte within a name.
pub open spec fn path_smaller_at(a: Seq<u8>, b: Seq<u8>, k: int) -> bool {
    &&& 0 <= k < b.len()
    &&& k <= a.len()
    &&& forall|i: int| 0 <= i < k ==> #[trigger] a[i] == b[i]
    &&& k == a.len() || a[k] != b[k] && (a[k] == 0x2f || b[k] != 0x2f && a[k] < b[k])
}

/// One path comes before another, name by name: a name that is the beginning of another comes
/// first, whatever follows it.
pub open spec fn path_before(a: Seq<char>, b: Seq<char>) -> bool {
    exists|k: int| #[trigger] path_smaller_at(encode_utf8(a), encode_utf8(b), k)
}

/// No path holds the byte zero, which no file system allows in one.
pub open spec fn paths_plain(files: Seq<CrawledFile>) -> bool {
    forall|i: int|
        0 <= i < files.len() ==> !encode_utf8((#[trigger] files[i]).entry.path@).contains(0)
}

proof fn lemma_key_at(a: Seq<char>, b: Seq<char>, k: int)
    requires
        !encode_utf8(a).contains(0),
        !encode_utf8(b).contains(0),
    ensures
        smaller_at(path_key(a), path_key(b), k) <==> path_smaller_at(
            encode_utf8(a),
            encode_utf8(b),
            k,
        ),
{
    let x = encode_utf8(a);
    let y = encode_utf8(b);
    let p = path_key(a);
    let q = path_key(b);
    assert forall|i: int| 0 <= i < x.len() && i < y.len() implies (p[i] == q[i] <==> #[trigger] x[i]
        == y[i]) by {
        assert(x.contains(x[i]));
        assert(y.contains(y[i]));
    }
    if 0 <= k < x.len() && k < y.len() {
        assert(x.contains(x[k]));
        assert(y.contains(y[k]));
    }
    if smaller_at(p, q, k) {
        assert forall|i: int| 0 <= i < k implies #[trigger] x[i] == y[i] by {
            assert(p[i] == q[i]);
        }
    }
    if path_smaller_at(x, y, k) {
        assert forall|i: int| 0 <= i < k implies #[trigger] p[i] == q[i] by {
            assert(x[i] == y[i]);
        }
    }
}

proof fn lemma_path_order(a: Seq<char>, b: Seq<char>)
    requires
        !encode_utf8(a).contains(0),
        !encode_utf8(b).contains(0),
    ensures
        bytes_lt(path_key(a), path_key(b)) <==> path_before(a, b),
{
    lemma_bytes_lt(path_key(a), path_key(b));
    if exists|k: int| #[trigger] smaller_at(path_key(a), path_key(b), k) {
        let k = choose|k: int| #[trigger] smaller_at(path_key(a), path_key(b), k);
        lemma_key_at(a, b, k);
    }
    if path_before(a, b) {
        let k = choose|k: int| #[trigger] path_smaller_at(encode_utf8(a), encode_utf8(b), k);
        lemma_key_at(a, b, k);
    }
}

/// Sorted files are the same files, none of them before one that is listed earlier, by their
/// paths name by name.
pub proof fn lemma_sorted_by_path(files: Seq<CrawledFile>, sorted: Seq<CrawledFile>)
    requires
        path_sorted(files, sorted),
        paths_plain(files),
        files.len() <= usize::MAX,
    ensures
        sorted.len() == files.len(),
        exists|places: Seq<usize>|
            #![trigger picked(files, places)]
            places.len() == files.len() && places.no_duplicates() && sorted == picked(files, places)
                && forall|p: usize| (p as int) < files.len() ==> #[trigger] places.contains(p),
        forall|i: int, j: int|
            0 <= i < j < sorted.len() ==> !path_before(
                (#[trigger] sorted[j]).entry.path@,
                (#[trigger] sorted[i]).entry.path@,
            ),
{
    let (ranks, places) = choose|ranks: Seq<PathRank>, places: Seq<usize>|
        #![trigger is_order(ranks, places)]
        ranks_match(ranks, files) && is_order(ranks, places) && sorted == picked(files, places);
    lemma_order_is_permutation(ranks, places);
    assert(sorted == picked(files, places));
    assert forall|i: int, j: int| 0 <= i < j < sorted.len() implies !path_before(
        (#[trigger] sorted[j]).entry.path@,
        (#[trigger] sorted[i]).entry.path@,
    ) by {
        let a = places[i] as int;
        let b = places[j] as int;
        assert(comes_before(ranks, places[i] as int, places[j] as int));
        assert(ranks[a]@ == path_key(files[a].entry.path@));
        assert(ranks[b]@ == path_key(files[b].entry.path@));
        assert(sorted[i] == files[a]);
        assert(sorted[j] == files[b]);
        lemma_path_order(files[b].entry.path@, files[a].entry.path@);
        crate::order::lemma_total(ranks[a]@, ranks[b]@);
    }
}

} // verus!
