//! Paths stored one behind the other, located by offset and length.

use crate::text::utf8_str;
use vstd::prelude::*;
use vstd::utf8::{
    decode_utf8, encode_utf8, encode_utf8_decode_utf8, encode_utf8_valid_utf8, valid_utf8,
};

verus! {

/// The UTF-8 of these paths, one behind the other.
pub open spec fn heap(paths: Seq<Seq<char>>) -> Seq<u8>
    decreases paths.len(),
{
    if paths.len() == 0 {
        Seq::empty()
    } else {
        heap(paths.drop_last()) + encode_utf8(paths.last())
    }
}

/// Where path `i` starts in the heap.
pub open spec fn heap_off(paths: Seq<Seq<char>>, i: int) -> nat {
    heap(paths.take(i)).len()
}

/// The text at an offset of the heap, if there is any.
pub open spec fn path_in(heap: Seq<u8>, off: int, len: int) -> Option<Seq<char>> {
    if off + len <= heap.len() && valid_utf8(heap.subrange(off, off + len)) {
        Some(decode_utf8(heap.subrange(off, off + len)))
    } else {
        None
    }
}

/// The heap of the first `i + 1` paths is that of the first `i` with one more
/// path behind it.
pub proof fn lemma_heap_push(paths: Seq<Seq<char>>, i: int)
    requires
        0 <= i < paths.len(),
    ensures
        heap(paths.take(i + 1)) == heap(paths.take(i)) + encode_utf8(paths[i]),
{
    assert(paths.take(i + 1).drop_last() =~= paths.take(i));
}

/// The heap of a longer list starts with that of a shorter one.
pub proof fn lemma_heap_prefix(paths: Seq<Seq<char>>, i: int, j: int)
    requires
        0 <= i <= j <= paths.len(),
    ensures
        heap(paths.take(i)).len() <= heap(paths.take(j)).len(),
        heap(paths.take(j)).subrange(0, heap(paths.take(i)).len() as int) == heap(paths.take(i)),
    decreases j - i,
{
    let a = heap(paths.take(i));
    if i == j {
        assert(a.subrange(0, a.len() as int) =~= a);
    } else {
        lemma_heap_prefix(paths, i, j - 1);
        lemma_heap_push(paths, j - 1);
        let b = heap(paths.take(j - 1));
        let c = heap(paths.take(j));
        assert(c.subrange(0, a.len() as int) =~= b.subrange(0, a.len() as int));
    }
}

/// Every path of a heap is read back from its offset and length.
pub proof fn lemma_heap_path(paths: Seq<Seq<char>>, i: int)
    requires
        0 <= i < paths.len(),
    ensures
        heap_off(paths, i) + encode_utf8(paths[i]).len() <= heap(paths).len(),
        path_in(heap(paths), heap_off(paths, i) as int, encode_utf8(paths[i]).len() as int) == Some(
            paths[i],
        ),
{
    let n = paths.len() as int;
    assert(paths.take(n) =~= paths);
    lemma_heap_push(paths, i);
    lemma_heap_prefix(paths, i + 1, n);
    let off = heap_off(paths, i) as int;
    let e = encode_utf8(paths[i]);
    let w = heap(paths.take(i + 1));
    assert(heap(paths).subrange(off, off + e.len()) =~= w.subrange(off, off + e.len()));
    assert(w.subrange(off, off + e.len()) =~= e);
    encode_utf8_valid_utf8(paths[i]);
    encode_utf8_decode_utf8(paths[i]);
}

/// The path at an offset of the heap; `None` where the range or the UTF-8 is
/// bad.
pub fn path_at(heap: &[u8], off: u32, len: u32) -> (r: Option<&str>)
    ensures
        match r {
            Some(s) => path_in(heap@, off as int, len as int) == Some(s@),
            None => path_in(heap@, off as int, len as int) is None,
        },
{
    let n: u64 = heap.len() as u64;
    if off as u64 <= n && len as u64 <= n - off as u64 {
        match utf8_str(&heap[off as usize..off as usize + len as usize]) {
            Ok(s) => Some(s),
            Err(_) => None,
        }
    } else {
        None
    }
}

} // verus!
