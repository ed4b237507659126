//! Unsigned LEB128.

use super::{corrupt_view, holds, lemma_holds_concat, Decoded, FormatError, FormatErrorView, Result};
use vstd::prelude::*;

verus! {

/// The encoding of `v`: seven bits a byte, least significant first, every byte
/// but the last with its high bit set.
pub open spec fn leb128(v: nat) -> Seq<u8>
    decreases v,
{
    if v < 128 {
        seq![v as u8]
    } else {
        seq![(v % 128 + 128) as u8] + leb128(v / 128)
    }
}

/// `low + mult * v` where a value was decoded; an error stays as it is.
pub open spec fn prepend(low: nat, mult: nat, r: (Decoded<nat>, int)) -> (Decoded<nat>, int) {
    match r.0 {
        Ok(v) => (Ok(low + mult * v), r.1),
        Err(e) => (Err(e), r.1),
    }
}

/// The value encoded at `pos` after `i` bytes of it were taken, and the offset
/// behind the last byte looked at. The tenth byte has room for one bit.
pub open spec fn varint_tail(s: Seq<u8>, pos: int, i: nat) -> (Decoded<nat>, int)
    decreases 10 - i,
{
    if pos >= s.len() {
        (Err(FormatErrorView::Truncated { at: pos, needed: 1 }), pos)
    } else if i >= 9 && s[pos] > 1 {
        (corrupt_view("varint overflows u64"@), pos + 1)
    } else if s[pos] < 128 {
        (Ok(s[pos] as nat), pos + 1)
    } else {
        prepend((s[pos] - 128) as nat, 128, varint_tail(s, pos + 1, i + 1))
    }
}

/// The value encoded at `pos`, and the offset behind it.
pub open spec fn varint_at(s: Seq<u8>, pos: int) -> (Decoded<nat>, int) {
    varint_tail(s, pos, 0)
}

/// The 32-bit value encoded at `pos`, and the offset behind it.
pub open spec fn varint32_at(s: Seq<u8>, pos: int) -> (Decoded<nat>, int) {
    let r = varint_at(s, pos);
    match r.0 {
        Ok(v) => if v <= u32::MAX {
            r
        } else {
            (corrupt_view("varint exceeds u32"@), r.1)
        },
        Err(e) => r,
    }
}

/// `128` to the power `i`: the weight of byte `i`.
spec fn weight(i: nat) -> nat
    decreases i,
{
    if i == 0 {
        1
    } else {
        128 * weight((i - 1) as nat)
    }
}

/// A bound on what the bytes from `i` on encode.
spec fn room(i: nat) -> nat
    decreases 9 - i,
{
    if i >= 9 {
        2
    } else {
        128 * room(i + 1)
    }
}

proof fn lemma_weight(i: nat)
    requires
        i <= 9,
    ensures
        1 <= weight(i) <= 0x8000_0000_0000_0000,
        i < 9 ==> weight(i) * 128 <= 0x8000_0000_0000_0000,
        i < 9 ==> weight(i + 1) == weight(i) * 128,
        i == 9 ==> weight(i) == 0x8000_0000_0000_0000,
{
    reveal_with_fuel(weight, 11);
    assert(i == 0 || i == 1 || i == 2 || i == 3 || i == 4 || i == 5 || i == 6 || i == 7 || i == 8
        || i == 9);
}

proof fn lemma_room(i: nat)
    ensures
        room(i) >= 2,
        room(0) == 0x1_0000_0000_0000_0000,
    decreases 9 - i,
{
    reveal_with_fuel(room, 11);
    if i < 9 {
        lemma_room(i + 1);
    }
}

proof fn lemma_tail_bounds(s: Seq<u8>, pos: int, i: nat)
    requires
        i <= 9,
        0 <= pos,
    ensures
        varint_tail(s, pos, i).0 matches Ok(v) ==> v < room(i),
        pos <= varint_tail(s, pos, i).1,
        pos <= s.len() ==> varint_tail(s, pos, i).1 <= s.len(),
        varint_tail(s, pos, i).0 is Ok ==> pos < varint_tail(s, pos, i).1 <= pos + 10 - i,
    decreases 10 - i,
{
    lemma_room(i);
    if i < 9 {
        lemma_room(i + 1);
    }
    if pos < s.len() && !(i == 9 && s[pos] > 1) && s[pos] >= 128 {
        lemma_tail_bounds(s, pos + 1, i + 1);
    }
}

/// A decoded value fits in 64 bits, and decoding moves forward inside the
/// bytes.
pub proof fn lemma_varint_bounds(s: Seq<u8>, pos: int)
    requires
        0 <= pos,
    ensures
        varint_at(s, pos).0 matches Ok(v) ==> v <= u64::MAX,
        pos <= varint_at(s, pos).1,
        pos <= s.len() ==> varint_at(s, pos).1 <= s.len(),
        varint_at(s, pos).0 is Ok ==> pos < varint_at(s, pos).1 <= pos + 10,
{
    lemma_tail_bounds(s, pos, 0);
    lemma_room(0);
}

proof fn lemma_prepend(low: nat, mult: nat, b: nat, r: (Decoded<nat>, int))
    ensures
        prepend(low, mult, prepend(b, 128, r)) == prepend(low + mult * b, mult * 128, r),
{
    if let Ok(v) = r.0 {
        assert(low + mult * (b + 128 * v) == (low + mult * b) + (mult * 128) * v)
            by (nonlinear_arith);
    }
}

/// An encoding has one to ten bytes.
pub proof fn lemma_leb128_len(v: nat)
    ensures
        leb128(v).len() >= 1,
        v <= u64::MAX ==> leb128(v).len() <= 10,
{
    lemma_leb128_len_from(v, 0);
    lemma_room(0);
}

proof fn lemma_leb128_len_from(v: nat, i: nat)
    requires
        i <= 9,
    ensures
        leb128(v).len() >= 1,
        v < room(i) ==> leb128(v).len() <= 10 - i,
    decreases v,
{
    if v >= 128 {
        if i < 9 {
            lemma_leb128_len_from(v / 128, i + 1);
        } else {
            lemma_leb128_len_from(v / 128, 9);
        }
    }
}

proof fn lemma_tail_of_leb128(s: Seq<u8>, pos: int, i: nat, v: nat)
    requires
        i <= 9,
        v < room(i),
        holds(s, pos, leb128(v)),
    ensures
        varint_tail(s, pos, i) == (Ok::<nat, FormatErrorView>(v), pos + leb128(v).len()),
    decreases v,
{
    assert(s[pos] == s.subrange(pos, pos + leb128(v).len())[0]);
    if v < 128 {
    } else {
        let b = (v % 128 + 128) as u8;
        lemma_holds_concat(s, pos, seq![b], leb128(v / 128));
        lemma_tail_of_leb128(s, pos + 1, i + 1, v / 128);
    }
}

/// Decoding what was encoded gives the value back and stops behind it.
pub proof fn lemma_varint_roundtrip(s: Seq<u8>, pos: int, v: nat)
    requires
        v <= u64::MAX,
        holds(s, pos, leb128(v)),
    ensures
        varint_at(s, pos) == (Ok::<nat, FormatErrorView>(v), pos + leb128(v).len()),
        v <= u32::MAX ==> varint32_at(s, pos) == varint_at(s, pos),
{
    lemma_room(0);
    lemma_tail_of_leb128(s, pos, 0, v);
}

/// Appends the encoding of `v`.
pub fn put_u64(out: &mut Vec<u8>, v: u64)
    ensures
        final(out)@ == old(out)@ + leb128(v as nat),
{
    let ghost start = out@;
    let mut v: u64 = v;
    let ghost orig = v as nat;
    while v >= 128
        invariant
            start + leb128(orig) == out@ + leb128(v as nat),
        decreases v,
    {
        let ghost before = out@;
        out.push((v % 128) as u8 + 128);
        assert(out@ + leb128((v / 128) as nat) =~= before + leb128(v as nat));
        v = v / 128;
    }
    out.push(v as u8);
    assert(out@ =~= start + leb128(orig));
}

/// Appends the encoding of a 32-bit value.
pub fn put_u32(out: &mut Vec<u8>, v: u32)
    ensures
        final(out)@ == old(out)@ + leb128(v as nat),
{
    put_u64(out, v as u64)
}

/// Decodes at `*pos`, advancing it behind the last byte looked at. At most ten
/// bytes are taken, and an encoding that overflows 64 bits is refused.
pub fn read_u64(buf: &[u8], pos: &mut usize) -> (r: Result<u64>)
    ensures
        match r {
            Ok(v) => varint_at(buf@, *old(pos) as int).0 == Ok::<nat, FormatErrorView>(v as nat),
            Err(e) => varint_at(buf@, *old(pos) as int).0 == Err::<nat, _>(e@),
        },
        *final(pos) == varint_at(buf@, *old(pos) as int).1,
{
    let ghost start = *pos as int;
    let mut value: u64 = 0;
    let mut mult: u64 = 1;
    let mut i: u8 = 0;
    loop
        invariant
            start == *old(pos) as int,
            0 <= i <= 9,
            mult == weight(i as nat),
            value < mult,
            *pos <= start + i,
            varint_at(buf@, start) == prepend(
                value as nat,
                mult as nat,
                varint_tail(buf@, *pos as int, i as nat),
            ),
        decreases 10 - i,
    {
        proof {
            lemma_weight(i as nat);
        }
        if *pos >= buf.len() {
            return Err(FormatError::Truncated { at: *pos, needed: 1 });
        }
        let byte = buf[*pos];
        *pos = *pos + 1;
        if i == 9 && byte > 1 {
            return Err(FormatError::corrupt("varint overflows u64"));
        }
        let low: u64 = (byte % 128) as u64;
        assert(value + mult * low < 0x1_0000_0000_0000_0000 && 0 <= mult * low) by (nonlinear_arith)
            requires
                value < mult,
                mult >= 1,
                low < 128,
                mult * 128 <= 0x8000_0000_0000_0000 || (mult == 0x8000_0000_0000_0000 && low <= 1),
        ;
        let next: u64 = value + mult * low;
        if byte < 128 {
            return Ok(next);
        }
        proof {
            lemma_prepend(
                value as nat,
                mult as nat,
                low as nat,
                varint_tail(buf@, *pos as int, (i + 1) as nat),
            );
            lemma_weight((i + 1) as nat);
            assert(next < mult * 128) by (nonlinear_arith)
                requires
                    value < mult,
                    low < 128,
                    next == value + mult * low,
            ;
        }
        value = next;
        mult = mult * 128;
        i = i + 1;
    }
}

/// Decodes a 32-bit value at `*pos`, advancing it.
pub fn read_u32(buf: &[u8], pos: &mut usize) -> (r: Result<u32>)
    ensures
        match r {
            Ok(v) => varint32_at(buf@, *old(pos) as int).0 == Ok::<nat, FormatErrorView>(v as nat),
            Err(e) => varint32_at(buf@, *old(pos) as int).0 == Err::<nat, _>(e@),
        },
        *final(pos) == varint32_at(buf@, *old(pos) as int).1,
{
    match read_u64(buf, pos) {
        Ok(v) => if v <= u32::MAX as u64 {
            Ok(v as u32)
        } else {
            Err(FormatError::corrupt("varint exceeds u32"))
        },
        Err(e) => Err(e),
    }
}

} // verus!
