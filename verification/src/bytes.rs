//! Integers as little-endian bytes.

use vstd::prelude::*;

verus! {

/// The `len` little-endian bytes of `n`.
pub open spec fn le_bytes(n: nat, len: nat) -> Seq<u8>
    decreases len,
{
    if len == 0 {
        Seq::empty()
    } else {
        seq![(n % 256) as u8] + le_bytes(n / 256, (len - 1) as nat)
    }
}

/// The number that little-endian bytes stand for.
pub open spec fn le_value(s: Seq<u8>) -> nat
    decreases s.len(),
{
    if s.len() == 0 {
        0
    } else {
        s[0] as nat + 256 * le_value(s.skip(1))
    }
}

/// 256 to the power `len`.
pub open spec fn le_bound(len: nat) -> nat
    decreases len,
{
    if len == 0 {
        1
    } else {
        256 * le_bound((len - 1) as nat)
    }
}

/// The bounds of the lengths in use.
pub proof fn lemma_le_bounds()
    ensures
        le_bound(2) == 0x1_0000,
        le_bound(4) == 0x1_0000_0000,
        le_bound(8) == 0x1_0000_0000_0000_0000,
{
    reveal_with_fuel(le_bound, 9);
}

/// A number is read back from its bytes.
pub proof fn lemma_le_round_trip(n: nat, len: nat)
    requires
        n < le_bound(len),
    ensures
        le_bytes(n, len).len() == len,
        le_value(le_bytes(n, len)) == n,
    decreases len,
{
    if len > 0 {
        lemma_le_round_trip(n / 256, (len - 1) as nat);
        assert(le_bytes(n, len).skip(1) == le_bytes(n / 256, (len - 1) as nat));
    }
}

/// There are `len` bytes.
pub proof fn lemma_le_bytes_len(n: nat, len: nat)
    ensures
        le_bytes(n, len).len() == len,
    decreases len,
{
    if len > 0 {
        lemma_le_bytes_len(n / 256, (len - 1) as nat);
    }
}

/// The number of `len` bytes is below the bound.
pub proof fn lemma_le_value_bound(s: Seq<u8>)
    ensures
        le_value(s) < le_bound(s.len()),
    decreases s.len(),
{
    if s.len() > 0 {
        lemma_le_value_bound(s.skip(1));
    }
}

/// Bytes are given back by the number that they stand for.
pub proof fn lemma_le_value_round_trip(s: Seq<u8>)
    ensures
        le_bytes(le_value(s), s.len()) == s,
    decreases s.len(),
{
    if s.len() > 0 {
        lemma_le_value_round_trip(s.skip(1));
        assert(seq![s[0]] + s.skip(1) == s);
        assert(le_value(s) % 256 == s[0]);
        assert(le_value(s) / 256 == le_value(s.skip(1)));
    }
}

/// Writes the `len` little-endian bytes of `n` at the start of `buf`.
pub fn put_le(buf: &mut [u8], n: u64, len: usize)
    requires
        len <= old(buf)@.len(),
    ensures
        final(buf)@ == le_bytes(n as nat, len as nat) + old(buf)@.skip(len as int),
{
    let mut rest: u64 = n;
    let mut i: usize = 0;
    let ghost start = buf@;
    assert(buf@ == start.take(0) + start.skip(0));
    while i < len
        invariant
            i <= len <= start.len(),
            buf@.len() == start.len(),
            buf@.take(i as int) + le_bytes(rest as nat, (len - i) as nat) == le_bytes(
                n as nat,
                len as nat,
            ),
            buf@.skip(i as int) == start.skip(i as int),
        decreases len - i,
    {
        let ghost before = buf@;
        let byte: u8 = (rest % 256) as u8;
        buf[i] = byte;
        proof {
            assert(buf@.take(i + 1) == before.take(i as int).push(byte));
            assert(before.take(i as int) + (seq![byte] + le_bytes(
                (rest / 256) as nat,
                (len - i - 1) as nat,
            )) == buf@.take(i + 1) + le_bytes((rest / 256) as nat, (len - i - 1) as nat));
            assert(start.skip(i as int).skip(1) == start.skip(i + 1));
            assert(before.skip(i as int).skip(1) == before.skip(i + 1));
            assert(buf@.skip(i + 1) == before.skip(i + 1));
        }
        rest = rest / 256;
        i = i + 1;
    }
    proof {
        assert(buf@.take(i as int) == le_bytes(n as nat, len as nat));
        assert(buf@ == buf@.take(i as int) + buf@.skip(i as int));
    }
}

/// The number that the first `len` bytes of `buf` stand for.
pub fn get_le(buf: &[u8], len: usize) -> (r: u64)
    requires
        len <= 8,
        len <= buf@.len(),
    ensures
        r == le_value(buf@.take(len as int)),
        r < le_bound(len as nat),
{
    let mut value: u64 = 0;
    let mut i: usize = len;
    let ghost bytes = buf@.take(len as int);
    proof {
        lemma_le_bounds();
        assert(bytes.skip(len as int) == Seq::<u8>::empty());
    }
    while i > 0
        invariant
            i <= len <= 8,
            len <= buf@.len(),
            bytes == buf@.take(len as int),
            value == le_value(bytes.skip(i as int)),
        decreases i,
    {
        i = i - 1;
        proof {
            assert(bytes.skip(i as int).skip(1) == bytes.skip(i + 1));
            lemma_le_value_bound(bytes.skip(i as int));
            lemma_le_bounds();
            lemma_le_bound_grows((len - i) as nat, 8);
        }
        value = value * 256 + buf[i] as u64;
    }
    proof {
        assert(bytes.skip(0) == bytes);
        lemma_le_value_bound(bytes);
    }
    value
}

proof fn lemma_le_bound_grows(a: nat, b: nat)
    requires
        a <= b,
    ensures
        le_bound(a) <= le_bound(b),
    decreases b,
{
    if a < b {
        lemma_le_bound_grows(a, (b - 1) as nat);
    }
}

/// A signed 32-bit integer in two's complement.
pub open spec fn unsigned_32(v: i32) -> nat {
    if v < 0 {
        (v + 0x1_0000_0000) as nat
    } else {
        v as nat
    }
}

/// A signed 64-bit integer in two's complement.
pub open spec fn unsigned_64(v: i64) -> nat {
    if v < 0 {
        (v + 0x1_0000_0000_0000_0000) as nat
    } else {
        v as nat
    }
}

/// The signed 32-bit integer with this two's complement.
pub open spec fn signed_32(n: nat) -> i32 {
    if n >= 0x8000_0000 {
        (n - 0x1_0000_0000) as i32
    } else {
        n as i32
    }
}

/// The signed 64-bit integer with this two's complement.
pub open spec fn signed_64(n: nat) -> i64 {
    if n >= 0x8000_0000_0000_0000 {
        (n - 0x1_0000_0000_0000_0000) as i64
    } else {
        n as i64
    }
}

/// A signed 32-bit integer in two's complement.
pub fn to_unsigned_32(v: i32) -> (r: u32)
    ensures
        r == unsigned_32(v),
        r == v as int % 0x1_0000_0000,
        signed_32(r as nat) == v,
{
    if v < 0 {
        ((v + i32::MAX) + 1) as u32 + 0x8000_0000
    } else {
        v as u32
    }
}

/// A signed 64-bit integer in two's complement.
pub fn to_unsigned_64(v: i64) -> (r: u64)
    ensures
        r == unsigned_64(v),
        r == v as int % 0x1_0000_0000_0000_0000,
        signed_64(r as nat) == v,
{
    if v < 0 {
        ((v + i64::MAX) + 1) as u64 + 0x8000_0000_0000_0000
    } else {
        v as u64
    }
}

/// The signed 32-bit integer with this two's complement.
pub fn to_signed_32(n: u32) -> (r: i32)
    ensures
        r == signed_32(n as nat),
        (r - n) % 0x1_0000_0000 == 0,
{
    if n >= 0x8000_0000 {
        ((n - 0x8000_0000) as i32 - i32::MAX) - 1
    } else {
        n as i32
    }
}

/// The signed 64-bit integer with this two's complement.
pub fn to_signed_64(n: u64) -> (r: i64)
    ensures
        r == signed_64(n as nat),
        (r - n) % 0x1_0000_0000_0000_0000 == 0,
{
    if n >= 0x8000_0000_0000_0000 {
        ((n - 0x8000_0000_0000_0000) as i64 - i64::MAX) - 1
    } else {
        n as i64
    }
}

} // verus!
