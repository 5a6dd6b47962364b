//! Numbers as bytes, lowest byte first.

use vstd::prelude::*;

verus! {

/// Byte `i` of a number, lowest first.
pub open spec fn byte_of(x: nat, i: int) -> u8
    decreases i,
{
    if i <= 0 {
        (x % 256) as u8
    } else {
        byte_of(x / 256, i - 1)
    }
}

/// A `u16` as 2 bytes, lowest first.
pub open spec fn le16(x: u16) -> Seq<u8> {
    Seq::new(2, |i: int| byte_of(x as nat, i))
}

/// The `u16` whose 2 bytes start at `pos`.
pub open spec fn read16(s: Seq<u8>, pos: int) -> u16 {
    (s[pos] + 0x100 * s[pos + 1]) as u16
}

/// Appends a `u16`.
pub fn push_u16(v: &mut Vec<u8>, x: u16)
    ensures
        final(v)@ == old(v)@ + le16(x),
{
    v.push((x % 256) as u8);
    v.push(((x / 0x100) % 256) as u8);
    proof {
        lemma_bytes16(x);
        assert(v@ =~= old(v)@ + le16(x));
    }
}

/// Reads the `u16` at `pos`.
pub fn get_u16(bytes: &[u8], pos: usize) -> (x: u16)
    requires
        pos + 2 <= bytes@.len(),
    ensures
        x == read16(bytes@, pos as int),
{
    bytes[pos] as u16 + 0x100 * (bytes[pos + 1] as u16)
}

proof fn lemma_bytes16(x: u16)
    ensures
        byte_of(x as nat, 0) == x % 256,
        byte_of(x as nat, 1) == (x / 0x100) % 256,
{
    reveal_with_fuel(byte_of, 3);
}

/// Reading gives back the `u16` that was written.
pub proof fn lemma_read16(s: Seq<u8>, pos: int, x: u16)
    requires
        0 <= pos,
        pos + 2 <= s.len(),
        s.subrange(pos, pos + 2) == le16(x),
    ensures
        read16(s, pos) == x,
{
    lemma_bytes16(x);
    assert forall|i: int| 0 <= i < 2 implies #[trigger] s[pos + i] == byte_of(x as nat, i) by {
        assert(s.subrange(pos, pos + 2)[i] == s[pos + i]);
    }
    assert(s[pos + 0] == byte_of(x as nat, 0));
    assert(s[pos + 1] == byte_of(x as nat, 1));
}

/// A `u32` as 4 bytes, lowest first.
pub open spec fn le32(x: u32) -> Seq<u8> {
    Seq::new(4, |i: int| byte_of(x as nat, i))
}

/// The `u32` whose 4 bytes start at `pos`.
pub open spec fn read32(s: Seq<u8>, pos: int) -> u32 {
    (s[pos] + 0x100 * s[pos + 1] + 0x10000 * s[pos + 2] + 0x1000000 * s[pos + 3]) as u32
}

/// Appends a `u32`.
pub fn push_u32(v: &mut Vec<u8>, x: u32)
    ensures
        final(v)@ == old(v)@ + le32(x),
{
    v.push((x % 256) as u8);
    v.push(((x / 0x100) % 256) as u8);
    v.push(((x / 0x10000) % 256) as u8);
    v.push(((x / 0x1000000) % 256) as u8);
    proof {
        lemma_bytes32(x);
        assert(v@ =~= old(v)@ + le32(x));
    }
}

/// Reads the `u32` at `pos`.
pub fn get_u32(bytes: &[u8], pos: usize) -> (x: u32)
    requires
        pos + 4 <= bytes@.len(),
    ensures
        x == read32(bytes@, pos as int),
{
    bytes[pos] as u32 + 0x100 * (bytes[pos + 1] as u32) + 0x10000 * (bytes[pos + 2] as u32) + 0x1000000 * (bytes[pos + 3] as u32)
}

proof fn lemma_bytes32(x: u32)
    ensures
        byte_of(x as nat, 0) == x % 256,
        byte_of(x as nat, 1) == (x / 0x100) % 256,
        byte_of(x as nat, 2) == (x / 0x10000) % 256,
        byte_of(x as nat, 3) == (x / 0x1000000) % 256,
{
    reveal_with_fuel(byte_of, 5);
}

/// Reading gives back the `u32` that was written.
pub proof fn lemma_read32(s: Seq<u8>, pos: int, x: u32)
    requires
        0 <= pos,
        pos + 4 <= s.len(),
        s.subrange(pos, pos + 4) == le32(x),
    ensures
        read32(s, pos) == x,
{
    lemma_bytes32(x);
    assert forall|i: int| 0 <= i < 4 implies #[trigger] s[pos + i] == byte_of(x as nat, i) by {
        assert(s.subrange(pos, pos + 4)[i] == s[pos + i]);
    }
    assert(s[pos + 0] == byte_of(x as nat, 0));
    assert(s[pos + 1] == byte_of(x as nat, 1));
    assert(s[pos + 2] == byte_of(x as nat, 2));
    assert(s[pos + 3] == byte_of(x as nat, 3));
}

/// A `u64` as 8 bytes, lowest first.
pub open spec fn le64(x: u64) -> Seq<u8> {
    Seq::new(8, |i: int| byte_of(x as nat, i))
}

/// The `u64` whose 8 bytes start at `pos`.
pub open spec fn read64(s: Seq<u8>, pos: int) -> u64 {
    (s[pos] + 0x100 * s[pos + 1] + 0x10000 * s[pos + 2] + 0x1000000 * s[pos + 3] + 0x100000000 * s[pos + 4] + 0x10000000000 * s[pos + 5] + 0x1000000000000 * s[pos + 6] + 0x100000000000000 * s[pos + 7]) as u64
}

/// Appends a `u64`.
pub fn push_u64(v: &mut Vec<u8>, x: u64)
    ensures
        final(v)@ == old(v)@ + le64(x),
{
    v.push((x % 256) as u8);
    v.push(((x / 0x100) % 256) as u8);
    v.push(((x / 0x10000) % 256) as u8);
    v.push(((x / 0x1000000) % 256) as u8);
    v.push(((x / 0x100000000) % 256) as u8);
    v.push(((x / 0x10000000000) % 256) as u8);
    v.push(((x / 0x1000000000000) % 256) as u8);
    v.push(((x / 0x100000000000000) % 256) as u8);
    proof {
        lemma_bytes64(x);
        assert(v@ =~= old(v)@ + le64(x));
    }
}

/// Reads the `u64` at `pos`.
pub fn get_u64(bytes: &[u8], pos: usize) -> (x: u64)
    requires
        pos + 8 <= bytes@.len(),
    ensures
        x == read64(bytes@, pos as int),
{
    bytes[pos] as u64 + 0x100 * (bytes[pos + 1] as u64) + 0x10000 * (bytes[pos + 2] as u64) + 0x1000000 * (bytes[pos + 3] as u64) + 0x100000000 * (bytes[pos + 4] as u64) + 0x10000000000 * (bytes[pos + 5] as u64) + 0x1000000000000 * (bytes[pos + 6] as u64) + 0x100000000000000 * (bytes[pos + 7] as u64)
}

proof fn lemma_bytes64(x: u64)
    ensures
        byte_of(x as nat, 0) == x % 256,
        byte_of(x as nat, 1) == (x / 0x100) % 256,
        byte_of(x as nat, 2) == (x / 0x10000) % 256,
        byte_of(x as nat, 3) == (x / 0x1000000) % 256,
        byte_of(x as nat, 4) == (x / 0x100000000) % 256,
        byte_of(x as nat, 5) == (x / 0x10000000000) % 256,
        byte_of(x as nat, 6) == (x / 0x1000000000000) % 256,
        byte_of(x as nat, 7) == (x / 0x100000000000000) % 256,
{
    reveal_with_fuel(byte_of, 9);
}

/// Reading gives back the `u64` that was written.
pub proof fn lemma_read64(s: Seq<u8>, pos: int, x: u64)
    requires
        0 <= pos,
        pos + 8 <= s.len(),
        s.subrange(pos, pos + 8) == le64(x),
    ensures
        read64(s, pos) == x,
{
    let q0 = x as nat;
    let q1 = q0 / 256;
    let q2 = q1 / 256;
    let q3 = q2 / 256;
    let q4 = q3 / 256;
    let q5 = q4 / 256;
    let q6 = q5 / 256;
    let q7 = q6 / 256;
    assert(q7 < 256);
    assert(byte_of(x as nat, 0) == q0 % 256);
    reveal_with_fuel(byte_of, 9);
    assert(byte_of(x as nat, 0) == q0 % 256);
    assert(byte_of(x as nat, 1) == q1 % 256);
    assert(byte_of(x as nat, 2) == q2 % 256);
    assert(byte_of(x as nat, 3) == q3 % 256);
    assert(byte_of(x as nat, 4) == q4 % 256);
    assert(byte_of(x as nat, 5) == q5 % 256);
    assert(byte_of(x as nat, 6) == q6 % 256);
    assert(byte_of(x as nat, 7) == q7 % 256);
    assert forall|i: int| 0 <= i < 8 implies #[trigger] s[pos + i] == byte_of(x as nat, i) by {
        assert(s.subrange(pos, pos + 8)[i] == s[pos + i]);
    }
    assert(s[pos + 0] == byte_of(x as nat, 0));
    assert(s[pos + 1] == byte_of(x as nat, 1));
    assert(s[pos + 2] == byte_of(x as nat, 2));
    assert(s[pos + 3] == byte_of(x as nat, 3));
    assert(s[pos + 4] == byte_of(x as nat, 4));
    assert(s[pos + 5] == byte_of(x as nat, 5));
    assert(s[pos + 6] == byte_of(x as nat, 6));
    assert(s[pos + 7] == byte_of(x as nat, 7));
}

}
