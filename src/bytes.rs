//! Little-endian integer fields inside byte buffers.

use vstd::prelude::*;

verus! {

/// The `u16` stored little-endian at `p`.
pub open spec fn le_u16(b: Seq<u8>, p: int) -> u16 {
    (b[p] as int + 256 * b[p + 1] as int) as u16
}

/// The `u32` stored little-endian at `p`.
pub open spec fn le_u32(b: Seq<u8>, p: int) -> u32 {
    (b[p] as int + 256 * b[p + 1] as int + 65536 * b[p + 2] as int + 16777216 * b[p
        + 3] as int) as u32
}

/// The two little-endian bytes of `v`.
pub open spec fn u16_bytes(v: u16) -> Seq<u8> {
    seq![(v % 256) as u8, (v / 256) as u8]
}

/// The four little-endian bytes of `v`.
pub open spec fn u32_bytes(v: u32) -> Seq<u8> {
    seq![(v % 256) as u8, ((v / 256) % 256) as u8, ((v / 65536) % 256) as u8, (v / 16777216) as u8]
}

pub proof fn lemma_u16_round_trip(v: u16)
    ensures
        le_u16(u16_bytes(v), 0) == v,
{
    let b = u16_bytes(v);
    assert(b[0] == (v % 256) as u8 && b[1] == (v / 256) as u8);
    assert(((v % 256) as u8) as int + 256 * ((v / 256) as u8) as int == v) by (bit_vector);
}

pub proof fn lemma_u32_round_trip(v: u32)
    ensures
        le_u32(u32_bytes(v), 0) == v,
{
    let b = u32_bytes(v);
    assert(((v % 256) as u8) as int + 256 * (((v / 256) % 256) as u8) as int + 65536 * (((v
        / 65536) % 256) as u8) as int + 16777216 * ((v / 16777216) as u8) as int == v)
        by (bit_vector);
}

pub fn read_u16_le(b: &[u8], p: usize) -> (r: u16)
    requires
        p + 2 <= b@.len(),
    ensures
        r == le_u16(b@, p as int),
{
    b[p] as u16 + 256 * (b[p + 1] as u16)
}

pub fn read_u32_le(b: &[u8], p: usize) -> (r: u32)
    requires
        p + 4 <= b@.len(),
    ensures
        r == le_u32(b@, p as int),
{
    b[p] as u32 + 256 * (b[p + 1] as u32) + 65536 * (b[p + 2] as u32) + 16777216 * (b[p
        + 3] as u32)
}

pub fn push_u16_le(v: &mut Vec<u8>, x: u16)
    ensures
        final(v)@ == old(v)@ + u16_bytes(x),
{
    v.push((x % 256) as u8);
    v.push((x / 256) as u8);
}

pub fn push_u32_le(v: &mut Vec<u8>, x: u32)
    ensures
        final(v)@ == old(v)@ + u32_bytes(x),
{
    v.push((x % 256) as u8);
    v.push(((x / 256) % 256) as u8);
    v.push(((x / 65536) % 256) as u8);
    v.push((x / 16777216) as u8);
}

} // verus!
