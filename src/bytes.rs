//! Little-endian integers and hex digits over bytes.
use vstd::prelude::*;

verus! {

/// The integer that two little-endian bytes encode.
pub open spec fn le_u16(b0: u8, b1: u8) -> u16 {
    ((b0 as u16) | ((b1 as u16) << 8u16)) as u16
}

/// The integer that four little-endian bytes encode.
pub open spec fn le_u32(b0: u8, b1: u8, b2: u8, b3: u8) -> u32 {
    ((b0 as u32) | ((b1 as u32) << 8u32) | ((b2 as u32) << 16u32) | ((b3 as u32) << 24u32)) as u32
}

/// The four little-endian bytes of `v`.
pub open spec fn u32_le_bytes(v: u32) -> Seq<u8> {
    seq![v as u8, (v >> 8u32) as u8, (v >> 16u32) as u8, (v >> 24u32) as u8]
}

/// The two little-endian bytes of `v`.
pub open spec fn u16_le_bytes(v: u16) -> Seq<u8> {
    seq![v as u8, (v >> 8u16) as u8]
}

/// Reading back the bytes of a `u32` gives the `u32`.
pub proof fn lemma_le_u32_round_trip(v: u32)
    ensures
        le_u32(v as u8, (v >> 8u32) as u8, (v >> 16u32) as u8, (v >> 24u32) as u8) == v,
{
    assert(((v as u8) as u32 | ((((v >> 8u32) as u8) as u32) << 8u32) | ((((v >> 16u32) as u8) as u32) << 16u32)
        | ((((v >> 24u32) as u8) as u32) << 24u32)) == v) by (bit_vector);
}

/// Reading back the bytes of a `u16` gives the `u16`.
pub proof fn lemma_le_u16_round_trip(v: u16)
    ensures
        le_u16(v as u8, (v >> 8u16) as u8) == v,
{
    assert(((v as u8) as u16 | ((((v >> 8u16) as u8) as u16) << 8u16)) == v) by (bit_vector);
}

/// Reads a little-endian `u32` from `b[at..at + 4]`.
pub fn read_u32(b: &[u8], at: usize) -> (r: u32)
    requires
        at + 4 <= b@.len(),
    ensures
        r == le_u32(b@[at as int], b@[at + 1], b@[at + 2], b@[at + 3]),
{
    (b[at] as u32) | ((b[at + 1] as u32) << 8u32) | ((b[at + 2] as u32) << 16u32) | ((b[at + 3] as u32) << 24u32)
}

/// Reads a little-endian `u16` from `b[at..at + 2]`.
pub fn read_u16(b: &[u8], at: usize) -> (r: u16)
    requires
        at + 2 <= b@.len(),
    ensures
        r == le_u16(b@[at as int], b@[at + 1]),
{
    (b[at] as u16) | ((b[at + 1] as u16) << 8u16)
}

/// The ASCII hex digit (`0-9`, `A-F`) of the nibble `n`.
pub open spec fn hex_digit(n: u8) -> u8 {
    if n < 10 { (n + 48) as u8 } else { (n + 55) as u8 }
}

/// Returns the ASCII hex digit of a nibble.
pub fn to_hex_digit(n: u8) -> (r: u8)
    requires
        n < 16,
    ensures
        r == hex_digit(n),
{
    if n < 10 { n + 48 } else { n + 55 }
}

} // verus!
