//! The reflected CRC-32 of Ethernet and PKZIP (polynomial 0xEDB88320,
//! initial value 0xFFFFFFFF, final XOR 0xFFFFFFFF).
use vstd::prelude::*;

verus! {

/// The reversed polynomial.
pub const CRC32_POLY: u32 = 0xEDB88320;

/// Shifts one bit out of a CRC register.
pub open spec fn crc_bit(c: u32) -> u32 {
    if c & 1 == 1 { (c >> 1u32) ^ CRC32_POLY } else { c >> 1u32 }
}

/// Shifts `n` bits out of a CRC register.
pub open spec fn crc_bits(c: u32, n: nat) -> u32
    decreases n,
{
    if n == 0 { c } else { crc_bit(crc_bits(c, (n - 1) as nat)) }
}

/// The register after one byte: the table step
/// `TABLE[(crc ^ b) & 0xFF] ^ (crc >> 8)`, written out bit by bit.
pub open spec fn crc_update(crc: u32, b: u8) -> u32 {
    crc_bits(crc ^ (b as u32), 8)
}

/// The register after a run of bytes.
pub open spec fn crc_fold(crc: u32, s: Seq<u8>) -> u32
    decreases s.len(),
{
    if s.len() == 0 { crc } else { crc_update(crc_fold(crc, s.drop_last()), s.last()) }
}

/// The CRC-32 of a byte sequence.
pub open spec fn crc32(s: Seq<u8>) -> u32 {
    crc_fold(0xFFFF_FFFFu32, s) ^ 0xFFFF_FFFFu32
}

/// Folding two runs one after the other is folding their concatenation.
pub proof fn lemma_crc_fold_append(crc: u32, a: Seq<u8>, b: Seq<u8>)
    ensures
        crc_fold(crc, a + b) == crc_fold(crc_fold(crc, a), b),
    decreases b.len(),
{
    if b.len() == 0 {
        assert(a + b =~= a);
    } else {
        lemma_crc_fold_append(crc, a, b.drop_last());
        assert((a + b).drop_last() =~= a + b.drop_last());
    }
}

/// Feeds one byte into a CRC register.
pub fn crc_step(crc: u32, b: u8) -> (r: u32)
    ensures
        r == crc_update(crc, b),
{
    let mut c: u32 = crc ^ (b as u32);
    let mut i: u32 = 0;
    while i < 8
        invariant
            i <= 8,
            c == crc_bits(crc ^ (b as u32), i as nat),
        decreases 8 - i,
    {
        if c & 1 == 1 {
            c = (c >> 1u32) ^ CRC32_POLY;
        } else {
            c = c >> 1u32;
        }
        i = i + 1;
    }
    c
}

/// Feeds `data[lo..hi]` into a CRC register.
pub fn crc_feed(crc: u32, data: &[u8], lo: usize, hi: usize) -> (r: u32)
    requires
        lo <= hi <= data@.len(),
    ensures
        r == crc_fold(crc, data@.subrange(lo as int, hi as int)),
{
    let mut c = crc;
    let mut i: usize = lo;
    while i < hi
        invariant
            lo <= i <= hi <= data@.len(),
            c == crc_fold(crc, data@.subrange(lo as int, i as int)),
        decreases hi - i,
    {
        c = crc_step(c, data[i]);
        proof {
            assert(data@.subrange(lo as int, i + 1).drop_last() =~= data@.subrange(lo as int, i as int));
        }
        i = i + 1;
    }
    c
}

/// The CRC-32 of `data`.
pub fn crc32_of(data: &[u8]) -> (r: u32)
    ensures
        r == crc32(data@),
{
    let c = crc_feed(0xFFFF_FFFF, data, 0, data.len());
    assert(data@.subrange(0, data@.len() as int) =~= data@);
    c ^ 0xFFFF_FFFF
}

} // verus!
