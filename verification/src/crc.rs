//! CRC-32 (IEEE 802.3, reflected, polynomial 0xEDB88320) over byte sequences.

use vstd::prelude::*;

verus! {

/// The reflected polynomial of CRC-32.
pub const CRC_POLY: u32 = 0xEDB8_8320;

/// One bit step of the shift register.
pub open spec fn crc_shift(c: u32) -> u32 {
    (c >> 1u32) ^ (if c & 1u32 != 0 { CRC_POLY } else { 0u32 })
}

/// `k` bit steps of the shift register.
pub open spec fn crc_shift_n(c: u32, k: nat) -> u32
    decreases k,
{
    if k == 0 {
        c
    } else {
        crc_shift(crc_shift_n(c, (k - 1) as nat))
    }
}

/// Feeding one byte into the register.
pub open spec fn crc_byte(c: u32, b: u8) -> u32 {
    crc_shift_n(c ^ (b as u32), 8)
}

/// The register after feeding all of `data`, starting from `c`.
pub open spec fn crc_feed(c: u32, data: Seq<u8>) -> u32
    decreases data.len(),
{
    if data.len() == 0 {
        c
    } else {
        crc_byte(crc_feed(c, data.drop_last()), data.last())
    }
}

/// The CRC-32 checksum of `data`.
pub open spec fn spec_crc32(data: Seq<u8>) -> u32 {
    !crc_feed(0xFFFF_FFFFu32, data)
}

/// Feeding two pieces one after the other is feeding their concatenation.
pub proof fn lemma_crc_feed_concat(c: u32, a: Seq<u8>, b: Seq<u8>)
    ensures
        crc_feed(c, a + b) == crc_feed(crc_feed(c, a), b),
    decreases b.len(),
{
    if b.len() == 0 {
        assert(a + b =~= a);
    } else {
        assert((a + b).drop_last() =~= a + b.drop_last());
        assert((a + b).last() == b.last());
        lemma_crc_feed_concat(c, a, b.drop_last());
    }
}

/// The initial value of the register.
pub fn crc32_init() -> (c: u32)
    ensures
        c == 0xFFFF_FFFFu32,
{
    0xFFFF_FFFF
}

/// Feeds `data` into the register `crc`.
pub fn crc32_update(crc: u32, data: &[u8]) -> (r: u32)
    ensures
        r == crc_feed(crc, data@),
{
    let mut c = crc;
    let mut i: usize = 0;
    while i < data.len()
        invariant
            i <= data@.len(),
            c == crc_feed(crc, data@.take(i as int)),
        decreases data@.len() - i,
    {
        let b = data[i];
        c = c ^ (b as u32);
        let ghost start = c;
        let mut k: u32 = 0;
        while k < 8
            invariant
                k <= 8,
                c == crc_shift_n(start, k as nat),
            decreases 8 - k,
        {
            let mask: u32 = if (c & 1) != 0 { CRC_POLY } else { 0 };
            c = (c >> 1) ^ mask;
            k = k + 1;
        }
        assert(data@.take(i + 1).drop_last() =~= data@.take(i as int));
        i = i + 1;
    }
    assert(data@.take(i as int) =~= data@);
    c
}

/// The final complement of the register.
pub fn crc32_finalize(crc: u32) -> (r: u32)
    ensures
        r == !crc,
{
    !crc
}

/// CRC-32 of `data`.
pub fn crc32(data: &[u8]) -> (r: u32)
    ensures
        r == spec_crc32(data@),
{
    crc32_finalize(crc32_update(crc32_init(), data))
}

} // verus!
