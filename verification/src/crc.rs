//! The CRC-32 checksum (reflected polynomial `0xEDB88320`) that closes every
//! record of the log.

use vstd::prelude::*;

verus! {

/// One shift of the checksum register.
pub open spec fn crc_shift(c: u32) -> u32 {
    if c & 1 == 1 {
        (c >> 1) ^ 0xEDB8_8320u32
    } else {
        c >> 1
    }
}

/// The register after one more byte.
pub open spec fn crc_step(c: u32, b: u8) -> u32 {
    crc_shift(
        crc_shift(crc_shift(crc_shift(crc_shift(crc_shift(crc_shift(crc_shift(c ^ (b as u32)))))))),
    )
}

/// The register after all bytes of `data`, starting from `c`.
pub open spec fn crc_fold(c: u32, data: Seq<u8>) -> u32
    decreases data.len(),
{
    if data.len() == 0 {
        c
    } else {
        crc_step(crc_fold(c, data.drop_last()), data.last())
    }
}

/// The CRC-32 checksum of `data`.
pub open spec fn crc32_of(data: Seq<u8>) -> u32 {
    crc_fold(0xFFFF_FFFFu32, data) ^ 0xFFFF_FFFFu32
}

/// Feeding `a` and then `b` is feeding `a + b`.
pub proof fn lemma_crc_fold_concat(c: u32, a: Seq<u8>, b: Seq<u8>)
    ensures
        crc_fold(c, a + b) == crc_fold(crc_fold(c, a), b),
    decreases b.len(),
{
    if b.len() == 0 {
        assert(a + b =~= a);
    } else {
        assert((a + b).drop_last() =~= a + b.drop_last());
        assert((a + b).last() == b.last());
        lemma_crc_fold_concat(c, a, b.drop_last());
    }
}

fn shift(c: u32) -> (r: u32)
    ensures
        r == crc_shift(c),
{
    if c & 1 == 1 {
        (c >> 1) ^ 0xEDB8_8320u32
    } else {
        c >> 1
    }
}

fn step(c: u32, b: u8) -> (r: u32)
    ensures
        r == crc_step(c, b),
{
    let c0: u32 = c ^ (b as u32);
    shift(shift(shift(shift(shift(shift(shift(shift(c0))))))))
}

/// The register with which a checksum starts.
pub fn crc_begin() -> (c: u32)
    ensures
        c == 0xFFFF_FFFFu32,
{
    0xFFFF_FFFFu32
}

/// Feeds `data` to the register `c`.
pub fn crc_feed(c: u32, data: &[u8]) -> (r: u32)
    ensures
        r == crc_fold(c, data@),
{
    let mut r: u32 = c;
    let mut i: usize = 0;
    while i < data.len()
        invariant
            i <= data.len(),
            r == crc_fold(c, data@.subrange(0, i as int)),
        decreases data.len() - i,
    {
        proof {
            let next = data@.subrange(0, i + 1);
            assert(next.drop_last() =~= data@.subrange(0, i as int));
            assert(next.last() == data@[i as int]);
        }
        r = step(r, data[i]);
        i += 1;
    }
    proof {
        assert(data@.subrange(0, data.len() as int) =~= data@);
    }
    r
}

/// The checksum that the register `c` stands for.
pub fn crc_end(c: u32) -> (r: u32)
    ensures
        r == c ^ 0xFFFF_FFFFu32,
{
    c ^ 0xFFFF_FFFFu32
}

/// The CRC-32 checksum of `data`.
pub fn crc32(data: &[u8]) -> (r: u32)
    ensures
        r == crc32_of(data@),
{
    crc_end(crc_feed(crc_begin(), data))
}

} // verus!
