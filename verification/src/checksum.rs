//! Checksums that guard packets against corruption: CRC-32 (ISO-HDLC) from the
//! `crc` crate and XXH3-64 from the `xxhash-rust` crate.

use vstd::prelude::*;

verus! {

/// The CRC-32/ISO-HDLC checksum of `data`, as `crc` computes it.
pub uninterp spec fn crc32_iso_hdlc(data: Seq<u8>) -> u32;

/// The 64-bit XXH3 hash (seed 0, default secret) of `data`, as `xxhash-rust`
/// computes it.
pub uninterp spec fn xxh3_64_of(data: Seq<u8>) -> u64;

/// Calls `crc::Crc::<u32>::checksum` with the `CRC_32_ISO_HDLC` algorithm.
/// Claimed: the result depends on the bytes of `buf` alone (it is the value
/// named `crc32_iso_hdlc` of those bytes).
#[verifier::external_body]
fn crc32_checksum(buf: &[u8]) -> (r: u32)
    ensures
        r == crc32_iso_hdlc(buf@),
{
    crc::Crc::<u32>::new(&crc::CRC_32_ISO_HDLC).checksum(buf)
}

/// Calls `xxhash_rust::xxh3::xxh3_64`.
/// Claimed: the result depends on the bytes of `buf` alone (it is the value
/// named `xxh3_64_of` of those bytes).
#[verifier::external_body]
pub(crate) fn xxh3_64(buf: &[u8]) -> (r: u64)
    ensures
        r == xxh3_64_of(buf@),
{
    xxhash_rust::xxh3::xxh3_64(buf)
}

/// The packet fingerprint: the CRC-32 of the bytes, mixed with a fixed tag.
pub open spec fn fingerprint_of(data: Seq<u8>) -> u32 {
    crc32_iso_hdlc(data) ^ 0x5354_554eu32
}

/// CRC32 fingerprint of `buf`.
pub fn fingerprint(buf: &[u8]) -> (r: u32)
    ensures
        r == fingerprint_of(buf@),
{
    crc32_checksum(buf) ^ 0x5354_554eu32
}

} // verus!
