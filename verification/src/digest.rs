//! Integrity digests used by the archive writer: the CRC-32/BZIP2 checksum
//! of each entry name and the MD5 digest of each stored payload.

use vstd::prelude::*;

verus! {

/// The CRC-32/BZIP2 checksum of a byte sequence: polynomial 0x04C11DB7,
/// initial value 0xFFFFFFFF, no bit reflection, output xor 0xFFFFFFFF.
/// The checksum is a function of the bytes alone.
pub uninterp spec fn crc32_bzip2_of(data: Seq<u8>) -> u32;

/// Relies on the crc crate's `Crc::<u32>::checksum` over the catalogued
/// `CRC_32_BZIP2` algorithm, which computes exactly that checksum.
#[verifier::external_body]
pub(crate) fn crc32_bzip2(data: &[u8]) -> (r: u32)
    ensures
        r == crc32_bzip2_of(data@),
{
    crc::Crc::<u32>::new(&crc::CRC_32_BZIP2).checksum(data)
}

/// The MD5 digest of a byte sequence, sixteen bytes long; a function of the
/// bytes alone.
pub uninterp spec fn md5_of(data: Seq<u8>) -> Seq<u8>;

/// Relies on the md-5 crate's `Md5` hasher: feeding all bytes and finalizing
/// yields the 16-byte MD5 digest of those bytes.
#[verifier::external_body]
pub(crate) fn md5_digest(data: &[u8]) -> (r: Vec<u8>)
    ensures
        r@ == md5_of(data@),
        r@.len() == 16,
{
    let mut hasher = <md5::Md5 as md5::Digest>::new();
    md5::Digest::update(&mut hasher, data);
    md5::Digest::finalize(hasher).to_vec()
}

} // verus!
