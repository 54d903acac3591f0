//! CRC32 checksums, as the `crc` crate computes them.

use vstd::prelude::*;
use crc::crc32::Hasher32;

verus! {

/// The CRC32 checksum (IEEE polynomial) of some bytes.
pub uninterp spec fn crc32_ieee(data: Seq<u8>) -> u32;

/// The bytes that a digest over the IEEE polynomial was fed so far.
pub uninterp spec fn digested(digest: crc::crc32::Digest) -> Seq<u8>;

/// The running checksum of `crc`, opaque here.
#[verifier::external_type_specification]
#[verifier::external_body]
pub struct ExDigest(crc::crc32::Digest);

/// `crc::crc32::checksum_ieee`: the checksum of the given bytes, which depends on them alone.
#[verifier::external_body]
pub(crate) fn checksum_ieee(data: &[u8]) -> (r: u32)
    ensures
        r == crc32_ieee(data@),
{
    crc::crc32::checksum_ieee(data)
}

/// `crc::crc32::Digest::new` with the IEEE polynomial: a digest that was fed nothing.
#[verifier::external_body]
pub(crate) fn digest_new() -> (r: crc::crc32::Digest)
    ensures
        digested(r) == Seq::<u8>::empty(),
{
    crc::crc32::Digest::new(crc::crc32::IEEE)
}

/// `crc::Hasher32::write` of a digest: feeds it the given bytes, after those it was fed before.
#[verifier::external_body]
pub(crate) fn digest_write(digest: &mut crc::crc32::Digest, data: &[u8])
    ensures
        digested(*final(digest)) == digested(*old(digest)) + data@,
{
    Hasher32::write(digest, data)
}

/// `crc::Hasher32::sum32` of a digest over the IEEE polynomial: what `checksum_ieee` gives for
/// all the bytes that it was fed, in one piece.
#[verifier::external_body]
pub(crate) fn digest_sum32(digest: &crc::crc32::Digest) -> (r: u32)
    ensures
        r == crc32_ieee(digested(*digest)),
{
    digest.sum32()
}

} // verus!
