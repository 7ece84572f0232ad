//! CRC32 checksums, computed by `crc32fast`.
use vstd::prelude::*;

verus! {

/// The CRC32 (IEEE) checksum of a byte sequence, as `crc32fast` computes it.
pub uninterp spec fn crc32(data: Seq<u8>) -> u32;

/// Calls `crc32fast::hash`, which feeds `data` to a fresh `crc32fast::Hasher`
/// and returns its `finalize()`.  The contract only claims that the result is
/// the checksum of the given bytes, i.e. that equal inputs give equal outputs.
#[verifier::external_body]
pub(crate) fn crc32_of(data: &[u8]) -> (r: u32)
    ensures
        r == crc32(data@),
{
    crc32fast::hash(data)
}

} // verus!
