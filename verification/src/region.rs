//! The memory-mapped byte region that backs the persistent ring.
//!
//! `memmap2::MmapMut` is held as an opaque value; its contents are the byte
//! sequence `region_bytes(m)`.  Mapping a file is done by the caller, which
//! hands the mapped region to the library.
use vstd::prelude::*;

verus! {

#[verifier::external_type_specification]
#[verifier::external_body]
pub struct ExMmapMut(memmap2::MmapMut);

#[verifier::external_type_specification]
#[verifier::external_body]
pub struct ExIoError(std::io::Error);

/// The bytes held by a mapped region.
pub uninterp spec fn region_bytes(m: memmap2::MmapMut) -> Seq<u8>;

/// `s` with the bytes from `start` on replaced by `src`.
pub open spec fn splice(s: Seq<u8>, start: int, src: Seq<u8>) -> Seq<u8> {
    s.subrange(0, start) + src + s.subrange(start + src.len(), s.len() as int)
}

/// Splicing keeps the length; bytes outside the spliced range are kept and
/// bytes inside it come from `src`.
pub proof fn lemma_splice(s: Seq<u8>, start: int, src: Seq<u8>)
    requires
        0 <= start,
        start + src.len() <= s.len(),
    ensures
        splice(s, start, src).len() == s.len(),
        forall|i: int|
            0 <= i < s.len() ==> #[trigger] splice(s, start, src)[i] == if start <= i < start
                + src.len() {
                src[i - start]
            } else {
                s[i]
            },
        splice(s, start, src).subrange(start, start + src.len()) == src,
{
    assert(splice(s, start, src).subrange(start, start + src.len()) =~= src);
}

/// Calls `<MmapMut as Deref>::deref`: the slice it returns holds the region's
/// bytes.
#[verifier::external_body]
pub(crate) fn region_view(m: &memmap2::MmapMut) -> (s: &[u8])
    ensures
        s@ == region_bytes(*m),
{
    std::ops::Deref::deref(m)
}

/// Calls `<MmapMut as DerefMut>::deref_mut` and copies `src` into the mapped
/// slice at `start` (`copy_from_slice`).  Claimed: the region's bytes are the
/// old bytes with that range replaced, and nothing else changes.
#[verifier::external_body]
pub(crate) fn region_write(m: &mut memmap2::MmapMut, start: usize, src: &[u8])
    requires
        start + src@.len() <= region_bytes(*old(m)).len(),
    ensures
        region_bytes(*final(m)) == splice(region_bytes(*old(m)), start as int, src@),
{
    std::ops::DerefMut::deref_mut(m)[start..][..src.len()].copy_from_slice(src)
}

/// Calls `MmapMut::flush`, which asks the operating system to write the
/// region's outstanding changes to its file.  Whether it succeeds depends on
/// the system, so nothing is claimed of the result; the region is only
/// borrowed, so its bytes do not change.
#[verifier::external_body]
pub(crate) fn region_flush(m: &memmap2::MmapMut) -> std::result::Result<(), std::io::Error> {
    m.flush()
}

} // verus!
