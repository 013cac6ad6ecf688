//! The memory map under an arena.

use vstd::prelude::*;
use memmap2::MmapMut;
use std::ops::{Deref, DerefMut};

verus! {

/// `memmap2::MmapMut`, a writable memory map. Nothing inside it is visible
/// here; what it holds is spoken of through [`map_bytes`].
#[verifier::external_type_specification]
#[verifier::external_body]
pub struct ExMmapMut(memmap2::MmapMut);

/// The bytes that a memory map holds, in address order: the slice that
/// `MmapMut` dereferences to. A map is taken to hold what was last written
/// through it, which is so as long as nothing else writes to the file behind
/// it.
pub uninterp spec fn map_bytes(map: MmapMut) -> Seq<u8>;

/// Calls `<MmapMut as Deref>::deref`, which hands out the whole mapped region
/// as a byte slice. Assumed: the slice is the map's bytes.
#[verifier::external_body]
pub(crate) fn bytes_of(map: &MmapMut) -> (bytes: &[u8])
    ensures
        bytes@ == map_bytes(*map),
{
    map.deref()
}

/// Calls `<MmapMut as DerefMut>::deref_mut`, which hands out the whole mapped
/// region as a writable byte slice. Assumed: the slice starts as the map's
/// bytes, and what it holds when the borrow ends is what the map holds then.
#[verifier::external_body]
pub(crate) fn bytes_of_mut(map: &mut MmapMut) -> (bytes: &mut [u8])
    ensures
        bytes@ == map_bytes(*old(map)),
        map_bytes(*final(map)) == final(bytes)@,
{
    map.deref_mut()
}

} // verus!
