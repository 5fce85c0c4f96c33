//! Byte offsets into a `FSHD` block.
use vstd::prelude::*;

verus! {

pub const HOST_ID: usize = 12;
pub const FLAGS: usize = 20;
pub const DOS_TYPE: usize = 32;
pub const VERSION: usize = 36;
pub const PATCH_FLAGS: usize = 40;

/// First of the nine patched longwords; the one that `fhb_PatchFlags` bit *n*
/// gates is at `PATCHED + n * 4`.
pub const PATCHED: usize = 44;

/// Index into the patched longwords, not a byte offset.
pub const SEG_LIST_INDEX: usize = 7;

/// Byte offset of `fhb_SegListBlocks`: patched longword number seven.
pub const SEG_LIST: usize = 72;

} // verus!
