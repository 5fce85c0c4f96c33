//! Byte offsets into a `LSEG` block.
use vstd::prelude::*;

verus! {

/// Start of `lsb_LoadData`; everything from here to the end of the block is
/// driver payload.
pub const LOAD_DATA: usize = 20;

} // verus!
