//! Byte offsets into a `BADB` block.
use vstd::prelude::*;

verus! {

/// Start of `bbb_BlockPairs`: pairs of (bad, good) longwords.
pub const ENTRIES: usize = 24;

/// Longwords before the entries. `SummedLongs` counts these plus the entry
/// longwords.
pub const HEADER_LONGS: usize = 6;

} // verus!
