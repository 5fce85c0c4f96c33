//! Byte offsets into the header every RDB-family block begins with.
use vstd::prelude::*;

verus! {

/// The magic number.
pub const ID: usize = 0;

/// How many longwords the checksum covers.
pub const SUMMED_LONGS: usize = 4;

/// The value that makes the covered longwords sum to zero.
pub const CHK_SUM: usize = 8;

/// The owning controller's ID, at one offset in every block type.
pub const HOST_ID: usize = 12;

} // verus!
