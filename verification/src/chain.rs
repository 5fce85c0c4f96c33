//! Byte offsets shared by every chained block.
use vstd::prelude::*;

verus! {

pub const NEXT: usize = 16;

} // verus!
