//! What a new `FSHD` block says where its spec does not say otherwise.
use vstd::prelude::*;

verus! {

/// `fhb_HostID`.
pub const HOST_ID: u32 = 0;

/// `fhb_Flags`: no bits are defined in it.
pub const FLAGS: u32 = 0;

/// `fhb_GlobalVec`: this handler is not BCPL and wants no global vector.
pub const GLOBAL_VEC: i32 = -1;

} // verus!
