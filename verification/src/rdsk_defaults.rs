//! What a new `RDSK` block says where the builder is not told otherwise.
use vstd::prelude::*;

verus! {

/// `rdb_Flags`: no disk, no LUN and no target after this one.
pub const FLAGS: u32 = 0x7;

/// `rdb_HostID`: the controller's own SCSI ID.
pub const HOST_ID: u32 = 7;

/// `rdb_Interleave`: physical sector interleave. One means none.
pub const INTERLEAVE: u32 = 1;

/// `rdb_StepRate`: head step rate in the drive's own units.
pub const STEP_RATE: u32 = 3;

/// `rdb_AutoParkSeconds`: idle seconds before an auto-park. Zero is never.
pub const AUTO_PARK_SECONDS: u32 = 0;

} // verus!
