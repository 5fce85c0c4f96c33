//! Byte offsets into a `PART` block. `DRIVE_NAME` is a BCPL string (a length
//! byte, then the characters, 32 bytes in all); `ENVIRONMENT` is the
//! `DosEnvec`, in longwords.
use vstd::prelude::*;

verus! {

pub const FLAGS: usize = 20;
pub const DRIVE_NAME: usize = 36;
pub const ENVIRONMENT: usize = 128;

} // verus!
