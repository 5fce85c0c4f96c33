//! `DosEnvec` field indices, in longwords from its start.
//!
//! `de_TableSize` counts the longwords after itself, so the field at index `i`
//! is present exactly when `table_size >= i`.
use vstd::prelude::*;

verus! {

pub const TABLE_SIZE: usize = 0;
pub const SIZE_BLOCK: usize = 1;
pub const SEC_ORG: usize = 2;
pub const SURFACES: usize = 3;
pub const SECTORS_PER_BLOCK: usize = 4;
pub const BLOCKS_PER_TRACK: usize = 5;
pub const RESERVED: usize = 6;
pub const PRE_ALLOC: usize = 7;
pub const INTERLEAVE: usize = 8;
pub const LOW_CYL: usize = 9;
pub const HIGH_CYL: usize = 10;
pub const NUM_BUFFERS: usize = 11;
pub const BUF_MEM_TYPE: usize = 12;
pub const MAX_TRANSFER: usize = 13;
pub const MASK: usize = 14;
pub const BOOT_PRI: usize = 15;
pub const DOS_TYPE: usize = 16;
pub const BAUD: usize = 17;
pub const CONTROL: usize = 18;
pub const BOOT_BLOCKS: usize = 19;

} // verus!
