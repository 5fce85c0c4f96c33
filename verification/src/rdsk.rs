//! Byte offsets into a `RDSK` block. The identification strings are
//! `(byte offset, byte length)` pairs of plain space-padded ASCII.
use vstd::prelude::*;

verus! {

pub const HOST_ID: usize = 12;
pub const BLOCK_BYTES: usize = 16;
pub const FLAGS: usize = 20;
pub const BAD_BLOCK_LIST: usize = 24;
pub const PARTITION_LIST: usize = 28;
pub const FILESYS_HEADER_LIST: usize = 32;
pub const DRIVE_INIT: usize = 36;
pub const CYLINDERS: usize = 64;
pub const SECTORS: usize = 68;
pub const HEADS: usize = 72;
pub const INTERLEAVE: usize = 76;
pub const PARK: usize = 80;
pub const WRITE_PRE_COMP: usize = 96;
pub const REDUCED_WRITE: usize = 100;
pub const STEP_RATE: usize = 104;
pub const RDB_BLOCKS_LO: usize = 128;
pub const RDB_BLOCKS_HI: usize = 132;
pub const LO_CYLINDER: usize = 136;
pub const HI_CYLINDER: usize = 140;
pub const CYL_BLOCKS: usize = 144;
pub const AUTO_PARK_SECONDS: usize = 148;
pub const HIGH_RDSK_BLOCK: usize = 152;
pub const DISK_VENDOR: (usize, usize) = (160, 8);
pub const DISK_PRODUCT: (usize, usize) = (168, 16);
pub const DISK_REVISION: (usize, usize) = (184, 4);
pub const CONTROLLER_VENDOR: (usize, usize) = (188, 8);
pub const CONTROLLER_PRODUCT: (usize, usize) = (196, 16);
pub const CONTROLLER_REVISION: (usize, usize) = (212, 4);

} // verus!
