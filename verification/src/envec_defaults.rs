//! The mount parameters a new partition gets where its spec does not say.
use vstd::prelude::*;

verus! {

/// `de_TableSize`: the index of `de_DosType`, so the envec runs exactly as far
/// as the last field the mount path needs. The three tail fields are *absent*
/// rather than zero.
pub const TABLE_SIZE: u32 = 16;

/// `de_SecOrg`: sector origin.
pub const SEC_ORG: u32 = 0;

/// `de_SectorPerBlock`: device sectors per filesystem block.
pub const SECTORS_PER_BLOCK: u32 = 1;

/// `de_Reserved`: boot blocks at the start of the partition.
pub const RESERVED: u32 = 2;

/// `de_PreAlloc`: blocks reserved at the end of the partition.
pub const PRE_ALLOC: u32 = 0;

/// `de_Interleave`: filesystem-level interleave.
pub const INTERLEAVE: u32 = 0;

/// `de_NumBuffers`: cache buffers the handler allocates at mount.
pub const NUM_BUFFERS: u32 = 30;

/// `de_BufMemType`: which memory those buffers want. Zero means any.
pub const BUF_MEM_TYPE: u32 = 0;

/// `de_MaxTransfer`: the largest transfer, in bytes, a driver may issue in one
/// go.
pub const MAX_TRANSFER: u32 = 0x00FF_FFFF;

/// `de_Mask`: address mask for DMA-reachable memory.
pub const MASK: u32 = 0x7FFF_FFFE;

/// `de_DosType`: `DOS\x03`.
pub const DOS_TYPE: u32 = 0x444F_5303;

/// `de_SizeBlock`, the filesystem block size in longwords, follows the device
/// block size: the two start out equal.
pub fn size_block_longs(block_size: usize) -> (longs: u32)
    ensures
        longs == (block_size / 4) as u32,
{
    (block_size / 4) as u32
}

} // verus!
