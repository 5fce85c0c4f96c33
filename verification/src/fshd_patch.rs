//! `fhb_PatchFlags` bits.
//!
//! Bit *n* covers the *n*th longword after `PatchFlags` itself. Unset means
//! "this filesystem does not override that field", which is not the same as
//! overriding it with zero. `SEG_LIST` is bit 7 and `GLOBAL_VEC` bit 8,
//! because `fhb_SegListBlocks` precedes `fhb_GlobalVec` in the block.
use vstd::prelude::*;

verus! {

/// `fhb_Type` — the device node type.
pub const TYPE: u32 = 0x1;
/// `fhb_Task` — handler task pointer (0 for a seglist-loaded handler).
pub const TASK: u32 = 0x2;
/// `fhb_Lock` — a lock to pass to the handler.
pub const LOCK: u32 = 0x4;
/// `fhb_Handler` — BSTR name of the handler to load.
pub const HANDLER: u32 = 0x8;
/// `fhb_StackSize` — handler process stack.
pub const STACK_SIZE: u32 = 0x10;
/// `fhb_Priority` — handler process priority.
pub const PRIORITY: u32 = 0x20;
/// `fhb_Startup` — startup value passed to the handler.
pub const STARTUP: u32 = 0x40;
/// `fhb_SegListBlocks` — the `LSEG` chain head. Surfaced
/// unconditionally as
/// [`FileSysHeader::seg_list_blocks`](super::FileSysHeader::seg_list_blocks)
/// because the chain has to be walkable either way; this bit only
/// records whether the FSHD asked for it to be patched in.
pub const SEG_LIST: u32 = 0x80;
/// `fhb_GlobalVec` — BCPL global vector (-1 for a non-BCPL handler).
pub const GLOBAL_VEC: u32 = 0x100;

} // verus!
