//! `rdb_Flags` bits (`RDBFF_*`).
//!
//! The field stays a plain `u32`: the format allows any bit pattern and a
//! reader preserves what it did not understand. The bits that are defined get
//! names here.
use vstd::prelude::*;

verus! {

/// No disks exist after this one on this controller — the scan may
/// stop here.
pub const LAST: u32 = 0x1;
/// No LUNs exist after this one on this target — stop probing LUNs.
pub const LAST_LUN: u32 = 0x2;
/// No target IDs exist after this one — stop probing targets.
pub const LAST_TID: u32 = 0x4;
/// The drive may not be told to reselect; the driver must keep the
/// bus for the whole transfer.
pub const NO_RESELECT: u32 = 0x8;
/// The `rdb_DiskVendor`/`Product`/`Revision` strings are valid.
/// Without this bit their bytes mean nothing and must not be shown.
pub const DISK_ID: u32 = 0x10;
/// The `rdb_ControllerVendor`/`Product`/`Revision` strings are
/// valid, on the same terms.
pub const CTRLR_ID: u32 = 0x20;
/// The drive supports synchronous SCSI transfers.
pub const SYNCH: u32 = 0x40;

} // verus!
