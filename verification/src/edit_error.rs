//! Why an edit or a commit is refused, and what a commit reports.
use vstd::prelude::*;

use crate::checksum::SealError;
use crate::text;
use crate::text::{put, put_number, put_quoted};

verus! {

/// Why an editor refused an edit.
///
/// None of these involves a device: a rejected edit leaves the editor exactly
/// as it was.
#[derive(Debug, Clone, PartialEq, Eq)]
pub enum EditError {
    /// There is no partition at that index.
    NoSuchPartition {
        /// The index asked for.
        index: usize,
        /// How many partitions there are.
        count: usize,
    },
    /// A drive name does not fit the 32-byte field, or is empty.
    InvalidName {
        /// The name asked for.
        name: String,
        /// The longest name the field holds.
        max: usize,
    },
    /// Another partition already carries that drive name.
    DuplicateName {
        /// The name asked for.
        name: String,
    },
    /// An identification string does not fit its fixed-width field.
    IdentityTooLong {
        /// Which field.
        field: &'static str,
        /// The string asked for.
        value: String,
        /// How many characters the field holds.
        max: usize,
    },
    /// There is no filesystem at that index.
    NoSuchFileSystem {
        /// The index asked for.
        index: usize,
        /// How many filesystems there are.
        count: usize,
    },
    /// A cylinder range runs backwards.
    CylindersInverted {
        /// `de_LowCyl` as asked for.
        low_cyl: u32,
        /// `de_HighCyl` as asked for.
        high_cyl: u32,
    },
    /// The extent ends past the last block of the disk.
    PastEndOfDisk {
        /// The last cylinder asked for.
        high_cyl: u32,
        /// The last cylinder the disk has, in the extent's own cylinders.
        last_cylinder: u32,
    },
    /// The extent reaches into the RDB area.
    OverlapsRdbArea {
        /// The first cylinder asked for.
        low_cyl: u32,
        /// The first cylinder available, in the extent's own cylinders.
        lo_cylinder: u32,
    },
    /// The extent overlaps another partition.
    PartitionsOverlap {
        /// The partition it overlaps.
        index: usize,
        /// That partition's name.
        name: String,
        /// The first block both claim.
        start: u64,
        /// How many.
        len: u64,
    },
    /// A size is below one cylinder, so it describes no partition at all.
    PartitionTooSmall {
        /// The size asked for.
        bytes: u64,
        /// One cylinder, in bytes.
        cylinder_bytes: u64,
    },
    /// No free run of cylinders is long enough.
    NoRoomForPartition {
        /// How many cylinders were asked for.
        cylinders: u64,
        /// The longest free run.
        largest_gap: u64,
    },
    /// A cylinder of this geometry holds no blocks.
    UnusableGeometry {
        /// Surfaces per cylinder.
        heads: u32,
        /// Blocks per track.
        sectors: u32,
    },
    /// The RDB area is never shrunk.
    RdbAreaWouldShrink {
        /// `rdb_RDBBlocksHi` as it stands.
        hi: u32,
        /// What was asked for.
        new_hi: u32,
    },
    /// A partition is inside the blocks a larger RDB area would claim.
    RdbAreaBlocked {
        /// The partition in the way.
        index: usize,
        /// Its name.
        name: String,
        /// The ceiling asked for.
        new_hi: u32,
        /// The cylinder it would have to start on instead, in its own cylinders.
        move_to_cylinder: u32,
    },
    /// A partition starts below the boundary asked for.
    LoCylinderBlocked {
        /// The partition in the way.
        index: usize,
        /// Its name.
        name: String,
        /// Where it starts.
        low_cyl: u32,
        /// The boundary asked for.
        lo_cylinder: u32,
    },
    /// The disk would end before a partition does.
    CylindersBelowPartition {
        /// The partition in the way.
        index: usize,
        /// Its name.
        name: String,
        /// Where it ends.
        high_cyl: u32,
        /// The cylinder count asked for.
        cylinders: u32,
    },
    /// The edit claims blocks the disk does not have.
    ClaimsBlocksPastEndOfDisk {
        /// The last block claimed.
        last_block: u64,
        /// How many blocks the disk has.
        disk_blocks: u64,
    },
}

/// A refused edit as the contracts speak of it.
#[verifier::ext_equal]
pub enum Rejection {
    NoSuchPartition { index: usize, count: usize },
    InvalidName { name: Seq<char>, max: usize },
    DuplicateName { name: Seq<char> },
    IdentityTooLong { field: Seq<char>, value: Seq<char>, max: usize },
    NoSuchFileSystem { index: usize, count: usize },
    CylindersInverted { low_cyl: u32, high_cyl: u32 },
    PastEndOfDisk { high_cyl: u32, last_cylinder: u32 },
    OverlapsRdbArea { low_cyl: u32, lo_cylinder: u32 },
    PartitionsOverlap { index: usize, name: Seq<char>, start: u64, len: u64 },
    PartitionTooSmall { bytes: u64, cylinder_bytes: u64 },
    NoRoomForPartition { cylinders: u64, largest_gap: u64 },
    UnusableGeometry { heads: u32, sectors: u32 },
    RdbAreaWouldShrink { hi: u32, new_hi: u32 },
    RdbAreaBlocked { index: usize, name: Seq<char>, new_hi: u32, move_to_cylinder: u32 },
    LoCylinderBlocked { index: usize, name: Seq<char>, low_cyl: u32, lo_cylinder: u32 },
    CylindersBelowPartition { index: usize, name: Seq<char>, high_cyl: u32, cylinders: u32 },
    ClaimsBlocksPastEndOfDisk { last_block: u64, disk_blocks: u64 },
}

impl View for EditError {
    type V = Rejection;

    open spec fn view(&self) -> Rejection {
        match *self {
            EditError::NoSuchPartition { index, count } => {
                Rejection::NoSuchPartition { index, count }
            },
            EditError::InvalidName { name, max } => Rejection::InvalidName { name: name@, max },
            EditError::DuplicateName { name } => Rejection::DuplicateName { name: name@ },
            EditError::IdentityTooLong { field, value, max } => {
                Rejection::IdentityTooLong { field: field@, value: value@, max }
            },
            EditError::NoSuchFileSystem { index, count } => {
                Rejection::NoSuchFileSystem { index, count }
            },
            EditError::CylindersInverted { low_cyl, high_cyl } => {
                Rejection::CylindersInverted { low_cyl, high_cyl }
            },
            EditError::PastEndOfDisk { high_cyl, last_cylinder } => {
                Rejection::PastEndOfDisk { high_cyl, last_cylinder }
            },
            EditError::OverlapsRdbArea { low_cyl, lo_cylinder } => {
                Rejection::OverlapsRdbArea { low_cyl, lo_cylinder }
            },
            EditError::PartitionsOverlap { index, name, start, len } => {
                Rejection::PartitionsOverlap { index, name: name@, start, len }
            },
            EditError::PartitionTooSmall { bytes, cylinder_bytes } => {
                Rejection::PartitionTooSmall { bytes, cylinder_bytes }
            },
            EditError::NoRoomForPartition { cylinders, largest_gap } => {
                Rejection::NoRoomForPartition { cylinders, largest_gap }
            },
            EditError::UnusableGeometry { heads, sectors } => {
                Rejection::UnusableGeometry { heads, sectors }
            },
            EditError::RdbAreaWouldShrink { hi, new_hi } => {
                Rejection::RdbAreaWouldShrink { hi, new_hi }
            },
            EditError::RdbAreaBlocked { index, name, new_hi, move_to_cylinder } => {
                Rejection::RdbAreaBlocked { index, name: name@, new_hi, move_to_cylinder }
            },
            EditError::LoCylinderBlocked { index, name, low_cyl, lo_cylinder } => {
                Rejection::LoCylinderBlocked { index, name: name@, low_cyl, lo_cylinder }
            },
            EditError::CylindersBelowPartition { index, name, high_cyl, cylinders } => {
                Rejection::CylindersBelowPartition { index, name: name@, high_cyl, cylinders }
            },
            EditError::ClaimsBlocksPastEndOfDisk { last_block, disk_blocks } => {
                Rejection::ClaimsBlocksPastEndOfDisk { last_block, disk_blocks }
            },
        }
    }
}

impl EditError {
    /// The line [`message`](Self::message) gives.
    pub open spec fn line(self) -> Seq<char> {
        match self {
            EditError::NoSuchPartition { index, count } => "there is no partition "@
                + text::decimal(index as int) + ": the RDB has "@ + text::decimal(count as int)
                + " of them"@,
            EditError::InvalidName { name, max } => "drive name "@ + text::debug_text(name@)
                + " does not fit pb_DriveName: 1..="@ + text::decimal(max as int)
                + " characters are available"@,
            EditError::DuplicateName { name } => "another partition is already named "@
                + text::debug_text(name@),
            EditError::IdentityTooLong { field, value, max } => field@ + " holds "@
                + text::decimal(max as int) + " characters, which "@ + text::debug_text(value@)
                + " exceeds"@,
            EditError::NoSuchFileSystem { index, count } => "there is no filesystem "@
                + text::decimal(index as int) + ": the RDB has "@ + text::decimal(count as int)
                + " of them"@,
            EditError::CylindersInverted { low_cyl, high_cyl } => "the cylinder range runs backwards: LowCyl "@
                + text::decimal(low_cyl as int) + " is above HighCyl "@
                + text::decimal(high_cyl as int),
            EditError::PastEndOfDisk { high_cyl, last_cylinder } => "cylinder "@
                + text::decimal(high_cyl as int) + " is past "@
                + text::decimal(last_cylinder as int) + ", the last one the disk has"@,
            EditError::OverlapsRdbArea { low_cyl, lo_cylinder } => "cylinder "@
                + text::decimal(low_cyl as int)
                + " is inside the RDB area: the first cylinder available to partitions is "@
                + text::decimal(lo_cylinder as int),
            EditError::PartitionsOverlap { index, name, start, len } => "the extent overlaps partition "@
                + text::decimal(index as int) + " ("@ + text::debug_text(name@) + ") on "@
                + text::decimal(len as int) + " blocks from block "@ + text::decimal(start as int),
            EditError::PartitionTooSmall { bytes, cylinder_bytes } => text::decimal(bytes as int)
                + " bytes is less than the "@ + text::decimal(cylinder_bytes as int)
                + "-byte cylinder that is the smallest partition"@,
            EditError::NoRoomForPartition { cylinders, largest_gap } => "no free run of "@
                + text::decimal(cylinders as int) + " cylinders: the largest gap is "@
                + text::decimal(largest_gap as int),
            EditError::UnusableGeometry { heads, sectors } => "a cylinder of "@
                + text::decimal(heads as int) + " heads by "@ + text::decimal(sectors as int)
                + " sectors holds no blocks"@,
            EditError::RdbAreaWouldShrink { hi, new_hi } => "RDBBlocksHi "@
                + text::decimal(hi as int) + " is never shrunk: "@ + text::decimal(new_hi as int)
                + " is below it"@,
            EditError::RdbAreaBlocked { index, name, new_hi, move_to_cylinder } => "partition "@
                + text::decimal(index as int) + " ("@ + text::debug_text(name@)
                + ") is inside the blocks an RDBBlocksHi of "@ + text::decimal(new_hi as int)
                + " would claim: move it to cylinder "@ + text::decimal(move_to_cylinder as int)
                + " or above first"@,
            EditError::LoCylinderBlocked { index, name, low_cyl, lo_cylinder } => "partition "@
                + text::decimal(index as int) + " ("@ + text::debug_text(name@)
                + ") starts at cylinder "@ + text::decimal(low_cyl as int)
                + ", below the LoCylinder "@ + text::decimal(lo_cylinder as int) + " asked for"@,
            EditError::CylindersBelowPartition { index, name, high_cyl, cylinders } => "a disk of "@
                + text::decimal(cylinders as int) + " cylinders does not reach cylinder "@
                + text::decimal(high_cyl as int) + ", where partition "@
                + text::decimal(index as int) + " ("@ + text::debug_text(name@) + ") ends"@,
            EditError::ClaimsBlocksPastEndOfDisk { last_block, disk_blocks } => "block "@
                + text::decimal(last_block as int) + " is past the end of a disk of "@
                + text::decimal(disk_blocks as int) + " blocks"@,
        }
    }

    /// One line a user can act on.
    pub fn message(&self) -> (s: String)
        ensures
            s@ == self.line(),
    {
        let mut s: String = String::new();
        match self {
            EditError::NoSuchPartition { index, count } => {
                put(&mut s, "there is no partition ");
                put_number(&mut s, *index as u64);
                put(&mut s, ": the RDB has ");
                put_number(&mut s, *count as u64);
                put(&mut s, " of them");
            },
            EditError::InvalidName { name, max } => {
                put(&mut s, "drive name ");
                put_quoted(&mut s, name.as_str());
                put(&mut s, " does not fit pb_DriveName: 1..=");
                put_number(&mut s, *max as u64);
                put(&mut s, " characters are available");
            },
            EditError::DuplicateName { name } => {
                put(&mut s, "another partition is already named ");
                put_quoted(&mut s, name.as_str());
            },
            EditError::IdentityTooLong { field, value, max } => {
                put(&mut s, field);
                put(&mut s, " holds ");
                put_number(&mut s, *max as u64);
                put(&mut s, " characters, which ");
                put_quoted(&mut s, value.as_str());
                put(&mut s, " exceeds");
            },
            EditError::NoSuchFileSystem { index, count } => {
                put(&mut s, "there is no filesystem ");
                put_number(&mut s, *index as u64);
                put(&mut s, ": the RDB has ");
                put_number(&mut s, *count as u64);
                put(&mut s, " of them");
            },
            EditError::CylindersInverted { low_cyl, high_cyl } => {
                put(&mut s, "the cylinder range runs backwards: LowCyl ");
                put_number(&mut s, *low_cyl as u64);
                put(&mut s, " is above HighCyl ");
                put_number(&mut s, *high_cyl as u64);
            },
            EditError::PastEndOfDisk { high_cyl, last_cylinder } => {
                put(&mut s, "cylinder ");
                put_number(&mut s, *high_cyl as u64);
                put(&mut s, " is past ");
                put_number(&mut s, *last_cylinder as u64);
                put(&mut s, ", the last one the disk has");
            },
            EditError::OverlapsRdbArea { low_cyl, lo_cylinder } => {
                put(&mut s, "cylinder ");
                put_number(&mut s, *low_cyl as u64);
                put(&mut s, " is inside the RDB area: the first cylinder available to partitions is ");
                put_number(&mut s, *lo_cylinder as u64);
            },
            EditError::PartitionsOverlap { index, name, start, len } => {
                put(&mut s, "the extent overlaps partition ");
                put_number(&mut s, *index as u64);
                put(&mut s, " (");
                put_quoted(&mut s, name.as_str());
                put(&mut s, ") on ");
                put_number(&mut s, *len as u64);
                put(&mut s, " blocks from block ");
                put_number(&mut s, *start as u64);
            },
            EditError::PartitionTooSmall { bytes, cylinder_bytes } => {
                put_number(&mut s, *bytes as u64);
                put(&mut s, " bytes is less than the ");
                put_number(&mut s, *cylinder_bytes as u64);
                put(&mut s, "-byte cylinder that is the smallest partition");
            },
            EditError::NoRoomForPartition { cylinders, largest_gap } => {
                put(&mut s, "no free run of ");
                put_number(&mut s, *cylinders as u64);
                put(&mut s, " cylinders: the largest gap is ");
                put_number(&mut s, *largest_gap as u64);
            },
            EditError::UnusableGeometry { heads, sectors } => {
                put(&mut s, "a cylinder of ");
                put_number(&mut s, *heads as u64);
                put(&mut s, " heads by ");
                put_number(&mut s, *sectors as u64);
                put(&mut s, " sectors holds no blocks");
            },
            EditError::RdbAreaWouldShrink { hi, new_hi } => {
                put(&mut s, "RDBBlocksHi ");
                put_number(&mut s, *hi as u64);
                put(&mut s, " is never shrunk: ");
                put_number(&mut s, *new_hi as u64);
                put(&mut s, " is below it");
            },
            EditError::RdbAreaBlocked { index, name, new_hi, move_to_cylinder } => {
                put(&mut s, "partition ");
                put_number(&mut s, *index as u64);
                put(&mut s, " (");
                put_quoted(&mut s, name.as_str());
                put(&mut s, ") is inside the blocks an RDBBlocksHi of ");
                put_number(&mut s, *new_hi as u64);
                put(&mut s, " would claim: move it to cylinder ");
                put_number(&mut s, *move_to_cylinder as u64);
                put(&mut s, " or above first");
            },
            EditError::LoCylinderBlocked { index, name, low_cyl, lo_cylinder } => {
                put(&mut s, "partition ");
                put_number(&mut s, *index as u64);
                put(&mut s, " (");
                put_quoted(&mut s, name.as_str());
                put(&mut s, ") starts at cylinder ");
                put_number(&mut s, *low_cyl as u64);
                put(&mut s, ", below the LoCylinder ");
                put_number(&mut s, *lo_cylinder as u64);
                put(&mut s, " asked for");
            },
            EditError::CylindersBelowPartition { index, name, high_cyl, cylinders } => {
                put(&mut s, "a disk of ");
                put_number(&mut s, *cylinders as u64);
                put(&mut s, " cylinders does not reach cylinder ");
                put_number(&mut s, *high_cyl as u64);
                put(&mut s, ", where partition ");
                put_number(&mut s, *index as u64);
                put(&mut s, " (");
                put_quoted(&mut s, name.as_str());
                put(&mut s, ") ends");
            },
            EditError::ClaimsBlocksPastEndOfDisk { last_block, disk_blocks } => {
                put(&mut s, "block ");
                put_number(&mut s, *last_block as u64);
                put(&mut s, " is past the end of a disk of ");
                put_number(&mut s, *disk_blocks as u64);
                put(&mut s, " blocks");
            },
        }
        assert(s@ =~= self.line());
        s
    }
}

/// Why a commit was refused, or failed.
///
/// Every variant except [`Io`](Self::Io) is raised before the first block is
/// written.
#[derive(Debug, Clone, PartialEq, Eq)]
pub enum CommitError<E> {
    /// The sink failed on a write.
    Io(E),
    /// The sink's block size is not a power of two in the supported range.
    UnsupportedBlockSize {
        /// What the sink said its block size was.
        block_size: usize,
    },
    /// The sink's block size is not the one the RDB was read in.
    BlockSizeMismatch {
        /// The RDB's.
        rdb: usize,
        /// The sink's.
        sink: usize,
    },
    /// The RDB area is empty or inverted.
    RdbAreaInvalid {
        /// `rdb_RDBBlocksLo`.
        lo: u32,
        /// `rdb_RDBBlocksHi`.
        hi: u32,
    },
    /// The `RDSK` block lies above the area a commit may write.
    RdskOutsideRdbArea {
        /// Where it is.
        rdsk_block: u64,
        /// The last block of the area.
        hi: u64,
    },
    /// The area cannot hold the blocks the new layout needs.
    RdbAreaTooSmall {
        /// Blocks the layout needs inside the area.
        needed: u64,
        /// Blocks the area has.
        available: u64,
        /// First block of the area.
        lo: u64,
        /// Last block of the area, inclusive.
        hi: u64,
    },
    /// An expanded area reaches past the end of the sink.
    RdbAreaPastEndOfDisk {
        /// `rdb_RDBBlocksHi` as expanded.
        hi: u32,
        /// Blocks the sink has.
        block_count: u64,
    },
    /// A write outside the area was refused.
    OutsideRdbArea {
        /// The block.
        lba: u64,
        /// The last block of the area.
        hi: u64,
    },
    /// Sealing a block's checksum failed.
    Seal(SealError),
}

impl<E> CommitError<E> {
    /// The line [`message`](Self::message) gives.
    pub open spec fn line(self, cause: Seq<char>) -> Seq<char> {
        match self {
            CommitError::Io(_) => "writing a block failed: "@ + cause,
            CommitError::UnsupportedBlockSize { block_size } => "unsupported device block size "@
                + text::decimal(block_size as int) + ": must be a power of two in 512..=32768"@,
            CommitError::BlockSizeMismatch { rdb, sink } => "the RDB is in "@
                + text::decimal(rdb as int) + "-byte blocks but the sink writes "@
                + text::decimal(sink as int) + "-byte blocks"@,
            CommitError::RdbAreaInvalid { lo, hi } => "RDB area is empty or inverted: RDBBlocksLo "@
                + text::decimal(lo as int) + " is above RDBBlocksHi "@ + text::decimal(hi as int),
            CommitError::RdskOutsideRdbArea { rdsk_block, hi } => "the RDSK block at "@
                + text::decimal(rdsk_block as int) + " is above RDBBlocksHi "@
                + text::decimal(hi as int) + ", outside the area this edit may write"@,
            CommitError::RdbAreaTooSmall { needed, available, lo, hi } => "the RDB area "@
                + text::decimal(lo as int) + "..="@ + text::decimal(hi as int) + " holds "@
                + text::decimal(available as int) + " blocks but the new layout needs "@
                + text::decimal(needed as int) + "; grow it with expand_rdb_area"@,
            CommitError::RdbAreaPastEndOfDisk { hi, block_count } => "the expanded RDB area ends at block "@
                + text::decimal(hi as int) + ", past the "@ + text::decimal(block_count as int)
                + " blocks the sink has"@,
            CommitError::OutsideRdbArea { lba, hi } => "refusing to write block "@
                + text::decimal(lba as int) + ", which is outside the RDB area 0..="@
                + text::decimal(hi as int),
            CommitError::Seal(e) => "sealing a block failed: "@ + e.line(),
        }
    }

    /// One line a user can act on. `cause` is what the underlying error says, for a
    /// transfer that failed.
    pub fn message(&self, cause: &str) -> (s: String)
        ensures
            s@ == self.line(cause@),
    {
        let mut s: String = String::new();
        match self {
            CommitError::Io(_) => {
                put(&mut s, "writing a block failed: ");
                put(&mut s, cause);
            },
            CommitError::UnsupportedBlockSize { block_size } => {
                put(&mut s, "unsupported device block size ");
                put_number(&mut s, *block_size as u64);
                put(&mut s, ": must be a power of two in 512..=32768");
            },
            CommitError::BlockSizeMismatch { rdb, sink } => {
                put(&mut s, "the RDB is in ");
                put_number(&mut s, *rdb as u64);
                put(&mut s, "-byte blocks but the sink writes ");
                put_number(&mut s, *sink as u64);
                put(&mut s, "-byte blocks");
            },
            CommitError::RdbAreaInvalid { lo, hi } => {
                put(&mut s, "RDB area is empty or inverted: RDBBlocksLo ");
                put_number(&mut s, *lo as u64);
                put(&mut s, " is above RDBBlocksHi ");
                put_number(&mut s, *hi as u64);
            },
            CommitError::RdskOutsideRdbArea { rdsk_block, hi } => {
                put(&mut s, "the RDSK block at ");
                put_number(&mut s, *rdsk_block as u64);
                put(&mut s, " is above RDBBlocksHi ");
                put_number(&mut s, *hi as u64);
                put(&mut s, ", outside the area this edit may write");
            },
            CommitError::RdbAreaTooSmall { needed, available, lo, hi } => {
                put(&mut s, "the RDB area ");
                put_number(&mut s, *lo as u64);
                put(&mut s, "..=");
                put_number(&mut s, *hi as u64);
                put(&mut s, " holds ");
                put_number(&mut s, *available as u64);
                put(&mut s, " blocks but the new layout needs ");
                put_number(&mut s, *needed as u64);
                put(&mut s, "; grow it with expand_rdb_area");
            },
            CommitError::RdbAreaPastEndOfDisk { hi, block_count } => {
                put(&mut s, "the expanded RDB area ends at block ");
                put_number(&mut s, *hi as u64);
                put(&mut s, ", past the ");
                put_number(&mut s, *block_count as u64);
                put(&mut s, " blocks the sink has");
            },
            CommitError::OutsideRdbArea { lba, hi } => {
                put(&mut s, "refusing to write block ");
                put_number(&mut s, *lba as u64);
                put(&mut s, ", which is outside the RDB area 0..=");
                put_number(&mut s, *hi as u64);
            },
            CommitError::Seal(e) => {
                put(&mut s, "sealing a block failed: ");
                put(&mut s, e.message().as_str());
            },
        }
        assert(s@ =~= self.line(cause@));
        s
    }
}

/// What one commit did: where every structure landed and which blocks it
/// touched, in the order it touched them.
#[derive(Debug, Clone, PartialEq, Eq)]
pub struct CommitReport {
    /// Where the `RDSK` block was written: where it was found.
    pub rdsk_block: u64,
    /// `rdb_HighRDSKBlock` as written.
    pub high_rdsk_block: u32,
    /// `rdb_RDBBlocksHi` as written.
    pub rdb_blocks_hi: u32,
    /// Where each `PART` block landed, in chain order.
    pub part_blocks: Vec<u64>,
    /// Where each `FSHD` block landed, in chain order.
    pub fshd_blocks: Vec<u64>,
    /// Every block written, in write order, zeroed ones included.
    pub blocks_written: Vec<u64>,
    /// The blocks the old layout used and the new one does not, zeroed last.
    pub blocks_zeroed: Vec<u64>,
}

} // verus!
