//! The block layout of a new table: where everything asked for goes, or why it
//! cannot.
use vstd::prelude::*;
use vstd::utf8::*;

use crate::bytes::CHAIN_END;
use crate::checksum::SealError;
use crate::geometry::Geometry;
use crate::image::{PartContext, HEADER_SUMMED_LONGS, MAX_DRIVE_NAME};
use crate::media::{BlockSink, BlockWrite};
use crate::specs::{FileSystemSpec, PartitionSpec, Placement};
use crate::text::{put, put_number, put_quoted};
use crate::{arith, bytes, checksum, hdr, id, image, lseg, names, rdsk, rdsk_defaults, text};

verus! {

/// Blocks of slack the RDB area gets past what a build uses, where the layout
/// needs more than the first cylinder: room for a later edit.
pub const RDB_HEADROOM_BLOCKS: u64 = 16;

/// Where one partition landed.
#[derive(Debug, Clone, PartialEq, Eq)]
pub struct PlacedPartition {
    /// LBA of the `PART` block written for it.
    pub part_block: u64,
    /// The `pb_DriveName` written.
    pub name: String,
    /// `de_LowCyl` as written.
    pub low_cyl: u32,
    /// `de_HighCyl` as written, *inclusive*.
    pub high_cyl: u32,
    /// First device block of the partition's data.
    pub start_lba: u64,
    /// How many device blocks it covers.
    pub block_len: u64,
}

/// Where one loadable filesystem landed: its `FSHD` block and the `LSEG` chain
/// carrying its binary.
#[derive(Debug, Clone, PartialEq, Eq)]
pub struct PlacedFileSystem {
    /// LBA of the `FSHD` block written for it.
    pub fshd_block: u64,
    /// `fhb_DosType` as written.
    pub dos_type: u32,
    /// `fhb_SegListBlocks` as written: the first `LSEG` block, or [`CHAIN_END`]
    /// for a header carrying no binary.
    pub seg_list_blocks: u32,
    /// How many `LSEG` blocks the chain has, consecutive from the first.
    pub lseg_block_count: u32,
}

/// The complete block layout of a build.
#[derive(Debug, Clone, PartialEq, Eq)]
pub struct RdbLayout {
    /// LBA the `RDSK` block was written to.
    pub rdsk_block: u64,
    /// `rdb_RDBBlocksLo` as written.
    pub rdb_blocks_lo: u32,
    /// `rdb_RDBBlocksHi` as written: the reserved ceiling, *inclusive*.
    pub rdb_blocks_hi: u32,
    /// `rdb_HighRDSKBlock` as written: the highest block actually used.
    pub high_rdsk_block: u32,
    /// `rdb_LoCylinder`: the first cylinder available to partitions.
    pub lo_cylinder: u32,
    /// `rdb_HiCylinder`: the last, *inclusive*.
    pub hi_cylinder: u32,
    /// The geometry written into the `RDSK` block.
    pub geometry: Geometry,
    /// The partitions, in the order they were added and chained.
    pub partitions: Vec<PlacedPartition>,
    /// The loadable filesystems, in the order they were added and chained.
    pub filesystems: Vec<PlacedFileSystem>,
}

/// A [`PlacedPartition`] as the contracts speak of it.
#[verifier::ext_equal]
pub struct Placed {
    pub part_block: u64,
    pub name: Seq<char>,
    pub low_cyl: u32,
    pub high_cyl: u32,
    pub start_lba: u64,
    pub block_len: u64,
}

impl View for PlacedPartition {
    type V = Placed;

    open spec fn view(&self) -> Placed {
        Placed {
            part_block: self.part_block,
            name: self.name@,
            low_cyl: self.low_cyl,
            high_cyl: self.high_cyl,
            start_lba: self.start_lba,
            block_len: self.block_len,
        }
    }
}

/// A [`RdbLayout`] as the contracts speak of it.
#[verifier::ext_equal]
pub struct Layout {
    pub rdsk_block: u64,
    pub rdb_blocks_lo: u32,
    pub rdb_blocks_hi: u32,
    pub high_rdsk_block: u32,
    pub lo_cylinder: u32,
    pub hi_cylinder: u32,
    pub geometry: Geometry,
    pub partitions: Seq<Placed>,
    pub filesystems: Seq<PlacedFileSystem>,
}

impl View for RdbLayout {
    type V = Layout;

    open spec fn view(&self) -> Layout {
        Layout {
            rdsk_block: self.rdsk_block,
            rdb_blocks_lo: self.rdb_blocks_lo,
            rdb_blocks_hi: self.rdb_blocks_hi,
            high_rdsk_block: self.high_rdsk_block,
            lo_cylinder: self.lo_cylinder,
            hi_cylinder: self.hi_cylinder,
            geometry: self.geometry,
            partitions: self.partitions@.map_values(|p: PlacedPartition| p@),
            filesystems: self.filesystems@,
        }
    }
}

/// Why a build was refused, or failed.
///
/// Every variant except [`Io`](Self::Io) is raised before the first block is
/// written.
#[derive(Debug, Clone, PartialEq, Eq)]
pub enum BuildError<E> {
    /// The sink failed on a write: the only variant that can leave the target
    /// half-written.
    Io(E),
    /// The sink's block size is not a power of two in the supported range.
    UnsupportedBlockSize {
        /// What the sink said its block size was.
        block_size: usize,
    },
    /// The geometry's block size and the sink's disagree.
    BlockSizeMismatch {
        /// The geometry's.
        geometry: usize,
        /// The sink's.
        sink: usize,
    },
    /// The geometry describes no blocks.
    EmptyGeometry {
        /// The geometry as given.
        geometry: Geometry,
    },
    /// A drive name does not fit the 32-byte field, or is empty.
    InvalidName {
        /// The name asked for.
        name: String,
        /// The longest name the field holds.
        max: usize,
    },
    /// Two partitions were given the same drive name.
    DuplicateName {
        /// The name asked for twice.
        name: String,
    },
    /// A cylinder range runs backwards.
    CylindersInverted {
        /// The partition's name.
        name: String,
        /// `de_LowCyl` as asked for.
        low_cyl: u32,
        /// `de_HighCyl` as asked for.
        high_cyl: u32,
    },
    /// A size is below one cylinder, so it describes no partition at all.
    PartitionTooSmall {
        /// The partition's name.
        name: String,
        /// The size asked for.
        bytes: u64,
        /// One cylinder, in bytes.
        cylinder_bytes: u64,
    },
    /// A partition's last cylinder is past the last cylinder of the disk.
    PartitionPastEndOfDisk {
        /// The partition's name.
        name: String,
        /// The last cylinder it wanted.
        high_cyl: u32,
        /// The last cylinder the disk has.
        last_cylinder: u32,
    },
    /// A partition starts inside the reserved RDB area.
    PartitionOverlapsRdbArea {
        /// The partition's name.
        name: String,
        /// The cylinder it wanted to start on.
        low_cyl: u32,
        /// The first cylinder available to partitions.
        lo_cylinder: u32,
    },
    /// Two partitions claim the same cylinders.
    PartitionsOverlap {
        /// The first partition's name, in the order they were added.
        a_name: String,
        /// The second's.
        b_name: String,
        /// The first cylinder both claim.
        low_cyl: u32,
        /// The last, inclusive.
        high_cyl: u32,
    },
    /// The reserved RDB area cannot hold the blocks the layout needs.
    RdbAreaTooSmall {
        /// Blocks the layout needs, `RDSK` included.
        needed: u32,
        /// Blocks the area has.
        available: u32,
    },
    /// The sink is smaller than the layout.
    SinkTooSmall {
        /// Blocks the layout needs to exist.
        needed: u64,
        /// Blocks the sink says it has.
        available: u64,
    },
    /// Sealing a block's checksum failed.
    Seal(SealError),
}

/// A refusal as the contracts speak of it: a [`BuildError`] that comes before
/// the first write.
#[verifier::ext_equal]
pub enum Refusal {
    UnsupportedBlockSize { block_size: usize },
    BlockSizeMismatch { geometry: usize, sink: usize },
    EmptyGeometry { geometry: Geometry },
    InvalidName { name: Seq<char>, max: usize },
    DuplicateName { name: Seq<char> },
    CylindersInverted { name: Seq<char>, low_cyl: u32, high_cyl: u32 },
    PartitionTooSmall { name: Seq<char>, bytes: u64, cylinder_bytes: u64 },
    PartitionPastEndOfDisk { name: Seq<char>, high_cyl: u32, last_cylinder: u32 },
    PartitionOverlapsRdbArea { name: Seq<char>, low_cyl: u32, lo_cylinder: u32 },
    PartitionsOverlap { a_name: Seq<char>, b_name: Seq<char>, low_cyl: u32, high_cyl: u32 },
    RdbAreaTooSmall { needed: u32, available: u32 },
    SinkTooSmall { needed: u64, available: u64 },
}

impl<E> BuildError<E> {
    /// The refusal this is, if it is one.
    pub open spec fn refusal(self) -> Option<Refusal> {
        match self {
            BuildError::Io(_) => None,
            BuildError::UnsupportedBlockSize { block_size } => Some(
                Refusal::UnsupportedBlockSize { block_size },
            ),
            BuildError::BlockSizeMismatch { geometry, sink } => Some(
                Refusal::BlockSizeMismatch { geometry, sink },
            ),
            BuildError::EmptyGeometry { geometry } => Some(Refusal::EmptyGeometry { geometry }),
            BuildError::InvalidName { name, max } => Some(
                Refusal::InvalidName { name: name@, max },
            ),
            BuildError::DuplicateName { name } => Some(Refusal::DuplicateName { name: name@ }),
            BuildError::CylindersInverted { name, low_cyl, high_cyl } => Some(
                Refusal::CylindersInverted { name: name@, low_cyl, high_cyl },
            ),
            BuildError::PartitionTooSmall { name, bytes, cylinder_bytes } => Some(
                Refusal::PartitionTooSmall { name: name@, bytes, cylinder_bytes },
            ),
            BuildError::PartitionPastEndOfDisk { name, high_cyl, last_cylinder } => Some(
                Refusal::PartitionPastEndOfDisk { name: name@, high_cyl, last_cylinder },
            ),
            BuildError::PartitionOverlapsRdbArea { name, low_cyl, lo_cylinder } => Some(
                Refusal::PartitionOverlapsRdbArea { name: name@, low_cyl, lo_cylinder },
            ),
            BuildError::PartitionsOverlap { a_name, b_name, low_cyl, high_cyl } => Some(
                Refusal::PartitionsOverlap {
                    a_name: a_name@,
                    b_name: b_name@,
                    low_cyl,
                    high_cyl,
                },
            ),
            BuildError::RdbAreaTooSmall { needed, available } => Some(
                Refusal::RdbAreaTooSmall { needed, available },
            ),
            BuildError::SinkTooSmall { needed, available } => Some(
                Refusal::SinkTooSmall { needed, available },
            ),
            BuildError::Seal(_) => None,
        }
    }
}

impl<E> BuildError<E> {
    /// The line [`message`](Self::message) gives.
    pub open spec fn line(self, cause: Seq<char>) -> Seq<char> {
        match self {
            BuildError::Io(_) => "writing a block failed: "@ + cause,
            BuildError::UnsupportedBlockSize { block_size } => "unsupported device block size "@
                + text::decimal(block_size as int) + ": must be a power of two in 512..=32768"@,
            BuildError::BlockSizeMismatch { geometry, sink } => "the geometry is in "@
                + text::decimal(geometry as int) + "-byte blocks but the sink writes "@
                + text::decimal(sink as int) + "-byte blocks"@,
            BuildError::EmptyGeometry { geometry } => "the geometry "@
                + text::decimal(geometry.cylinders as int) + "/"@
                + text::decimal(geometry.heads as int) + "/"@
                + text::decimal(geometry.sectors as int) + " describes no blocks"@,
            BuildError::InvalidName { name, max } => "drive name "@ + text::debug_text(name@)
                + " does not fit pb_DriveName: 1..="@ + text::decimal(max as int)
                + " characters are available"@,
            BuildError::DuplicateName { name } => "two partitions are both named "@
                + text::debug_text(name@),
            BuildError::CylindersInverted { name, low_cyl, high_cyl } => "partition "@
                + text::debug_text(name@) + " has an inverted cylinder range: LowCyl "@
                + text::decimal(low_cyl as int) + " is above HighCyl "@
                + text::decimal(high_cyl as int),
            BuildError::PartitionTooSmall { name, bytes, cylinder_bytes } => "partition "@
                + text::debug_text(name@) + " asks for "@ + text::decimal(bytes as int)
                + " bytes, less than the "@ + text::decimal(cylinder_bytes as int)
                + "-byte cylinder that is the smallest partition"@,
            BuildError::PartitionPastEndOfDisk { name, high_cyl, last_cylinder } => "partition "@
                + text::debug_text(name@) + " ends on cylinder "@ + text::decimal(high_cyl as int)
                + ", past the disk's last cylinder "@ + text::decimal(last_cylinder as int),
            BuildError::PartitionOverlapsRdbArea { name, low_cyl, lo_cylinder } => "partition "@
                + text::debug_text(name@) + " starts on cylinder "@ + text::decimal(low_cyl as int)
                + ", inside the RDB area that ends at cylinder "@
                + text::decimal(if lo_cylinder > 0 { lo_cylinder - 1 } else { 0 }),
            BuildError::PartitionsOverlap { a_name, b_name, low_cyl, high_cyl } => "partitions "@
                + text::debug_text(a_name@) + " and "@ + text::debug_text(b_name@)
                + " both claim cylinders "@ + text::decimal(low_cyl as int) + "..="@
                + text::decimal(high_cyl as int),
            BuildError::RdbAreaTooSmall { needed, available } => "the RDB area holds "@
                + text::decimal(available as int) + " blocks but the layout needs "@
                + text::decimal(needed as int),
            BuildError::SinkTooSmall { needed, available } => "the layout needs "@
                + text::decimal(needed as int) + " blocks but the target has "@
                + text::decimal(available as int),
            BuildError::Seal(e) => "sealing a block failed: "@ + e.line(),
        }
    }

    /// One line a user can act on. `cause` is what the underlying error says, for a
    /// transfer that failed.
    pub fn message(&self, cause: &str) -> (s: String)
        ensures
            s@ == self.line(cause@),
    {
        let mut s: String = String::new();
        match self {
            BuildError::Io(_) => {
                put(&mut s, "writing a block failed: ");
                put(&mut s, cause);
            },
            BuildError::UnsupportedBlockSize { block_size } => {
                put(&mut s, "unsupported device block size ");
                put_number(&mut s, *block_size as u64);
                put(&mut s, ": must be a power of two in 512..=32768");
            },
            BuildError::BlockSizeMismatch { geometry, sink } => {
                put(&mut s, "the geometry is in ");
                put_number(&mut s, *geometry as u64);
                put(&mut s, "-byte blocks but the sink writes ");
                put_number(&mut s, *sink as u64);
                put(&mut s, "-byte blocks");
            },
            BuildError::EmptyGeometry { geometry } => {
                put(&mut s, "the geometry ");
                put_number(&mut s, geometry.cylinders as u64);
                put(&mut s, "/");
                put_number(&mut s, geometry.heads as u64);
                put(&mut s, "/");
                put_number(&mut s, geometry.sectors as u64);
                put(&mut s, " describes no blocks");
            },
            BuildError::InvalidName { name, max } => {
                put(&mut s, "drive name ");
                put_quoted(&mut s, name.as_str());
                put(&mut s, " does not fit pb_DriveName: 1..=");
                put_number(&mut s, *max as u64);
                put(&mut s, " characters are available");
            },
            BuildError::DuplicateName { name } => {
                put(&mut s, "two partitions are both named ");
                put_quoted(&mut s, name.as_str());
            },
            BuildError::CylindersInverted { name, low_cyl, high_cyl } => {
                put(&mut s, "partition ");
                put_quoted(&mut s, name.as_str());
                put(&mut s, " has an inverted cylinder range: LowCyl ");
                put_number(&mut s, *low_cyl as u64);
                put(&mut s, " is above HighCyl ");
                put_number(&mut s, *high_cyl as u64);
            },
            BuildError::PartitionTooSmall { name, bytes, cylinder_bytes } => {
                put(&mut s, "partition ");
                put_quoted(&mut s, name.as_str());
                put(&mut s, " asks for ");
                put_number(&mut s, *bytes as u64);
                put(&mut s, " bytes, less than the ");
                put_number(&mut s, *cylinder_bytes as u64);
                put(&mut s, "-byte cylinder that is the smallest partition");
            },
            BuildError::PartitionPastEndOfDisk { name, high_cyl, last_cylinder } => {
                put(&mut s, "partition ");
                put_quoted(&mut s, name.as_str());
                put(&mut s, " ends on cylinder ");
                put_number(&mut s, *high_cyl as u64);
                put(&mut s, ", past the disk's last cylinder ");
                put_number(&mut s, *last_cylinder as u64);
            },
            BuildError::PartitionOverlapsRdbArea { name, low_cyl, lo_cylinder } => {
                put(&mut s, "partition ");
                put_quoted(&mut s, name.as_str());
                put(&mut s, " starts on cylinder ");
                put_number(&mut s, *low_cyl as u64);
                put(&mut s, ", inside the RDB area that ends at cylinder ");
                put_number(&mut s, if *lo_cylinder > 0 { *lo_cylinder as u64 - 1 } else { 0 });
            },
            BuildError::PartitionsOverlap { a_name, b_name, low_cyl, high_cyl } => {
                put(&mut s, "partitions ");
                put_quoted(&mut s, a_name.as_str());
                put(&mut s, " and ");
                put_quoted(&mut s, b_name.as_str());
                put(&mut s, " both claim cylinders ");
                put_number(&mut s, *low_cyl as u64);
                put(&mut s, "..=");
                put_number(&mut s, *high_cyl as u64);
            },
            BuildError::RdbAreaTooSmall { needed, available } => {
                put(&mut s, "the RDB area holds ");
                put_number(&mut s, *available as u64);
                put(&mut s, " blocks but the layout needs ");
                put_number(&mut s, *needed as u64);
            },
            BuildError::SinkTooSmall { needed, available } => {
                put(&mut s, "the layout needs ");
                put_number(&mut s, *needed as u64);
                put(&mut s, " blocks but the target has ");
                put_number(&mut s, *available as u64);
            },
            BuildError::Seal(e) => {
                put(&mut s, "sealing a block failed: ");
                put(&mut s, e.message().as_str());
            },
        }
        assert(s@ =~= self.line(cause@));
        s
    }
}

/// What a builder was told.
#[verifier::ext_equal]
pub struct Request {
    pub geometry: Geometry,
    pub rdsk_block: u32,
    pub reserved_blocks: Option<u32>,
    pub flags: u32,
    pub host_id: u32,
    pub specs: Seq<PartitionSpec>,
    pub filesystems: Seq<FileSystemSpec>,
}

/// The higher of the two.
pub open spec fn higher(a: int, b: int) -> int {
    if a >= b {
        a
    } else {
        b
    }
}

/// The names asked for.
pub open spec fn explicit_names(specs: Seq<PartitionSpec>) -> Set<Seq<char>> {
    Set::new(
        |n: Seq<char>|
            exists|i: int|
                0 <= i < specs.len() && (#[trigger] specs[i]).explicit_name() == Some(n),
    )
}

/// Why the name spec `i` asks for is refused, if it is.
pub open spec fn name_refusal_at(specs: Seq<PartitionSpec>, i: int) -> Option<Refusal> {
    match specs[i].explicit_name() {
        Some(name) => if !names::name_fits(name) {
            Some(Refusal::InvalidName { name, max: MAX_DRIVE_NAME })
        } else if explicit_names(specs.take(i)).contains(name) {
            Some(Refusal::DuplicateName { name })
        } else {
            None
        },
        None => None,
    }
}

/// The first refusal among the names of the first `n` specs.
pub open spec fn name_refusal(specs: Seq<PartitionSpec>, n: nat) -> Option<Refusal>
    decreases n,
{
    if n == 0 {
        None
    } else {
        match name_refusal(specs, (n - 1) as nat) {
            Some(r) => Some(r),
            None => name_refusal_at(specs, n - 1),
        }
    }
}

/// The lowest number the unnamed specs from `i` on may be given: assigned names
/// avoid every explicit name of the request, and each other.
pub open spec fn number_cursor(specs: Seq<PartitionSpec>, i: nat) -> int
    decreases i,
{
    if i == 0 {
        0
    } else if specs[i - 1].name is Some {
        number_cursor(specs, (i - 1) as nat)
    } else {
        names::first_free(explicit_names(specs), number_cursor(specs, (i - 1) as nat)) + 1
    }
}

/// The name partition `i` gets.
pub open spec fn name_of(specs: Seq<PartitionSpec>, i: int) -> Seq<char> {
    match specs[i].explicit_name() {
        Some(name) => name,
        None => names::dh(
            names::first_free(explicit_names(specs), number_cursor(specs, i as nat)),
        ),
    }
}

impl Request {
    /// Blocks per cylinder.
    pub open spec fn cyl(self) -> int {
        self.geometry.blocks_per_cylinder()
    }

    /// The disk's last cylinder.
    pub open spec fn last_cylinder(self) -> int {
        self.geometry.cylinders - 1
    }

    /// How many bytes of a driver a `LSEG` block carries.
    pub open spec fn payload(self) -> int {
        self.geometry.block_size - lseg::LOAD_DATA
    }

    /// How many `LSEG` blocks driver `i` takes.
    pub open spec fn lseg_count(self, i: int) -> int {
        image::piece_count(self.filesystems[i].binary@.len(), self.payload())
    }

    /// How many blocks the first `n` filesystems take.
    pub open spec fn fs_blocks(self, n: nat) -> int
        decreases n,
    {
        if n == 0 {
            0
        } else {
            self.fs_blocks((n - 1) as nat) + 1 + self.lseg_count(n - 1)
        }
    }

    /// How many blocks the whole table takes.
    pub open spec fn needed(self) -> int {
        1 + self.specs.len() + self.fs_blocks(self.filesystems.len())
    }

    /// How many blocks are reserved for the table, from block 0: as many as
    /// asked for, or the first cylinder, or what is needed plus headroom,
    /// whichever of the two is more.
    pub open spec fn reserved(self) -> int {
        match self.reserved_blocks {
            Some(n) => n as int,
            None => higher(self.cyl(), self.rdsk_block + self.needed() + RDB_HEADROOM_BLOCKS),
        }
    }

    /// The first cylinder past the reserved area.
    pub open spec fn lo_cylinder(self) -> int {
        (self.reserved() + self.cyl() - 1) / self.cyl()
    }

    /// Why no partition can be placed at all, if none can.
    pub open spec fn area_refusal(self) -> Option<Refusal> {
        if self.reserved() < self.needed() || self.reserved() > u32::MAX {
            Some(
                Refusal::RdbAreaTooSmall {
                    needed: arith::saturated32(self.needed()),
                    available: arith::saturated32(self.reserved()),
                },
            )
        } else if self.rdsk_block + self.needed() > self.reserved() {
            Some(
                Refusal::RdbAreaTooSmall {
                    needed: arith::saturated32(self.rdsk_block + self.needed()),
                    available: self.reserved() as u32,
                },
            )
        } else if self.lo_cylinder() > self.last_cylinder() {
            Some(
                Refusal::PartitionOverlapsRdbArea {
                    name: "<the disk>"@,
                    low_cyl: self.last_cylinder() as u32,
                    lo_cylinder: arith::saturated32(self.lo_cylinder()),
                },
            )
        } else {
            None
        }
    }

    /// One cylinder, in bytes.
    pub open spec fn cylinder_bytes(self) -> int {
        self.cyl() * self.geometry.block_size
    }

    /// The cylinders spec `i` takes where sized partitions start at `cursor`.
    pub open spec fn extent_from(self, i: int, cursor: int) -> (int, int) {
        match self.specs[i].placement {
            Placement::Cylinders { low, high } => (low as int, high as int),
            Placement::Size(bytes) => (cursor, cursor + bytes as int / self.cylinder_bytes() - 1),
        }
    }

    /// Where the first sized partition from `i` on starts: past the RDB area
    /// and past every partition before it.
    pub open spec fn cursor(self, i: nat) -> int
        decreases i,
    {
        if i == 0 {
            self.lo_cylinder()
        } else {
            let before = self.cursor((i - 1) as nat);
            higher(before, self.extent_from(i - 1, before).1 + 1)
        }
    }

    /// The cylinders of partition `i`.
    pub open spec fn extent(self, i: int) -> (int, int) {
        self.extent_from(i, self.cursor(i as nat))
    }

    /// Why partition `i` cannot be placed, if it cannot.
    pub open spec fn placement_refusal_at(self, i: int) -> Option<Refusal> {
        let name = name_of(self.specs, i);
        let (low, high) = self.extent(i);
        match self.specs[i].placement {
            Placement::Cylinders { low: l, high: h } if h < l => Some(
                Refusal::CylindersInverted { name, low_cyl: l, high_cyl: h },
            ),
            Placement::Size(bytes) if bytes < self.cylinder_bytes() => Some(
                Refusal::PartitionTooSmall {
                    name,
                    bytes,
                    cylinder_bytes: self.cylinder_bytes() as u64,
                },
            ),
            _ => if high > self.last_cylinder() {
                Some(
                    Refusal::PartitionPastEndOfDisk {
                        name,
                        high_cyl: arith::saturated32(high),
                        last_cylinder: self.last_cylinder() as u32,
                    },
                )
            } else if low < self.lo_cylinder() {
                Some(
                    Refusal::PartitionOverlapsRdbArea {
                        name,
                        low_cyl: low as u32,
                        lo_cylinder: self.lo_cylinder() as u32,
                    },
                )
            } else {
                None
            },
        }
    }

    /// The first refusal among the placements of the first `n` specs.
    pub open spec fn placement_refusal(self, n: nat) -> Option<Refusal>
        decreases n,
    {
        if n == 0 {
            None
        } else {
            match self.placement_refusal((n - 1) as nat) {
                Some(r) => Some(r),
                None => self.placement_refusal_at(n - 1),
            }
        }
    }

    /// Why partitions `a` and `b` cannot both stand, if they cannot.
    pub open spec fn overlap_refusal_of(self, a: int, b: int) -> Option<Refusal> {
        let low = higher(self.extent(a).0, self.extent(b).0);
        let high = if self.extent(a).1 <= self.extent(b).1 {
            self.extent(a).1
        } else {
            self.extent(b).1
        };
        if low <= high {
            Some(
                Refusal::PartitionsOverlap {
                    a_name: name_of(self.specs, a),
                    b_name: name_of(self.specs, b),
                    low_cyl: low as u32,
                    high_cyl: high as u32,
                },
            )
        } else {
            None
        }
    }

    /// The first refusal of partition `a` with those from `a + 1` up to `n`.
    pub open spec fn overlap_refusal_row(self, a: int, n: int) -> Option<Refusal>
        decreases n - a,
    {
        if n <= a + 1 {
            None
        } else {
            match self.overlap_refusal_row(a, n - 1) {
                Some(r) => Some(r),
                None => self.overlap_refusal_of(a, n - 1),
            }
        }
    }

    /// The first refusal of the first `n` partitions with those after them.
    pub open spec fn overlap_refusal(self, n: nat) -> Option<Refusal>
        decreases n,
    {
        if n == 0 {
            None
        } else {
            match self.overlap_refusal((n - 1) as nat) {
                Some(r) => Some(r),
                None => self.overlap_refusal_row(n - 1, self.specs.len() as int),
            }
        }
    }

    /// How many blocks have to exist for the table and the first `n`
    /// partitions.
    pub open spec fn blocks_needed(self, n: nat) -> int
        decreases n,
    {
        if n == 0 {
            self.reserved()
        } else {
            higher(self.blocks_needed((n - 1) as nat), (self.extent(n - 1).1 + 1) * self.cyl())
        }
    }

    /// Why the target is too small, if it is.
    pub open spec fn sink_refusal(self, sink_blocks: Option<u64>) -> Option<Refusal> {
        match sink_blocks {
            Some(available) if self.blocks_needed(self.specs.len()) > available => Some(
                Refusal::SinkTooSmall {
                    needed: self.blocks_needed(self.specs.len()) as u64,
                    available,
                },
            ),
            _ => None,
        }
    }

    /// Whether the geometry describes any blocks.
    pub open spec fn is_empty_geometry(self) -> bool {
        self.geometry.cylinders == 0 || self.cyl() == 0
    }

    /// Why there is no layout before any partition is placed, if there is none.
    pub open spec fn early_refusal(self) -> Option<Refusal> {
        if self.is_empty_geometry() {
            Some(Refusal::EmptyGeometry { geometry: self.geometry })
        } else {
            match name_refusal(self.specs, self.specs.len()) {
                Some(r) => Some(r),
                None => self.area_refusal(),
            }
        }
    }

    /// Why there is no layout on a target of `sink_blocks` blocks, if there is
    /// none: the first reason in the order names, area, placements, overlaps,
    /// target.
    pub open spec fn layout_refusal(self, sink_blocks: Option<u64>) -> Option<Refusal> {
        match self.early_refusal() {
            Some(r) => Some(r),
            None => match self.placement_refusal(self.specs.len()) {
                Some(r) => Some(r),
                None => match self.overlap_refusal(self.specs.len()) {
                    Some(r) => Some(r),
                    None => self.sink_refusal(sink_blocks),
                },
            },
        }
    }

    /// Why the request cannot be built on the target, if it cannot.
    pub open spec fn refusal(self, block_size: usize, sink_blocks: Option<u64>) -> Option<Refusal> {
        if !bytes::supported_block_size(block_size as int) {
            Some(Refusal::UnsupportedBlockSize { block_size })
        } else if self.geometry.block_size != block_size {
            Some(
                Refusal::BlockSizeMismatch { geometry: self.geometry.block_size, sink: block_size },
            )
        } else {
            self.layout_refusal(sink_blocks)
        }
    }

    /// The layout exists, in blocks of the sink's size.
    pub open spec fn can_write<S: BlockSink>(self, sink: S) -> bool {
        &&& bytes::supported_block_size(self.geometry.block_size as int)
        &&& sink.target().block_size == self.geometry.block_size
        &&& self.early_refusal() is None
    }

    /// The block addresses of every partition that is placed, and the bytes of
    /// a cylinder where a size is turned into cylinders, fit 64 bits.
    pub open spec fn addresses_fit(self) -> bool {
        forall|i: int|
            #![trigger self.placement_refusal_at(i)]
            0 <= i < self.specs.len() && self.early_refusal() is None && self.placement_refusal(
                i as nat,
            ) is None ==> {
                &&& self.specs[i].placement is Size ==> self.cylinder_bytes() <= u64::MAX
                &&& self.placement_refusal_at(i) is None ==> (self.extent(i).1 + 1) * self.cyl()
                    <= u64::MAX
            }
    }

    /// Where the `PART` block of partition `i` goes: straight after the `RDSK`.
    pub open spec fn part_block(self, i: int) -> int {
        self.rdsk_block + 1 + i
    }

    /// Where the `FSHD` block of filesystem `i` goes: after the `PART` blocks,
    /// each followed by its own driver.
    pub open spec fn fshd_block(self, i: int) -> int {
        self.rdsk_block + 1 + self.specs.len() + self.fs_blocks(i as nat)
    }

    /// Where partition `i` lands.
    pub open spec fn placed(self, i: int) -> Placed {
        let (low, high) = self.extent(i);
        Placed {
            part_block: self.part_block(i) as u64,
            name: name_of(self.specs, i),
            low_cyl: low as u32,
            high_cyl: high as u32,
            start_lba: (low * self.cyl()) as u64,
            block_len: ((high - low + 1) * self.cyl()) as u64,
        }
    }

    /// The head of driver `i`'s chain.
    pub open spec fn seg_list(self, i: int) -> u32 {
        if self.lseg_count(i) == 0 {
            CHAIN_END
        } else {
            (self.fshd_block(i) + 1) as u32
        }
    }

    /// Where filesystem `i` lands.
    pub open spec fn placed_fs(self, i: int) -> PlacedFileSystem {
        PlacedFileSystem {
            fshd_block: self.fshd_block(i) as u64,
            dos_type: self.filesystems[i].dos_type,
            seg_list_blocks: self.seg_list(i),
            lseg_block_count: self.lseg_count(i) as u32,
        }
    }

    /// The whole layout.
    pub open spec fn layout(self) -> Layout {
        Layout {
            rdsk_block: self.rdsk_block as u64,
            rdb_blocks_lo: 0,
            rdb_blocks_hi: (self.reserved() - 1) as u32,
            high_rdsk_block: (self.rdsk_block + self.needed() - 1) as u32,
            lo_cylinder: self.lo_cylinder() as u32,
            hi_cylinder: self.last_cylinder() as u32,
            geometry: self.geometry,
            partitions: Seq::new(self.specs.len(), |i: int| self.placed(i)),
            filesystems: Seq::new(self.filesystems.len(), |i: int| self.placed_fs(i)),
        }
    }

    /// The disk-level values the `PART` blocks copy.
    pub open spec fn context(self) -> PartContext {
        PartContext {
            host_id: self.host_id,
            heads: self.geometry.heads,
            sectors: self.geometry.sectors,
            block_size: self.geometry.block_size,
        }
    }

    /// The pointer behind partition `i` in its chain.
    pub open spec fn part_next(self, i: int) -> u32 {
        if i + 1 < self.specs.len() {
            self.part_block(i + 1) as u32
        } else {
            CHAIN_END
        }
    }

    /// The `PART` block of partition `i`.
    pub open spec fn part_image(self, i: int) -> Seq<u8> {
        checksum::sealed(
            image::new_part(
                self.geometry.block_size as nat,
                self.specs[i],
                name_of(self.specs, i),
                self.extent(i).0 as u32,
                self.extent(i).1 as u32,
                self.part_next(i),
                self.context(),
            ),
            HEADER_SUMMED_LONGS,
        )
    }

    /// The `PART` blocks, in the order of their chain.
    pub open spec fn part_writes(self) -> Seq<BlockWrite> {
        Seq::new(self.specs.len(), |i: int| (self.part_block(i) as u64, self.part_image(i)))
    }

    /// The bytes that `LSEG` block `c` of driver `i` carries.
    pub open spec fn chunk(self, i: int, c: int) -> Seq<u8> {
        image::piece(self.filesystems[i].binary@, self.payload(), c)
    }

    /// The pointer behind `LSEG` block `c` of driver `i` in its chain.
    pub open spec fn lseg_next(self, i: int, c: int) -> u32 {
        if c + 1 == self.lseg_count(i) {
            CHAIN_END
        } else {
            (self.fshd_block(i) + 1 + c + 1) as u32
        }
    }

    /// `LSEG` block `c` of driver `i`.
    pub open spec fn lseg_image(self, i: int, c: int) -> Seq<u8> {
        checksum::sealed(
            image::new_lseg(
                self.geometry.block_size as nat,
                self.filesystems[i].host_id,
                self.chunk(i, c),
                self.lseg_next(i, c),
            ),
            image::lseg_summed(self.chunk(i, c)),
        )
    }

    /// The `LSEG` blocks of driver `i`, in the order of their chain.
    pub open spec fn lseg_writes(self, i: int) -> Seq<BlockWrite> {
        Seq::new(
            self.lseg_count(i) as nat,
            |c: int| ((self.fshd_block(i) + 1 + c) as u64, self.lseg_image(i, c)),
        )
    }

    /// The pointer behind filesystem `i` in its chain.
    pub open spec fn fshd_next(self, i: int) -> u32 {
        if i + 1 < self.filesystems.len() {
            self.fshd_block(i + 1) as u32
        } else {
            CHAIN_END
        }
    }

    /// The `FSHD` block of filesystem `i`.
    pub open spec fn fshd_image(self, i: int) -> Seq<u8> {
        checksum::sealed(
            image::new_fshd(
                self.geometry.block_size as nat,
                self.filesystems[i],
                self.seg_list(i),
                self.fshd_next(i),
            ),
            HEADER_SUMMED_LONGS,
        )
    }

    /// The blocks of the first `n` filesystems: each driver, then its header.
    pub open spec fn fs_writes(self, n: nat) -> Seq<BlockWrite>
        decreases n,
    {
        if n == 0 {
            Seq::empty()
        } else {
            self.fs_writes((n - 1) as nat) + self.lseg_writes(n - 1) + seq![
                (self.fshd_block(n - 1) as u64, self.fshd_image(n - 1)),
            ]
        }
    }

    /// Longword `k` of the `RDSK` block, `SummedLongs` and `ChkSum` aside.
    pub open spec fn rdsk_long(self, k: int) -> u32 {
        let g = self.geometry;
        if 4 * k == hdr::ID {
            id::RDSK
        } else if 4 * k == rdsk::HOST_ID {
            self.host_id
        } else if 4 * k == rdsk::BLOCK_BYTES {
            g.block_size as u32
        } else if 4 * k == rdsk::FLAGS {
            self.flags
        } else if 4 * k == rdsk::BAD_BLOCK_LIST || 4 * k == rdsk::DRIVE_INIT {
            CHAIN_END
        } else if 4 * k == rdsk::PARTITION_LIST {
            if self.specs.len() > 0 {
                self.part_block(0) as u32
            } else {
                CHAIN_END
            }
        } else if 4 * k == rdsk::FILESYS_HEADER_LIST {
            if self.filesystems.len() > 0 {
                self.fshd_block(0) as u32
            } else {
                CHAIN_END
            }
        } else if 4 * k == rdsk::CYLINDERS || 4 * k == rdsk::PARK || 4 * k == rdsk::WRITE_PRE_COMP
            || 4 * k == rdsk::REDUCED_WRITE {
            g.cylinders
        } else if 4 * k == rdsk::SECTORS {
            g.sectors
        } else if 4 * k == rdsk::HEADS {
            g.heads
        } else if 4 * k == rdsk::INTERLEAVE {
            rdsk_defaults::INTERLEAVE
        } else if 4 * k == rdsk::STEP_RATE {
            rdsk_defaults::STEP_RATE
        } else if 4 * k == rdsk::RDB_BLOCKS_HI {
            (self.reserved() - 1) as u32
        } else if 4 * k == rdsk::LO_CYLINDER {
            self.lo_cylinder() as u32
        } else if 4 * k == rdsk::HI_CYLINDER {
            self.last_cylinder() as u32
        } else if 4 * k == rdsk::CYL_BLOCKS {
            self.cyl() as u32
        } else if 4 * k == rdsk::AUTO_PARK_SECONDS {
            rdsk_defaults::AUTO_PARK_SECONDS
        } else if 4 * k == rdsk::HIGH_RDSK_BLOCK {
            (self.rdsk_block + self.needed() - 1) as u32
        } else {
            0
        }
    }

    /// The `RDSK` block.
    pub open spec fn rdsk_image(self) -> Seq<u8> {
        checksum::sealed(
            image::block_of(self.geometry.block_size as nat, |k: int| self.rdsk_long(k)),
            HEADER_SUMMED_LONGS,
        )
    }

    /// Every block of the table in the order it is written: the `PART` blocks,
    /// the filesystems, the `RDSK` last.
    pub open spec fn writes(self) -> Seq<BlockWrite> {
        self.part_writes() + self.fs_writes(self.filesystems.len()) + seq![
            (self.rdsk_block as u64, self.rdsk_image()),
        ]
    }
}

} // verus!
