//! Amiga Rigid Disk Block (RDB) partition tables.
//!
//! The RDB is a `RDSK` block in the first 16 blocks of a disk, heading chains of
//! `PART` blocks (one per partition, each with a `DosEnvec` that gives its
//! geometry and mount parameters), `FSHD` and `LSEG` blocks (filesystem drivers)
//! and `BADB` blocks (bad-block lists). Everything on disk is big-endian.
//!
//! [`Rdb::parse`] reads a table through [`BlockSource`], [`RdbBuilder`] writes a
//! fresh one through [`BlockSink`], and [`RdbEditor`] edits one in place. Every
//! address is a block of the device's own size, which `rdb_BlockBytes` must
//! match; a partition's filesystem block size is another thing, and nothing here
//! counts in it.
//!
//! The contracts see a device as a [`media::Medium`], what a builder was told as
//! a [`layout::Request`], and what an editor holds as a [`table::Table`].
use vstd::prelude::*;

pub mod arith;
pub mod badb;
pub mod build_laws;
pub mod builder;
pub mod built_blocks;
pub mod built_laws;
pub mod bytes;
pub mod chain;
pub mod checksum;
pub mod commit;
pub mod commit_laws;
pub mod crash_laws;
pub mod de;
pub mod driver_laws;
pub mod edit_error;
pub mod edit_laws;
pub mod editor;
pub mod envec_defaults;
pub mod extent;
pub mod extent_laws;
pub mod field_laws;
pub mod format_laws;
pub mod fshd;
pub mod fshd_defaults;
pub mod fshd_patch;
pub mod geometry;
pub mod geometry_laws;
pub mod hdr;
pub mod id;
pub mod image;
pub mod in_place_laws;
pub mod layout;
pub mod layout_laws;
pub mod lseg;
pub mod media;
pub mod message_laws;
pub mod model;
pub mod names;
pub mod new_block_laws;
pub mod open_laws;
pub mod opened_laws;
pub mod opening;
pub mod parse;
pub mod part;
pub mod partition_io;
pub mod patch;
pub mod placing_laws;
pub mod plan;
pub mod plan_laws;
pub mod rdb_flags;
pub mod rdsk;
pub mod rdsk_defaults;
pub mod request_laws;
pub mod room_laws;
pub mod sort;
pub mod specs;
pub mod table;
pub mod text;
pub mod text_laws;
pub mod validate;
pub mod validate_laws;
pub mod walk;

pub use builder::RdbBuilder;
pub use bytes::{be16, be32, block_size_ok, put_be32, CHAIN_END, MAX_BLOCK_SIZE, MIN_BLOCK_SIZE};
pub use checksum::{checksum_ok, seal_checksum, SealError, MIN_SUMMED_LONGS};
pub use edit_error::{CommitError, CommitReport, EditError};
pub use editor::RdbEditor;
pub use geometry::{synthesize_geometry, Geometry, GeometryError};
pub use image::{lseg_payload_bytes, LSEG_HEADER_LONGS, MAX_DRIVE_NAME};
pub use layout::{
    BuildError, PlacedFileSystem, PlacedPartition, RdbLayout, RDB_HEADROOM_BLOCKS,
};
pub use media::{byte_offset, whole_blocks, BlockSink, BlockSource};
pub use model::{parse_badb, BadBlockEntry, FileSysHeader, Partition, Rdb};
pub use partition_io::{PartitionSink, PartitionSource, PartitionSourceError};
pub use specs::{FileSystemSpec, PartitionSpec, Placement};
pub use table::UNPLACED_BLOCK;
pub use validate::{BlockKind, ValidationIssue};
pub use walk::{walk_chain, RdbError, MAX_CHAIN_BLOCKS, RDB_LOCATION_LIMIT};
