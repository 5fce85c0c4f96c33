//! The one line every error and every issue comes down to.
use amiga_rdb::{
    id, BlockKind, BuildError, CommitError, EditError, Geometry, GeometryError,
    PartitionSourceError, RdbError, SealError, ValidationIssue,
};

fn name(s: &str) -> String {
    String::from(s)
}

#[test]
fn every_read_error_has_its_line() {
    let cases: [(RdbError<&str>, &str); 10] = [
        (RdbError::Io("disk on fire"), "reading a block failed: disk on fire"),
        (
            RdbError::UnsupportedBlockSize { block_size: 768 },
            "unsupported device block size 768: must be a power of two in 512..=32768",
        ),
        (RdbError::NoRdsk, "no valid RDSK block in the first 16 blocks"),
        (
            RdbError::WrongId { lba: 7, expected: id::BADB, found: 0x4142_4300 },
            "block 7 has ID 0x41424300 where BADB was expected",
        ),
        (RdbError::BadChecksum { lba: 0 }, "block 0 has a bad checksum"),
        (
            RdbError::ChainOutOfRange { lba: u64::MAX },
            "a chain pointed at block 18446744073709551615, past the end of the disk",
        ),
        (RdbError::ChainCycle { lba: 10 }, "a chain loops back to block 10"),
        (
            RdbError::ChainTooLong { limit: 1_048_576 },
            "a chain is longer than the 1048576-block limit",
        ),
        (
            RdbError::SharedChain { lba: 9 },
            "two filesystems' LSEG chains share block 9, so neither can be edited",
        ),
        (
            RdbError::BlockBytesMismatch { block_bytes: 4096, block_size: 512 },
            "the RDB declares 4096-byte blocks but the source reads 512-byte blocks",
        ),
    ];
    for (e, line) in cases {
        assert_eq!(e.message("disk on fire"), line);
    }
}

#[test]
fn every_build_error_has_its_line() {
    let cases: [(BuildError<&str>, &str); 14] = [
        (BuildError::Io("full"), "writing a block failed: full"),
        (
            BuildError::UnsupportedBlockSize { block_size: 0 },
            "unsupported device block size 0: must be a power of two in 512..=32768",
        ),
        (
            BuildError::BlockSizeMismatch { geometry: 512, sink: 1024 },
            "the geometry is in 512-byte blocks but the sink writes 1024-byte blocks",
        ),
        (
            BuildError::EmptyGeometry {
                geometry: Geometry { cylinders: 3, heads: 0, sectors: 17, block_size: 512 },
            },
            "the geometry 3/0/17 describes no blocks",
        ),
        (
            BuildError::InvalidName { name: name("a\"b\n"), max: 31 },
            "drive name \"a\\\"b\\n\" does not fit pb_DriveName: 1..=31 characters are available",
        ),
        (
            BuildError::DuplicateName { name: name("DH0") },
            "two partitions are both named \"DH0\"",
        ),
        (
            BuildError::CylindersInverted { name: name("DH0"), low_cyl: 9, high_cyl: 8 },
            "partition \"DH0\" has an inverted cylinder range: LowCyl 9 is above HighCyl 8",
        ),
        (
            BuildError::PartitionTooSmall { name: name("X"), bytes: 1, cylinder_bytes: 2 },
            "partition \"X\" asks for 1 bytes, less than the 2-byte cylinder that is the \
             smallest partition",
        ),
        (
            BuildError::PartitionPastEndOfDisk { name: name("X"), high_cyl: 7, last_cylinder: 6 },
            "partition \"X\" ends on cylinder 7, past the disk's last cylinder 6",
        ),
        (
            BuildError::PartitionOverlapsRdbArea { name: name("X"), low_cyl: 0, lo_cylinder: 2 },
            "partition \"X\" starts on cylinder 0, inside the RDB area that ends at cylinder 1",
        ),
        (
            BuildError::PartitionsOverlap {
                a_name: name("X"),
                b_name: name("Y"),
                low_cyl: 4,
                high_cyl: 5,
            },
            "partitions \"X\" and \"Y\" both claim cylinders 4..=5",
        ),
        (
            BuildError::RdbAreaTooSmall { needed: 6, available: 4 },
            "the RDB area holds 4 blocks but the layout needs 6",
        ),
        (
            BuildError::SinkTooSmall { needed: 64, available: 32 },
            "the layout needs 64 blocks but the target has 32",
        ),
        (
            BuildError::Seal(SealError::SummedLongsTooLong { summed_longs: 129, capacity: 128 }),
            "sealing a block failed: SummedLongs 129 exceeds the 128 longwords the block holds",
        ),
    ];
    for (e, line) in cases {
        assert_eq!(e.message("full"), line);
    }
}

#[test]
fn every_edit_error_has_its_line() {
    let cases: [(EditError, &str); 17] = [
        (
            EditError::NoSuchPartition { index: 3, count: 0 },
            "there is no partition 3: the RDB has 0 of them",
        ),
        (
            EditError::InvalidName { name: name("tab\t"), max: 31 },
            "drive name \"tab\\t\" does not fit pb_DriveName: 1..=31 characters are available",
        ),
        (
            EditError::DuplicateName { name: name("DH1") },
            "another partition is already named \"DH1\"",
        ),
        (
            EditError::IdentityTooLong {
                field: "rdb_DiskVendor",
                value: name("123456789"),
                max: 8,
            },
            "rdb_DiskVendor holds 8 characters, which \"123456789\" exceeds",
        ),
        (
            EditError::NoSuchFileSystem { index: 1, count: 1 },
            "there is no filesystem 1: the RDB has 1 of them",
        ),
        (
            EditError::CylindersInverted { low_cyl: 2, high_cyl: 1 },
            "the cylinder range runs backwards: LowCyl 2 is above HighCyl 1",
        ),
        (
            EditError::PastEndOfDisk { high_cyl: 12, last_cylinder: 9 },
            "cylinder 12 is past 9, the last one the disk has",
        ),
        (
            EditError::OverlapsRdbArea { low_cyl: 1, lo_cylinder: 2 },
            "cylinder 1 is inside the RDB area: the first cylinder available to partitions is 2",
        ),
        (
            EditError::PartitionsOverlap { index: 0, name: name("DH0"), start: 64, len: 32 },
            "the extent overlaps partition 0 (\"DH0\") on 32 blocks from block 64",
        ),
        (
            EditError::PartitionTooSmall { bytes: 5, cylinder_bytes: 16384 },
            "5 bytes is less than the 16384-byte cylinder that is the smallest partition",
        ),
        (
            EditError::NoRoomForPartition { cylinders: 9, largest_gap: 2 },
            "no free run of 9 cylinders: the largest gap is 2",
        ),
        (
            EditError::UnusableGeometry { heads: 1, sectors: 0 },
            "a cylinder of 1 heads by 0 sectors holds no blocks",
        ),
        (
            EditError::RdbAreaWouldShrink { hi: 15, new_hi: 14 },
            "RDBBlocksHi 15 is never shrunk: 14 is below it",
        ),
        (
            EditError::RdbAreaBlocked {
                index: 0,
                name: name("DH0"),
                new_hi: 64,
                move_to_cylinder: 3,
            },
            "partition 0 (\"DH0\") is inside the blocks an RDBBlocksHi of 64 would claim: \
             move it to cylinder 3 or above first",
        ),
        (
            EditError::LoCylinderBlocked {
                index: 0,
                name: name("DH0"),
                low_cyl: 2,
                lo_cylinder: 3,
            },
            "partition 0 (\"DH0\") starts at cylinder 2, below the LoCylinder 3 asked for",
        ),
        (
            EditError::CylindersBelowPartition {
                index: 1,
                name: name("DH1"),
                high_cyl: 8,
                cylinders: 6,
            },
            "a disk of 6 cylinders does not reach cylinder 8, where partition 1 (\"DH1\") ends",
        ),
        (
            EditError::ClaimsBlocksPastEndOfDisk { last_block: 400, disk_blocks: 320 },
            "block 400 is past the end of a disk of 320 blocks",
        ),
    ];
    for (e, line) in cases {
        assert_eq!(e.message(), line);
    }
}

#[test]
fn every_commit_error_has_its_line() {
    let cases: [(CommitError<&str>, &str); 9] = [
        (CommitError::Io("gone"), "writing a block failed: gone"),
        (
            CommitError::UnsupportedBlockSize { block_size: 100 },
            "unsupported device block size 100: must be a power of two in 512..=32768",
        ),
        (
            CommitError::BlockSizeMismatch { rdb: 512, sink: 2048 },
            "the RDB is in 512-byte blocks but the sink writes 2048-byte blocks",
        ),
        (
            CommitError::RdbAreaInvalid { lo: 3, hi: 2 },
            "RDB area is empty or inverted: RDBBlocksLo 3 is above RDBBlocksHi 2",
        ),
        (
            CommitError::RdskOutsideRdbArea { rdsk_block: 5, hi: 4 },
            "the RDSK block at 5 is above RDBBlocksHi 4, outside the area this edit may write",
        ),
        (
            CommitError::RdbAreaTooSmall { needed: 4, available: 3, lo: 0, hi: 2 },
            "the RDB area 0..=2 holds 3 blocks but the new layout needs 4; \
             grow it with expand_rdb_area",
        ),
        (
            CommitError::RdbAreaPastEndOfDisk { hi: 9, block_count: 8 },
            "the expanded RDB area ends at block 9, past the 8 blocks the sink has",
        ),
        (
            CommitError::OutsideRdbArea { lba: 16, hi: 15 },
            "refusing to write block 16, which is outside the RDB area 0..=15",
        ),
        (
            CommitError::Seal(SealError::SummedLongsTooShort { summed_longs: 2 }),
            "sealing a block failed: SummedLongs 2 is below the 3 needed to cover ChkSum itself",
        ),
    ];
    for (e, line) in cases {
        assert_eq!(e.message("gone"), line);
    }
}

#[test]
fn every_issue_has_its_line() {
    let cases: [(ValidationIssue, &str); 7] = [
        (
            ValidationIssue::RdbAreaInvalid { lo: 9, hi: 4 },
            "RDB area is empty or inverted: RDBBlocksLo 9 is above RDBBlocksHi 4",
        ),
        (
            ValidationIssue::BlockOutsideRdbArea { kind: BlockKind::Lseg, lba: 20, lo: 0, hi: 15 },
            "LSEG block at 20 lies outside the RDB area 0..=15",
        ),
        (
            ValidationIssue::PartitionOverlapsRdbArea {
                index: 0,
                name: name("DH0"),
                start_lba: u64::MAX,
                block_len: 2,
                lo: 0,
                hi: 100,
            },
            "partition 0 (DH0) covers blocks 18446744073709551615..18446744073709551615 and \
             overlaps the RDB area 0..=100",
        ),
        (
            ValidationIssue::PartitionCylindersInverted {
                index: 1,
                name: name("DH1"),
                low_cyl: 9,
                high_cyl: 2,
            },
            "partition 1 (DH1) has an inverted cylinder range: LowCyl 9 is above HighCyl 2",
        ),
        (
            ValidationIssue::PartitionsOverlap {
                a: 0,
                b: 1,
                a_name: name("DH0"),
                b_name: name("DH1"),
                start: 128,
                len: 32,
            },
            "partitions 0 (DH0) and 1 (DH1) both claim blocks 128..160",
        ),
        (
            ValidationIssue::EnvecTooShort { index: 2, name: name("DH2"), table_size: 10 },
            "partition 2 (DH2) declares de_TableSize 10, short of the 16 needed to reach \
             de_DosType",
        ),
        (
            ValidationIssue::SharedLsegChain { index: 1, other: 0, lba: 5 },
            "filesystems 0 and 1 share LSEG block 5",
        ),
    ];
    for (issue, line) in cases {
        assert_eq!(issue.message(), line);
    }
}

#[test]
fn the_remaining_errors_have_their_line() {
    assert_eq!(
        GeometryError::UnsupportedBlockSize { block_size: 7 }.message(),
        "unsupported device block size 7: must be a power of two in 512..=32768"
    );
    assert_eq!(
        PartitionSourceError::Parent("gone").message("gone"),
        "the parent device failed: gone"
    );
    let kinds = [BlockKind::Part, BlockKind::Fshd, BlockKind::Lseg, BlockKind::Badb];
    assert_eq!(kinds.map(|k| k.name()), ["PART", "FSHD", "LSEG", "BADB"]);
}

/// A name is quoted the way a Rust string is, so that a control character or a
/// quote in it cannot pass for part of the message.
#[test]
fn names_are_quoted_with_escapes() {
    let e: BuildError<&str> = BuildError::DuplicateName { name: name("\u{7f}\\ \u{e9}\0") };
    assert_eq!(
        e.message(""),
        "two partitions are both named \"\\u{7f}\\\\ \u{e9}\\0\""
    );
}
