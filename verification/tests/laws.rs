//! What holds of every table, tried on a few.
use amiga_rdb::{
    be16, be32, byte_offset, checksum_ok, chain, de, fshd, hdr, id, lseg, model::parse_part, part,
    put_be32, rdsk,
    seal_checksum, synthesize_geometry, walk_chain, whole_blocks, BadBlockEntry, BlockSink,
    BlockSource, BuildError, CommitError, EditError, FileSystemSpec, Geometry, GeometryError,
    PartitionSink, PartitionSource, PartitionSourceError, PartitionSpec, Placement, Rdb,
    RdbBuilder, RdbEditor, RdbError, SealError, ValidationIssue, CHAIN_END, RDB_HEADROOM_BLOCKS,
};

const MIB: u64 = 1024 * 1024;

/// A disk in memory that remembers what was written to it, and that can be told
/// to fail.
#[derive(Clone)]
struct Disk {
    data: Vec<u8>,
    block_size: usize,
    counted: bool,
    writes: Vec<u64>,
    fail_after: Option<usize>,
    broken: Option<u64>,
}

impl Disk {
    fn new(blocks: usize, block_size: usize) -> Self {
        Disk {
            data: vec![0u8; blocks * block_size],
            block_size,
            counted: true,
            writes: Vec::new(),
            fail_after: None,
            broken: None,
        }
    }

    fn of(image: Vec<u8>) -> Self {
        let mut disk = Disk::new(0, 512);
        disk.data = image;
        disk
    }

    fn block(&self, lba: u64) -> &[u8] {
        let at = lba as usize * self.block_size;
        &self.data[at..at + self.block_size]
    }

    fn block_mut(&mut self, lba: u64) -> &mut [u8] {
        let at = lba as usize * self.block_size;
        &mut self.data[at..at + self.block_size]
    }
}

impl BlockSource for Disk {
    type Error = &'static str;

    fn block_size(&self) -> usize {
        self.block_size
    }

    fn read_block(&mut self, lba: u64, buf: &mut [u8]) -> Result<(), &'static str> {
        let at = lba as usize * self.block_size;
        if self.broken == Some(lba) || at + self.block_size > self.data.len() {
            return Err("unreadable");
        }
        buf.copy_from_slice(&self.data[at..at + self.block_size]);
        Ok(())
    }

    fn block_count(&self) -> Option<u64> {
        if self.counted {
            Some((self.data.len() / self.block_size) as u64)
        } else {
            None
        }
    }
}

impl BlockSink for Disk {
    type Error = &'static str;

    fn block_size(&self) -> usize {
        self.block_size
    }

    fn write_block(&mut self, lba: u64, buf: &[u8]) -> Result<(), &'static str> {
        let at = lba as usize * self.block_size;
        if self.fail_after == Some(self.writes.len()) || at + self.block_size > self.data.len() {
            return Err("unwritable");
        }
        self.data[at..at + self.block_size].copy_from_slice(buf);
        self.writes.push(lba);
        Ok(())
    }

    fn block_count(&self) -> Option<u64> {
        BlockSource::block_count(self)
    }
}

fn driver(len: usize) -> Vec<u8> {
    (0..len).map(|i| (i * 7 % 253) as u8 + 1).collect()
}

/// Three partitions and two filesystems on ten mebibytes.
fn plan(block_size: usize) -> RdbBuilder {
    RdbBuilder::for_size(10 * MIB, block_size)
        .unwrap()
        .partition(PartitionSpec::by_size(2 * MIB).bootable(-3))
        .partition(PartitionSpec::by_size(MIB).named("WORK").dos_type(0x444F_5307))
        .partition(PartitionSpec::by_size(MIB))
        .filesystem(FileSystemSpec::new(0x444F_5307, driver(1000)).version(45, 16))
        .filesystem(FileSystemSpec::new(0x5046_5303, driver(0)))
        .rdsk_block(2)
}

fn built(block_size: usize) -> Disk {
    let mut disk = Disk::new((10 * MIB) as usize / block_size, block_size);
    plan(block_size).build(&mut disk).unwrap();
    disk.writes.clear();
    disk
}

#[test]
fn assigned_names_are_distinct_and_fit() {
    let mut disk = Disk::new(20480, 512);
    let layout = RdbBuilder::for_size(10 * MIB, 512)
        .unwrap()
        .partition(PartitionSpec::by_size(MIB))
        .partition(PartitionSpec::by_size(MIB).named("DH1"))
        .partition(PartitionSpec::by_size(MIB).named("DH0"))
        .partition(PartitionSpec::by_size(MIB))
        .build(&mut disk)
        .unwrap();
    let names: Vec<&str> = layout.partitions.iter().map(|p| p.name.as_str()).collect();
    assert_eq!(names, ["DH2", "DH1", "DH0", "DH3"]);
}

#[test]
fn built_partitions_lie_apart_past_the_area() {
    let mut disk = Disk::new(20480, 512);
    let layout = plan(512).build(&mut disk).unwrap();
    let mut end = layout.rdb_blocks_hi as u64 + 1;
    for p in &layout.partitions {
        assert!(p.start_lba >= end);
        end = p.start_lba + p.block_len;
    }
    assert!(end <= layout.geometry.total_blocks());
}

#[test]
fn a_build_writes_each_block_once_inside_the_area_and_the_rdsk_last() {
    let mut disk = Disk::new(20480, 512);
    let layout = plan(512).build(&mut disk).unwrap();
    assert_eq!(disk.writes, [3, 4, 5, 7, 8, 9, 6, 10, 2]);
    assert!(disk.writes.iter().all(|&b| b <= layout.rdb_blocks_hi as u64));
}

#[test]
fn an_interrupted_build_leaves_no_table() {
    let writes = 9;
    for fail_after in 0..writes {
        let mut disk = Disk::new(20480, 512);
        disk.fail_after = Some(fail_after);
        assert_eq!(plan(512).build(&mut disk), Err(BuildError::Io("unwritable")));
        assert_eq!(disk.writes.len(), fail_after);
        assert_eq!(Rdb::parse(&mut disk), Err(RdbError::NoRdsk));
    }
}

#[test]
fn a_refused_build_writes_nothing() {
    let geometry = Geometry { cylinders: 10, heads: 1, sectors: 32, block_size: 512 };
    let new = || RdbBuilder::new(geometry);
    let none = Geometry { cylinders: 10, heads: 0, sectors: 32, block_size: 512 };
    let long = "12345678901234567890123456789012";
    let cases: Vec<(RdbBuilder, BuildError<&str>)> = vec![
        (RdbBuilder::new(none), BuildError::EmptyGeometry { geometry: none }),
        (
            RdbBuilder::new(Geometry { block_size: 1024, ..geometry }),
            BuildError::BlockSizeMismatch { geometry: 1024, sink: 512 },
        ),
        (
            new().partition(PartitionSpec::by_cylinders(2, 3).named(long)),
            BuildError::InvalidName { name: String::from(long), max: 31 },
        ),
        (
            new()
                .partition(PartitionSpec::by_cylinders(2, 3).named("A"))
                .partition(PartitionSpec::by_cylinders(4, 5).named("A")),
            BuildError::DuplicateName { name: String::from("A") },
        ),
        (
            new().partition(PartitionSpec::by_cylinders(5, 4)),
            BuildError::CylindersInverted { name: String::from("DH0"), low_cyl: 5, high_cyl: 4 },
        ),
        (
            new().partition(PartitionSpec::by_size(16383)),
            BuildError::PartitionTooSmall {
                name: String::from("DH0"),
                bytes: 16383,
                cylinder_bytes: 16384,
            },
        ),
        (
            new().partition(PartitionSpec::by_cylinders(2, 10)),
            BuildError::PartitionPastEndOfDisk {
                name: String::from("DH0"),
                high_cyl: 10,
                last_cylinder: 9,
            },
        ),
        (
            new().partition(PartitionSpec::by_cylinders(0, 3)),
            BuildError::PartitionOverlapsRdbArea {
                name: String::from("DH0"),
                low_cyl: 0,
                lo_cylinder: 1,
            },
        ),
        (
            new()
                .partition(PartitionSpec::by_cylinders(2, 5))
                .partition(PartitionSpec::by_cylinders(5, 7)),
            BuildError::PartitionsOverlap {
                a_name: String::from("DH0"),
                b_name: String::from("DH1"),
                low_cyl: 5,
                high_cyl: 5,
            },
        ),
        (
            new().reserved_blocks(1).partition(PartitionSpec::by_cylinders(2, 5)),
            BuildError::RdbAreaTooSmall { needed: 2, available: 1 },
        ),
    ];
    for (builder, expected) in cases {
        let mut disk = Disk::new(320, 512);
        assert_eq!(builder.build(&mut disk), Err(expected));
        assert!(disk.writes.is_empty());
    }
    let mut small = Disk::new(100, 512);
    assert_eq!(
        new().partition(PartitionSpec::by_cylinders(2, 5)).build(&mut small),
        Err(BuildError::SinkTooSmall { needed: 192, available: 100 })
    );
    assert!(small.writes.is_empty());
    let mut odd = Disk::new(0, 600);
    assert_eq!(
        new().build(&mut odd),
        Err(BuildError::UnsupportedBlockSize { block_size: 600 })
    );
}

#[test]
fn a_built_table_reads_back_and_is_valid() {
    for block_size in [512usize, 1024, 4096, 32768] {
        let mut disk = Disk::new((10 * MIB) as usize / block_size, block_size);
        let layout = plan(block_size).build(&mut disk).unwrap();
        let rdb = Rdb::parse(&mut disk).unwrap();
        assert_eq!(rdb.rdsk_block, 2);
        assert_eq!(rdb.block_bytes as usize, block_size);
        assert_eq!((rdb.flags, rdb.host_id, rdb.step_rate, rdb.interleave), (7, 7, 3, 1));
        assert_eq!(rdb.high_rdsk_block, layout.high_rdsk_block);
        assert_eq!(rdb.rdb_blocks_hi, layout.rdb_blocks_hi);
        assert_eq!(rdb.partitions.len(), 3);
        for (p, placed) in rdb.partitions.iter().zip(&layout.partitions) {
            assert_eq!(p.name, placed.name);
            assert_eq!(p.part_block, placed.part_block);
            assert_eq!((p.start_lba, p.block_len), (placed.start_lba, placed.block_len));
            assert_eq!((p.low_cyl, p.high_cyl), (placed.low_cyl, placed.high_cyl));
            assert_eq!(p.envec_raw.len(), 17);
            assert_eq!(p.size_block_longs as usize, block_size / 4);
        }
        assert!(rdb.partitions[0].bootable);
        assert_eq!(rdb.partitions[0].boot_pri, -3);
        assert!(!rdb.partitions[1].bootable);
        assert_eq!(rdb.partitions[1].dos_type, 0x444F_5307);
        assert_eq!(rdb.filesystems[0].version, (45 << 16) | 16);
        assert_eq!(rdb.filesystems[1].seg_list_blocks, CHAIN_END);
        assert!(rdb.validate().is_empty());
        assert!(rdb.validate_seg_lists(&mut disk).unwrap().is_empty());
    }
}

#[test]
fn a_built_driver_loads_back_with_its_last_block_filled_up() {
    let mut disk = built(512);
    let rdb = Rdb::parse(&mut disk).unwrap();
    let loaded = rdb.load_filesystem(&rdb.filesystems[0], &mut disk).unwrap();
    let payload = 512 - lseg::LOAD_DATA;
    assert_eq!(loaded.len(), 3 * payload);
    assert_eq!(&loaded[..1000], &driver(1000)[..]);
    assert!(loaded[1000..].iter().all(|&b| b == 0));
    assert_eq!(rdb.load_filesystem(&rdb.filesystems[1], &mut disk), Ok(Vec::new()));
}

/// A name is a run of bytes; the ones past ASCII come back as the characters
/// those bytes are in Latin-1.
#[test]
fn a_name_reads_back_byte_for_byte() {
    let mut disk = Disk::new(20480, 512);
    let layout = RdbBuilder::for_size(10 * MIB, 512)
        .unwrap()
        .partition(PartitionSpec::by_size(MIB).named("caf\u{e9}"))
        .build(&mut disk)
        .unwrap();
    assert_eq!(layout.partitions[0].name, "caf\u{e9}");
    let rdb = Rdb::parse(&mut disk).unwrap();
    assert_eq!(rdb.partitions[0].name, "caf\u{c3}\u{a9}");
}

#[test]
fn a_disk_of_terabytes_can_be_laid_out() {
    let builder = RdbBuilder::for_size(2_000_000 * MIB, 512).unwrap();
    let mut disk = Disk::new(64, 512);
    assert!(matches!(
        builder.partition(PartitionSpec::by_size(1_900_000 * MIB)).build(&mut disk),
        Err(BuildError::SinkTooSmall { available: 64, .. })
    ));
}

#[test]
fn a_reserved_area_has_headroom() {
    let geometry = Geometry { cylinders: 100, heads: 1, sectors: 8, block_size: 512 };
    let mut disk = Disk::new(800, 512);
    let layout = RdbBuilder::new(geometry)
        .partition(PartitionSpec::by_cylinders(20, 30))
        .build(&mut disk)
        .unwrap();
    assert_eq!(layout.rdb_blocks_hi as u64 + 1, 2 + RDB_HEADROOM_BLOCKS);
    assert_eq!(layout.lo_cylinder, 3);
}

#[test]
fn a_commit_without_edits_changes_nothing() {
    for block_size in [512usize, 4096] {
        let mut disk = built(block_size);
        let before = disk.data.clone();
        let editor = RdbEditor::open(&mut disk).unwrap();
        let report = editor.commit(&mut disk).unwrap();
        assert_eq!(disk.data, before);
        assert_eq!(*report.blocks_written.last().unwrap(), 2);
        assert!(report.blocks_zeroed.is_empty());
    }
}

/// Committed twice to the same disk, a table lands on the same blocks.
#[test]
fn two_commits_lay_a_table_out_alike() {
    let mut disk = built(512);
    let published = disk.data.clone();
    let mut editor = RdbEditor::open(&mut disk).unwrap();
    editor.remove_partition(0).unwrap();
    editor.set_bad_blocks(vec![BadBlockEntry { bad: 1, good: 2 }]);
    let first = editor.commit(&mut disk).unwrap();
    let after = disk.data.clone();
    disk.data = published;
    let second = editor.commit(&mut disk).unwrap();
    assert_eq!(disk.data, after);
    assert_eq!(first.blocks_written, second.blocks_written);
    assert_eq!(first.blocks_zeroed, second.blocks_zeroed);
    assert_eq!(first.part_blocks, second.part_blocks);
}

/// A stale high-water mark is the one thing a commit puts right.
#[test]
fn a_commit_recomputes_the_high_water_mark() {
    let mut disk = built(512);
    put_be32(disk.block_mut(2), rdsk::HIGH_RDSK_BLOCK, 99);
    seal_checksum(disk.block_mut(2), 64).unwrap();
    let before = disk.data.clone();
    RdbEditor::open(&mut disk).unwrap().commit(&mut disk).unwrap();
    assert_eq!(be32(disk.block(2), rdsk::HIGH_RDSK_BLOCK), 10);
    disk.block_mut(2).copy_from_slice(&before[2 * 512..3 * 512]);
    assert_eq!(disk.data, before);
}

#[test]
fn a_commit_keeps_every_byte_it_has_no_name_for() {
    let mut disk = built(512);
    let lba = Rdb::parse(&mut disk).unwrap().partitions[1].part_block;
    for i in [100usize, 127, 210, 255] {
        disk.block_mut(lba)[i] = 0xA5;
    }
    seal_checksum(disk.block_mut(lba), 64).unwrap();
    let old = disk.block(lba).to_vec();
    let mut editor = RdbEditor::open(&mut disk).unwrap();
    editor.remove_partition(0).unwrap();
    let report = editor.commit(&mut disk).unwrap();
    let new = disk.block(report.part_blocks[0]).to_vec();
    assert!(checksum_ok(&new));
    for i in 0..512usize {
        let pointer = chain::NEXT <= i && i < chain::NEXT + 4;
        let sum = hdr::CHK_SUM <= i && i < hdr::CHK_SUM + 4;
        assert!(pointer || sum || old[i] == new[i], "byte {i}");
    }
}

#[test]
fn no_block_is_written_before_one_it_points_at() {
    let mut disk = built(512);
    let mut editor = RdbEditor::open(&mut disk).unwrap();
    editor.add_partition(PartitionSpec::by_size(MIB)).unwrap();
    editor.remove_partition(0).unwrap();
    editor.replace_filesystem(0, FileSystemSpec::new(0x444F_5307, driver(2000))).unwrap();
    editor.set_bad_blocks(vec![BadBlockEntry { bad: 1, good: 2 }; 100]);
    let report = editor.commit(&mut disk).unwrap();
    let order = &report.blocks_written;
    let turn = |b: u32| order.iter().position(|&x| x == b as u64).unwrap();
    let flip = turn(report.rdsk_block as u32);
    for (k, &lba) in order[..flip].iter().enumerate() {
        let next = be32(disk.block(lba), chain::NEXT);
        assert!(next == CHAIN_END || turn(next) < k);
        if be32(disk.block(lba), hdr::ID) == id::FSHD {
            let head = be32(disk.block(lba), fshd::SEG_LIST);
            assert!(head == CHAIN_END || turn(head) < k);
        }
    }
    for head in [rdsk::PARTITION_LIST, rdsk::FILESYS_HEADER_LIST, rdsk::BAD_BLOCK_LIST] {
        assert!(turn(be32(disk.block(report.rdsk_block), head)) < flip);
    }
    assert_eq!(order[flip + 1..], report.blocks_zeroed[..]);
    for &lba in &report.blocks_zeroed {
        assert!(disk.block(lba).iter().all(|&b| b == 0));
    }
    assert!(order.iter().all(|&b| b <= report.rdb_blocks_hi as u64));
}

#[test]
fn a_committed_table_is_the_model() {
    let mut disk = built(512);
    let mut editor = RdbEditor::open(&mut disk).unwrap();
    editor.set_name(2, "NEW").unwrap();
    editor.set_mask(1, 0x00FF_FFFE).unwrap();
    editor.add_partition(PartitionSpec::by_size(MIB).named("LAST")).unwrap();
    editor.add_filesystem(FileSystemSpec::new(0x5346_5300, driver(700))).unwrap();
    editor.set_bad_blocks(vec![BadBlockEntry { bad: 7, good: 8 }]);
    editor.set_disk_identity("VENDOR", "PRODUCT", "1.0").unwrap();
    let model = editor.rdb().clone();
    let report = editor.commit(&mut disk).unwrap();
    let rdb = Rdb::parse(&mut disk).unwrap();
    assert_eq!(rdb.partitions.len(), model.partitions.len());
    for (i, (a, b)) in rdb.partitions.iter().zip(&model.partitions).enumerate() {
        assert_eq!(a.part_block, report.part_blocks[i]);
        let mut moved = b.clone();
        moved.part_block = a.part_block;
        assert_eq!(*a, moved);
    }
    for (i, (a, b)) in rdb.filesystems.iter().zip(&model.filesystems).enumerate() {
        assert_eq!(a.fshd_block, report.fshd_blocks[i]);
        let mut moved = b.clone();
        moved.fshd_block = a.fshd_block;
        moved.seg_list_blocks = a.seg_list_blocks;
        assert_eq!(*a, moved);
    }
    assert_eq!(rdb.bad_blocks, model.bad_blocks);
    assert_eq!(rdb.disk_vendor, "VENDOR");
    assert_eq!(rdb.high_rdsk_block, report.high_rdsk_block);
    let loaded = rdb.load_filesystem(&rdb.filesystems[2], &mut disk).unwrap();
    assert_eq!(&loaded[..700], &driver(700)[..]);
    assert!(rdb.validate().is_empty());
}

/// Wherever a commit is cut off, the chains of one whole table are there: the
/// old one's blocks before the `RDSK` lands, the new one's from then on.
#[test]
fn an_interrupted_commit_leaves_the_old_table_or_the_new_one() {
    let base = built(512);
    let old = Rdb::parse(&mut base.clone()).unwrap();
    let old_blocks: Vec<u64> = old.partitions.iter().map(|p| p.part_block).collect();
    let mut whole = base.clone();
    let mut editor = RdbEditor::open(&mut whole).unwrap();
    editor.remove_partition(1).unwrap();
    editor.add_partition(PartitionSpec::by_size(2 * MIB)).unwrap();
    editor.remove_filesystem(0).unwrap();
    let report = editor.commit(&mut whole).unwrap();
    let flip = report.blocks_written.iter().position(|&b| b == report.rdsk_block).unwrap();
    for fail_after in 0..report.blocks_written.len() {
        let mut disk = base.clone();
        disk.fail_after = Some(fail_after);
        assert_eq!(editor.commit(&mut disk), Err(CommitError::Io("unwritable")));
        let rdb = Rdb::parse(&mut disk).unwrap();
        let blocks: Vec<u64> = rdb.partitions.iter().map(|p| p.part_block).collect();
        if fail_after <= flip {
            assert_eq!(blocks, old_blocks);
            assert_eq!(rdb, old);
        } else {
            assert_eq!(blocks, report.part_blocks);
            assert_eq!(rdb, Rdb::parse(&mut whole).unwrap());
        }
        assert!(rdb.validate_seg_lists(&mut disk).unwrap().is_empty());
    }
}

/// With a spare block left, what has to move goes where the old table is not;
/// without one it goes where the old table was.
#[test]
fn moves_go_to_spare_blocks_while_there_are_any() {
    let geometry = Geometry { cylinders: 100, heads: 1, sectors: 32, block_size: 512 };
    let table = |reserved: u32| {
        let mut disk = Disk::new(3200, 512);
        RdbBuilder::new(geometry)
            .reserved_blocks(reserved)
            .partition(PartitionSpec::by_cylinders(2, 3))
            .partition(PartitionSpec::by_cylinders(4, 5))
            .partition(PartitionSpec::by_cylinders(6, 7))
            .build(&mut disk)
            .unwrap();
        disk
    };
    let mut roomy = table(8);
    let mut editor = RdbEditor::open(&mut roomy).unwrap();
    editor.remove_partition(1).unwrap();
    assert_eq!(editor.commit(&mut roomy).unwrap().part_blocks, [4, 3]);
    let mut full = table(4);
    let mut editor = RdbEditor::open(&mut full).unwrap();
    editor.remove_partition(1).unwrap();
    let report = editor.commit(&mut full).unwrap();
    assert!(report.part_blocks.iter().all(|&b| b <= 3));
    let rdb = Rdb::parse(&mut full).unwrap();
    assert_eq!(rdb.partitions.len(), 2);
}

#[test]
fn an_expansion_claims_only_free_blocks_and_never_shrinks() {
    let mut disk = built(512);
    let first = Rdb::parse(&mut disk).unwrap().partitions[0].start_lba as u32;
    let mut editor = RdbEditor::open(&mut disk).unwrap();
    let hi = editor.rdb().rdb_blocks_hi;
    assert_eq!(
        editor.expand_rdb_area(hi - 1),
        Err(EditError::RdbAreaWouldShrink { hi, new_hi: hi - 1 })
    );
    assert!(matches!(
        editor.expand_rdb_area(first),
        Err(EditError::RdbAreaBlocked { index: 0, .. })
    ));
    assert_eq!(editor.rdb().rdb_blocks_hi, hi);
    assert_eq!(editor.expand_rdb_area(hi), Ok(()));
    assert_eq!(editor.expand_rdb_area(first - 1), Ok(()));
    assert_eq!(editor.rdb().rdb_blocks_hi, first - 1);
}

#[test]
fn an_accepted_extent_overlaps_nothing() {
    let mut disk = built(512);
    let mut editor = RdbEditor::open(&mut disk).unwrap();
    let (low, high) = (editor.partitions()[1].low_cyl, editor.partitions()[1].high_cyl);
    assert!(matches!(
        editor.set_extent(2, low, high),
        Err(EditError::PartitionsOverlap { index: 1, .. })
    ));
    assert!(matches!(editor.set_extent(2, 0, 1), Err(EditError::OverlapsRdbArea { .. })));
    let last = editor.rdb().cylinders - 1;
    assert_eq!(editor.set_extent(2, last - 1, last), Ok(()));
    assert!(editor.rdb().validate().is_empty());
    assert!(matches!(
        editor.set_extent(2, last, last + 1),
        Err(EditError::PastEndOfDisk { .. })
    ));
    assert_eq!(
        editor.set_geometry_cylinders(last),
        Err(EditError::CylindersBelowPartition {
            index: 2,
            name: String::from("DH1"),
            high_cyl: last,
            cylinders: last,
        })
    );
}

#[test]
fn a_refused_edit_changes_nothing() {
    let mut disk = built(512);
    let mut editor = RdbEditor::open(&mut disk).unwrap();
    let before = editor.clone();
    assert!(editor.set_name(0, "WORK").is_err());
    assert!(editor.set_name(9, "X").is_err());
    assert!(editor.set_reserved(9, 1).is_err());
    assert!(editor.set_disk_identity("much too long", "", "").is_err());
    assert!(editor.set_controller_identity("", "", "12345").is_err());
    assert!(editor.add_partition(PartitionSpec::by_size(1)).is_err());
    assert!(editor.remove_partition(3).is_err());
    assert!(editor.resize_partition(0, 0).is_err());
    assert!(editor.remove_filesystem(2).is_err());
    assert!(editor.replace_filesystem(2, FileSystemSpec::new(1, Vec::new())).is_err());
    assert!(editor.set_lo_cylinder(u32::MAX).is_err());
    assert_eq!(editor, before);
}

/// Trailing spaces and NULs are padding; everything else of an identification
/// field comes back, and nothing else moves.
#[test]
fn an_identity_reads_back_without_its_padding() {
    let mut disk = built(512);
    let before = disk.block(2).to_vec();
    let mut editor = RdbEditor::open(&mut disk).unwrap();
    editor.set_disk_identity("AB  ", "", "1234").unwrap();
    assert_eq!(editor.rdb().disk_vendor, "AB");
    assert_eq!(editor.rdb().disk_product, "");
    assert_eq!(editor.rdb().disk_revision, "1234");
    editor.commit(&mut disk).unwrap();
    let after = disk.block(2).to_vec();
    let (from, to) = (rdsk::DISK_VENDOR.0, rdsk::DISK_REVISION.0 + rdsk::DISK_REVISION.1);
    for i in 0..512usize {
        let field = from <= i && i < to;
        let flags = rdsk::FLAGS <= i && i < rdsk::FLAGS + 4;
        let sum = hdr::CHK_SUM <= i && i < hdr::CHK_SUM + 4;
        assert!(field || flags || sum || before[i] == after[i], "byte {i}");
    }
}

#[test]
fn setting_a_field_in_reach_changes_that_field_alone() {
    let mut disk = built(512);
    let lba = Rdb::parse(&mut disk).unwrap().partitions[0].part_block;
    let before = disk.block(lba).to_vec();
    let mut editor = RdbEditor::open(&mut disk).unwrap();
    editor.set_num_buffers(0, 0x0102_0304).unwrap();
    editor.commit(&mut disk).unwrap();
    let after = disk.block(lba).to_vec();
    let at = part::ENVIRONMENT + 4 * de::NUM_BUFFERS;
    assert_eq!(after[at..at + 4], [1, 2, 3, 4]);
    for i in 0..512usize {
        let field = at <= i && i < at + 4;
        let sum = hdr::CHK_SUM <= i && i < hdr::CHK_SUM + 4;
        assert!(field || sum || before[i] == after[i], "byte {i}");
    }
}

/// An envec that stops short of `de_HighCyl` describes no extent, whatever lies
/// past its end.
#[test]
fn an_envec_short_of_its_cylinders_has_no_blocks() {
    let mut block = [0u8; 512];
    for (field, value) in [
        (de::TABLE_SIZE, 8u32),
        (de::SURFACES, 1),
        (de::BLOCKS_PER_TRACK, 32),
        (de::LOW_CYL, 2),
        (de::HIGH_CYL, 9),
    ] {
        put_be32(&mut block, part::ENVIRONMENT + 4 * field, value);
    }
    let p = parse_part(&block, 3);
    assert_eq!((p.part_block, p.low_cyl, p.high_cyl, p.dos_type), (3, 0, 0, 0));
    assert_eq!((p.cylinder_blocks, p.start_lba, p.block_len), (32, 0, 0));
    assert_eq!(p.envec_raw.len(), 9);
    put_be32(&mut block, part::ENVIRONMENT + 4 * de::TABLE_SIZE, 9);
    put_be32(&mut block, part::ENVIRONMENT + 4 * de::LOW_CYL, 0);
    assert_eq!(parse_part(&block, 3).block_len, 0);
    put_be32(&mut block, part::ENVIRONMENT + 4 * de::TABLE_SIZE, 10);
    assert_eq!(parse_part(&block, 3).block_len, 10 * 32);
}

/// One partition on cylinders 1 to 100, its envec cut short of its cylinders.
fn cut_short() -> Disk {
    let mut disk = Disk::new(20480, 512);
    RdbBuilder::for_size(10_485_760, 512)
        .unwrap()
        .partition(PartitionSpec::by_cylinders(1, 100))
        .build(&mut disk)
        .unwrap();
    put_be32(disk.block_mut(1), part::ENVIRONMENT + 4 * de::TABLE_SIZE, 8);
    seal_checksum(disk.block_mut(1), 64).unwrap();
    disk
}

/// A partition without an extent is in nobody's way.
#[test]
fn a_partition_without_an_extent_blocks_nothing() {
    let mut disk = cut_short();
    let rdb = Rdb::parse(&mut disk).unwrap();
    assert_eq!(rdb.partitions[0].block_len, 0);
    assert!(matches!(
        rdb.validate().as_slice(),
        [ValidationIssue::EnvecTooShort { index: 0, table_size: 8, .. }]
    ));
    let mut editor = RdbEditor::open(&mut disk).unwrap();
    editor.set_lo_cylinder(2).unwrap();
}

/// An accepted range is the one the model carries, and the one on the disk.
#[test]
fn an_accepted_extent_extends_a_short_envec() {
    let mut disk = cut_short();
    let mut editor = RdbEditor::open(&mut disk).unwrap();
    editor.set_extent(0, 3, 5).unwrap();
    let p = &editor.partitions()[0];
    assert_eq!((p.low_cyl, p.high_cyl, p.start_lba, p.block_len), (3, 5, 96, 96));
    assert_eq!(p.envec_raw.len(), 11);
    editor.resize_partition(0, 9).unwrap();
    editor.commit(&mut disk).unwrap();
    let p = &Rdb::parse(&mut disk).unwrap().partitions[0];
    assert_eq!((p.low_cyl, p.high_cyl, p.start_lba, p.block_len), (3, 9, 96, 224));
    assert_eq!(p.dos_type, 0);
}

/// A block size that does not fit is refused before any address is computed.
#[test]
fn a_block_size_is_refused_before_addresses_are() {
    let geometry =
        Geometry { cylinders: u32::MAX, heads: u32::MAX, sectors: u32::MAX, block_size: 512 };
    let builder =
        RdbBuilder::new(geometry).partition(PartitionSpec::by_cylinders(1, u32::MAX - 1));
    let mut odd = Disk::new(1, 300);
    assert_eq!(
        builder.build(&mut odd),
        Err(BuildError::UnsupportedBlockSize { block_size: 300 })
    );
    let mut other = Disk::new(16, 1024);
    assert_eq!(
        builder.build(&mut other),
        Err(BuildError::BlockSizeMismatch { geometry: 512, sink: 1024 })
    );
    assert!(odd.writes.is_empty() && other.writes.is_empty());
}

/// Opening refuses exactly what validation reports as shared, and names the
/// same block.
#[test]
fn opening_refuses_what_validation_reports_shared() {
    let mut disk = built(512);
    let rdb = Rdb::parse(&mut disk).unwrap();
    assert!(rdb.validate_seg_lists(&mut disk).unwrap().is_empty());
    assert_eq!(RdbEditor::open(&mut disk).unwrap().rdb(), &rdb);
    let head = rdb.filesystems[0].seg_list_blocks;
    let second = be32(disk.block(head as u64), chain::NEXT);
    let fshd = disk.block_mut(rdb.filesystems[1].fshd_block);
    put_be32(fshd, fshd::SEG_LIST, second);
    seal_checksum(fshd, 64).unwrap();
    let rdb = Rdb::parse(&mut disk).unwrap();
    assert_eq!(
        rdb.validate_seg_lists(&mut disk).unwrap(),
        [ValidationIssue::SharedLsegChain { index: 1, other: 0, lba: second as u64 }]
    );
    assert!(matches!(
        RdbEditor::open(&mut disk),
        Err(RdbError::SharedChain { lba }) if lba == second as u64
    ));
}

/// An inverted area is answered without a read.
#[test]
fn an_inverted_area_is_answered_without_a_read() {
    struct Unread;
    impl BlockSource for Unread {
        type Error = &'static str;
        fn block_size(&self) -> usize {
            512
        }
        fn read_block(&mut self, _: u64, _: &mut [u8]) -> Result<(), &'static str> {
            panic!("read")
        }
        fn block_count(&self) -> Option<u64> {
            None
        }
    }
    let mut rdb = Rdb::parse(&mut built(512)).unwrap();
    rdb.rdb_blocks_lo = rdb.rdb_blocks_hi + 1;
    assert_eq!(rdb.validate_seg_lists(&mut Unread), Ok(Vec::new()));
}

/// What loads is the payload of whole blocks, on a disk that can be read no
/// further than its end.
#[test]
fn a_loaded_driver_is_whole_blocks() {
    for len in [1usize, 492, 493, 984, 1000] {
        let mut disk = Disk::new(20480, 512);
        RdbBuilder::for_size(10 * MIB, 512)
            .unwrap()
            .filesystem(FileSystemSpec::new(0x444F_5307, driver(len)))
            .build(&mut disk)
            .unwrap();
        let rdb = Rdb::parse(&mut disk).unwrap();
        let loaded = rdb.load_filesystem(&rdb.filesystems[0], &mut disk).unwrap();
        assert_eq!(loaded.len(), (len + 491) / 492 * 492);
        assert_eq!(loaded[..len], driver(len));
        assert!(loaded[len..].iter().all(|&b| b == 0));
        assert!(disk.read_block(20480, &mut [0u8; 512]).is_err());
    }
}

/// Partitions that are added and removed are all there or not at all.
#[test]
fn an_interrupted_structural_edit_is_all_or_nothing() {
    let base = built(512);
    let list = |rdb: &Rdb| -> Vec<(String, u32, u32)> {
        rdb.partitions.iter().map(|p| (p.name.clone(), p.low_cyl, p.high_cyl)).collect()
    };
    let old = list(&Rdb::parse(&mut base.clone()).unwrap());
    let mut editor = RdbEditor::open(&mut base.clone()).unwrap();
    editor.remove_partition(0).unwrap();
    editor.add_partition(PartitionSpec::by_size(3 * MIB)).unwrap();
    let new = list(editor.rdb());
    let mut whole = base.clone();
    let report = editor.commit(&mut whole).unwrap();
    let flip = report.blocks_written.iter().position(|&b| b == report.rdsk_block).unwrap();
    for made in 0..=report.blocks_written.len() {
        let mut disk = base.clone();
        disk.fail_after = Some(made);
        let _ = editor.commit(&mut disk);
        let now = list(&Rdb::parse(&mut disk).unwrap());
        assert_eq!(now, if made <= flip { old.clone() } else { new.clone() });
    }
}

/// A refused read does not reach the parent.
#[test]
fn a_refused_read_leaves_the_parent_alone() {
    let mut disk = built(512);
    let mut p = Rdb::parse(&mut disk).unwrap().partitions[0].clone();
    let mut buf = [7u8; 512];
    let mut view = PartitionSource::new(&mut disk, &p);
    let len = p.block_len;
    assert_eq!(
        view.read_block(len, &mut buf),
        Err(PartitionSourceError::OutOfRange { lba: len, len })
    );
    p.start_lba = 20479;
    let mut view = PartitionSource::new(&mut disk, &p);
    assert_eq!(
        view.read_block(1, &mut buf),
        Err(PartitionSourceError::BeyondParent { lba: 1, parent_lba: 20480, block_count: 20480 })
    );
    assert_eq!(buf, [7u8; 512]);
}

#[test]
fn a_chain_breaks_off_only_on_a_bad_block_or_a_failed_read() {
    let mut disk = built(512);
    let mut buf = vec![0u8; 512];
    assert_eq!(walk_chain(&mut disk, 3, id::PART, &mut buf), Ok(vec![3, 4, 5]));
    assert_eq!(walk_chain(&mut disk, CHAIN_END, id::PART, &mut buf), Ok(Vec::new()));
    assert_eq!(
        walk_chain(&mut disk, 3, id::FSHD, &mut buf),
        Err(RdbError::WrongId { lba: 3, expected: id::FSHD, found: id::PART })
    );
    disk.broken = Some(4);
    assert_eq!(
        walk_chain(&mut disk, 3, id::PART, &mut buf),
        Err(RdbError::Io("unreadable"))
    );
    disk.broken = None;
    disk.block_mut(5)[200] ^= 1;
    assert_eq!(
        walk_chain(&mut disk, 3, id::PART, &mut buf),
        Err(RdbError::BadChecksum { lba: 5 })
    );
    assert_eq!(Rdb::parse(&mut disk), Err(RdbError::BadChecksum { lba: 5 }));
}

/// A read that fails while the table is searched for ends the search; one that
/// fails afterwards is an error.
#[test]
fn a_failed_read_ends_the_search_but_not_quietly_the_parse() {
    let mut disk = built(512);
    disk.broken = Some(1);
    assert_eq!(Rdb::parse(&mut disk), Err(RdbError::NoRdsk));
    disk.broken = Some(6);
    assert_eq!(Rdb::parse(&mut disk), Err(RdbError::Io("unreadable")));
    disk.broken = Some(7);
    assert!(Rdb::parse(&mut disk).is_ok());
    assert_eq!(RdbEditor::open(&mut disk), Err(RdbError::Io("unreadable")));
}

#[test]
fn a_driver_is_not_read_in_blocks_of_another_size() {
    let mut disk = built(512);
    let rdb = Rdb::parse(&mut disk).unwrap();
    let mut other = Disk::new(16, 1024);
    assert_eq!(
        rdb.load_filesystem(&rdb.filesystems[0], &mut other),
        Err(RdbError::BlockBytesMismatch { block_bytes: 512, block_size: 1024 })
    );
}

#[test]
fn every_overlapping_pair_is_reported_once() {
    let mut disk = built(512);
    let rdb = Rdb::parse(&mut disk).unwrap();
    let (low, high) = (rdb.partitions[0].low_cyl, rdb.partitions[0].high_cyl);
    for p in &rdb.partitions {
        let block = disk.block_mut(p.part_block);
        put_be32(block, part::ENVIRONMENT + 4 * de::LOW_CYL, low);
        put_be32(block, part::ENVIRONMENT + 4 * de::HIGH_CYL, high);
        seal_checksum(block, 64).unwrap();
    }
    let pairs: Vec<(usize, usize)> = Rdb::parse(&mut disk)
        .unwrap()
        .validate()
        .iter()
        .map(|issue| match issue {
            ValidationIssue::PartitionsOverlap { a, b, .. } => (*a, *b),
            other => panic!("{other:?}"),
        })
        .collect();
    assert_eq!(pairs, [(0, 1), (0, 2), (1, 2)]);
}

#[test]
fn a_partition_view_reads_back_what_it_wrote_and_stays_inside() {
    let mut disk = built(512);
    let p = Rdb::parse(&mut disk).unwrap().partitions[1].clone();
    let block = vec![0x5Au8; 512];
    let mut sink = PartitionSink::new(&mut disk, &p);
    assert_eq!(sink.write_block(3, &block), Ok(()));
    assert_eq!(
        sink.write_block(p.block_len, &block),
        Err(PartitionSourceError::OutOfRange { lba: p.block_len, len: p.block_len })
    );
    assert_eq!(disk.writes, [p.start_lba + 3]);
    let mut source = PartitionSource::new(&mut disk, &p);
    let mut back = vec![0u8; 512];
    assert_eq!(source.read_block(3, &mut back), Ok(()));
    assert_eq!(back, block);
    disk.broken = Some(p.start_lba);
    let mut source = PartitionSource::new(&mut disk, &p);
    assert_eq!(
        source.read_block(0, &mut back),
        Err(PartitionSourceError::Parent("unreadable"))
    );
}

#[test]
fn numbers_are_big_endian() {
    let mut block = [0u8; 8];
    put_be32(&mut block, 2, 0x0102_0304);
    assert_eq!(block, [0, 0, 1, 2, 3, 4, 0, 0]);
    assert_eq!(be32(&block, 2), 0x0102_0304);
    assert_eq!(be16(&block, 3), 0x0203);
}

#[test]
fn sealing_twice_is_sealing_once() {
    let mut block = vec![0xC3u8; 512];
    seal_checksum(&mut block, 128).unwrap();
    assert!(checksum_ok(&block));
    let once = block.clone();
    seal_checksum(&mut block, 128).unwrap();
    assert_eq!(block, once);
    assert_eq!(
        seal_checksum(&mut block, 2),
        Err(SealError::SummedLongsTooShort { summed_longs: 2 })
    );
    assert_eq!(
        seal_checksum(&mut block, 129),
        Err(SealError::SummedLongsTooLong { summed_longs: 129, capacity: 128 })
    );
    assert_eq!(block, once);
}

#[test]
fn a_geometry_falls_short_of_the_disk_by_less_than_a_cylinder() {
    for (bytes, block_size) in [(16384u64, 512usize), (10 * MIB, 512), (123_456_789, 4096)] {
        let g = synthesize_geometry(bytes, block_size).unwrap();
        assert!(g.total_bytes() <= bytes);
        assert!(bytes - g.total_bytes() < g.cylinder_blocks() * block_size as u64);
    }
    assert_eq!(
        synthesize_geometry(16383, 512),
        Err(GeometryError::TooSmall {
            total_bytes: 16383,
            block_size: 512,
            minimum_bytes: 16384,
        })
    );
}

#[test]
fn a_stream_has_whole_blocks_at_checked_offsets() {
    assert_eq!(whole_blocks(1023, 512), Some(1));
    assert_eq!(whole_blocks(1024, 512), Some(2));
    assert_eq!(whole_blocks(1024, 500), None);
    assert_eq!(byte_offset(3, 512), Some(1536));
    assert_eq!(byte_offset(1 << 55, 512), None);
}

#[test]
fn a_request_keeps_what_it_was_told() {
    let spec = PartitionSpec::by_size(5).named("N").bootable(2).size_block_longs(1024);
    assert_eq!(spec.placement, Placement::Size(5));
    assert_eq!(spec.name.as_deref(), Some("N"));
    assert_eq!((spec.bootable, spec.boot_pri), (true, 2));
    assert_eq!(spec.size_block_longs, Some(1024));
    assert_eq!(
        PartitionSpec::by_cylinders(3, 4).placement,
        Placement::Cylinders { low: 3, high: 4 }
    );
    let spec = FileSystemSpec::new(9, vec![1])
        .version(2, 3)
        .stack_size(4)
        .priority(-5)
        .global_vec(-6);
    assert_eq!((spec.dos_type, spec.version_major, spec.version_minor), (9, 2, 3));
    assert_eq!(spec.stack_size, Some(4));
    assert_eq!((spec.priority, spec.global_vec), (Some(-5), Some(-6)));
}

/// A disk that does not say how many blocks it has is taken at its word.
#[test]
fn an_uncounted_disk_can_be_built_on_and_edited() {
    let mut disk = Disk::new(20480, 512);
    disk.counted = false;
    plan(512).build(&mut disk).unwrap();
    let mut editor = RdbEditor::open(&mut disk).unwrap();
    editor.remove_partition(2).unwrap();
    let report = editor.commit(&mut disk).unwrap();
    assert_eq!(Rdb::parse(&mut disk).unwrap().partitions.len(), 2);
    assert!(report.blocks_zeroed.contains(&5));
    let image = disk.data.clone();
    assert_eq!(Rdb::parse(&mut Disk::of(image)).unwrap().partitions.len(), 2);
}
