//! Reading, building and editing whole images.
use std::io::{Cursor, Read, Seek, SeekFrom, Write};

use amiga_rdb::{
    badb, be32, block_size_ok, byte_offset, chain, checksum_ok, de, envec_defaults, fshd,
    fshd_defaults, fshd_patch, hdr, id,
    lseg, lseg_payload_bytes, parse_badb, part, put_be32, rdb_flags, rdsk, rdsk_defaults, seal_checksum,
    synthesize_geometry, walk_chain, whole_blocks, BadBlockEntry, BlockKind, BlockSink,
    BlockSource, BuildError, CommitError, EditError, FileSystemSpec, Geometry, GeometryError,
    PartitionSink, PartitionSource, PartitionSourceError, PartitionSpec, Rdb,
    RdbBuilder, RdbEditor, RdbError, RdbLayout, SealError, ValidationIssue, CHAIN_END,
    MAX_CHAIN_BLOCKS, MIN_BLOCK_SIZE, MIN_SUMMED_LONGS, RDB_HEADROOM_BLOCKS, UNPLACED_BLOCK,
};

/// A byte stream as a block device.
struct SeekBlockSource<T: Read + Seek> {
    inner: T,
    block_size: usize,
    blocks: Option<u64>,
}

impl<T: Read + Seek> SeekBlockSource<T> {
    fn new(inner: T) -> std::io::Result<Self> {
        Self::with_block_size(inner, MIN_BLOCK_SIZE)
    }

    fn with_block_size(mut inner: T, block_size: usize) -> std::io::Result<Self> {
        if !block_size_ok(block_size) {
            return Err(std::io::Error::from(std::io::ErrorKind::InvalidInput));
        }
        let len = inner.seek(SeekFrom::End(0))?;
        Ok(Self {
            inner,
            block_size,
            blocks: whole_blocks(len, block_size),
        })
    }

    fn seek_to(&mut self, lba: u64) -> std::io::Result<u64> {
        match byte_offset(lba, self.block_size) {
            Some(at) => self.inner.seek(SeekFrom::Start(at)),
            None => Err(std::io::Error::from(std::io::ErrorKind::InvalidInput)),
        }
    }
}

impl<T: Read + Seek> BlockSource for SeekBlockSource<T> {
    type Error = std::io::Error;

    fn block_size(&self) -> usize {
        self.block_size
    }

    fn read_block(&mut self, lba: u64, buf: &mut [u8]) -> Result<(), Self::Error> {
        self.seek_to(lba)?;
        self.inner.read_exact(buf)
    }

    fn block_count(&self) -> Option<u64> {
        self.blocks
    }
}

impl<T: Read + Write + Seek> BlockSink for SeekBlockSource<T> {
    type Error = std::io::Error;

    fn block_size(&self) -> usize {
        self.block_size
    }

    fn write_block(&mut self, lba: u64, buf: &[u8]) -> Result<(), Self::Error> {
        self.seek_to(lba)?;
        self.inner.write_all(buf)
    }

    fn block_count(&self) -> Option<u64> {
        self.blocks
    }
}

/// In-memory disk for tests, with a configurable block size.
struct MemDisk {
    data: Vec<u8>,
    block_size: usize,
}

impl MemDisk {
    fn new(data: Vec<u8>) -> Self {
        Self {
            data,
            block_size: 512,
        }
    }
}

impl BlockSource for MemDisk {
    type Error = ();

    fn block_size(&self) -> usize {
        self.block_size
    }

    fn read_block(&mut self, lba: u64, buf: &mut [u8]) -> Result<(), ()> {
        let off = lba as usize * self.block_size;
        if off + self.block_size > self.data.len() {
            return Err(());
        }
        buf.copy_from_slice(&self.data[off..off + self.block_size]);
        Ok(())
    }

    fn block_count(&self) -> Option<u64> {
        Some((self.data.len() / self.block_size) as u64)
    }
}

/// The same buffer, writable, the in-memory sink the write path is developed
/// against.
impl BlockSink for MemDisk {
    type Error = ();

    fn block_size(&self) -> usize {
        self.block_size
    }

    fn write_block(&mut self, lba: u64, buf: &[u8]) -> Result<(), ()> {
        let off = lba as usize * self.block_size;
        if off + self.block_size > self.data.len() {
            return Err(());
        }
        self.data[off..off + self.block_size].copy_from_slice(buf);
        Ok(())
    }

    fn block_count(&self) -> Option<u64> {
        Some((self.data.len() / self.block_size) as u64)
    }
}

fn put32(disk: &mut [u8], bs: usize, block: usize, off: usize, v: u32) {
    let o = block * bs + off;
    disk[o..o + 4].copy_from_slice(&v.to_be_bytes());
}

/// Seal block `block` of a whole-disk buffer over `longs` longwords.
fn seal(disk: &mut [u8], bs: usize, block: usize, longs: u32) {
    let base = block * bs;
    seal_checksum(&mut disk[base..base + bs], longs).unwrap();
}

/// Write a fixed-width, space-padded ASCII field (the RDSK identification
/// convention) at `off`, truncating an over-long value the way a real
/// controller's INQUIRY copy would.
fn put_padded(disk: &mut [u8], bs: usize, block: usize, (off, len): (usize, usize), s: &str) {
    let base = block * bs + off;
    disk[base..base + len].fill(b' ');
    let b = s.as_bytes();
    let n = b.len().min(len);
    disk[base..base + n].copy_from_slice(&b[..n]);
}

/// Build a minimal valid image with the given device block size: RDSK at
/// `rdsk_block`, one PART.
fn one_partition_image_bs(rdsk_block: usize, bs: usize) -> Vec<u8> {
    one_partition_image_envec(rdsk_block, bs, 16)
}

fn one_partition_image_envec(rdsk_block: usize, bs: usize, table_size: u32) -> Vec<u8> {
    // Sized to the geometry it declares: 10 cylinders of 32 blocks.
    let mut d = vec![0u8; 320 * bs];
    let part_block = rdsk_block + 1;

    put32(&mut d, bs, rdsk_block, 0, id::RDSK);
    put32(&mut d, bs, rdsk_block, rdsk::BLOCK_BYTES, bs as u32);
    put32(&mut d, bs, rdsk_block, rdsk::BAD_BLOCK_LIST, CHAIN_END);
    put32(
        &mut d,
        bs,
        rdsk_block,
        rdsk::PARTITION_LIST,
        part_block as u32,
    );
    put32(&mut d, bs, rdsk_block, rdsk::FILESYS_HEADER_LIST, CHAIN_END);
    put32(&mut d, bs, rdsk_block, rdsk::CYLINDERS, 10);
    put32(&mut d, bs, rdsk_block, rdsk::SECTORS, 32);
    put32(&mut d, bs, rdsk_block, rdsk::HEADS, 1);
    put32(&mut d, bs, rdsk_block, rdsk::HOST_ID, 7);
    put32(&mut d, bs, rdsk_block, rdsk::DRIVE_INIT, CHAIN_END);
    put32(&mut d, bs, rdsk_block, rdsk::INTERLEAVE, 1);
    put32(&mut d, bs, rdsk_block, rdsk::PARK, 10);
    put32(&mut d, bs, rdsk_block, rdsk::WRITE_PRE_COMP, 10);
    put32(&mut d, bs, rdsk_block, rdsk::REDUCED_WRITE, 10);
    put32(&mut d, bs, rdsk_block, rdsk::STEP_RATE, 3);
    put32(&mut d, bs, rdsk_block, rdsk::LO_CYLINDER, 2);
    put32(&mut d, bs, rdsk_block, rdsk::HI_CYLINDER, 9);
    put32(&mut d, bs, rdsk_block, rdsk::CYL_BLOCKS, 32);
    put32(&mut d, bs, rdsk_block, rdsk::AUTO_PARK_SECONDS, 0);
    // A reserved area covering the whole of the first cylinder-ish prefix,
    // well below the first partition at block 64, so the fixture is a *clean*
    // layout and validate() has something meaningful to say when a test then
    // breaks it.
    put32(&mut d, bs, rdsk_block, rdsk::RDB_BLOCKS_LO, 0);
    put32(&mut d, bs, rdsk_block, rdsk::RDB_BLOCKS_HI, 15);
    put32(
        &mut d,
        bs,
        rdsk_block,
        rdsk::HIGH_RDSK_BLOCK,
        part_block as u32,
    );
    put32(
        &mut d,
        bs,
        rdsk_block,
        rdsk::FLAGS,
        rdb_flags::DISK_ID | rdb_flags::CTRLR_ID,
    );
    // Space-padded, and DISK_PRODUCT deliberately fills its whole 16 bytes so
    // the trimmer is exercised on both cases.
    put_padded(&mut d, bs, rdsk_block, rdsk::DISK_VENDOR, "QUANTUM ");
    put_padded(
        &mut d,
        bs,
        rdsk_block,
        rdsk::DISK_PRODUCT,
        "FIREBALL_TM3200S",
    );
    put_padded(&mut d, bs, rdsk_block, rdsk::DISK_REVISION, "300 ");
    put_padded(&mut d, bs, rdsk_block, rdsk::CONTROLLER_VENDOR, "CBM     ");
    put_padded(&mut d, bs, rdsk_block, rdsk::CONTROLLER_PRODUCT, "A4091");
    put_padded(&mut d, bs, rdsk_block, rdsk::CONTROLLER_REVISION, "40.9");
    seal(&mut d, bs, rdsk_block, 64);

    write_part(
        &mut d,
        bs,
        part_block,
        CHAIN_END,
        "DH0",
        (bs / 4) as u32,
        (2, 9),
        table_size,
    );

    d
}

/// Write one `PART` block: name, `de_SizeBlock` in longwords, the inclusive
/// cylinder range, `de_TableSize`, and the next-block pointer.
#[allow(clippy::too_many_arguments)]
fn write_part(
    d: &mut [u8],
    bs: usize,
    block: usize,
    next: u32,
    name: &str,
    size_block_longs: u32,
    (low_cyl, high_cyl): (u32, u32),
    table_size: u32,
) {
    put32(d, bs, block, 0, id::PART);
    put32(d, bs, block, chain::NEXT, next);
    put32(d, bs, block, part::FLAGS, 1); // bootable
    let name = name.as_bytes();
    d[block * bs + part::DRIVE_NAME] = name.len() as u8;
    d[block * bs + part::DRIVE_NAME + 1..block * bs + part::DRIVE_NAME + 1 + name.len()]
        .copy_from_slice(name);
    let e = part::ENVIRONMENT;
    put32(d, bs, block, e + de::TABLE_SIZE * 4, table_size);
    put32(d, bs, block, e + de::SIZE_BLOCK * 4, size_block_longs);
    put32(d, bs, block, e + de::SURFACES * 4, 1);
    put32(d, bs, block, e + de::BLOCKS_PER_TRACK * 4, 32);
    put32(d, bs, block, e + de::LOW_CYL * 4, low_cyl);
    put32(d, bs, block, e + de::HIGH_CYL * 4, high_cyl);
    put32(d, bs, block, e + de::BOOT_PRI * 4, 0);
    put32(d, bs, block, e + de::DOS_TYPE * 4, 0x444F_5303);
    // Written always: whether they are readable is up to de_TableSize.
    put32(d, bs, block, e + de::BAUD * 4, 9600);
    put32(d, bs, block, e + de::CONTROL * 4, 0x1234);
    put32(d, bs, block, e + de::BOOT_BLOCKS * 4, 2);
    seal(d, bs, block, 64);
}

/// Write one minimal `FSHD` block: the chain pointer, the dostype, and a
/// patched seg-list head.
fn write_fshd(d: &mut [u8], bs: usize, block: usize, next: u32, dos_type: u32, seg_head: u32) {
    put32(d, bs, block, 0, id::FSHD);
    put32(d, bs, block, chain::NEXT, next);
    put32(d, bs, block, fshd::HOST_ID, 7);
    put32(d, bs, block, fshd::DOS_TYPE, dos_type);
    put32(d, bs, block, fshd::PATCH_FLAGS, fshd_patch::SEG_LIST);
    put32(
        d,
        bs,
        block,
        fshd::PATCHED + fshd::SEG_LIST_INDEX * 4,
        seg_head,
    );
    seal(d, bs, block, 64);
}

/// A 512-byte-device-block image carrying *two* partitions chained off one
/// RDSK, each with its own `de_SizeBlock` and cylinder range.
fn two_partition_image(
    (name_a, size_block_a, cyls_a): (&str, u32, (u32, u32)),
    (name_b, size_block_b, cyls_b): (&str, u32, (u32, u32)),
) -> Vec<u8> {
    let bs = 512;
    let mut d = one_partition_image(2);
    write_part(&mut d, bs, 3, 4, name_a, size_block_a, cyls_a, 16);
    write_part(&mut d, bs, 4, CHAIN_END, name_b, size_block_b, cyls_b, 16);
    put32(&mut d, bs, 2, rdsk::HIGH_RDSK_BLOCK, 4);
    seal(&mut d, bs, 2, 64);
    d
}

fn one_partition_image(rdsk_block: usize) -> Vec<u8> {
    one_partition_image_bs(rdsk_block, 512)
}

/// Blocks the [`fs_image`] fixture lays its extra chains out on, after the RDSK
/// at 2 and the PART at 3.
const FSHD_BLOCK: usize = 4;
const LSEG_BLOCK: usize = 5; // and 6
const BADB_BLOCK: usize = 7; // and 8

/// Bytes of driver payload one 512-byte `LSEG` block carries.
const LSEG_PAYLOAD: usize = 512 - lseg::LOAD_DATA;

/// [`one_partition_image`] plus a one-entry `FSHD` chain with a two-block
/// `LSEG` chain, and a two-block `BADB` chain.
fn fs_image() -> (Vec<u8>, Vec<u8>) {
    let bs = 512;
    let mut d = one_partition_image(2);
    put32(&mut d, bs, 2, rdsk::FILESYS_HEADER_LIST, FSHD_BLOCK as u32);
    put32(&mut d, bs, 2, rdsk::BAD_BLOCK_LIST, BADB_BLOCK as u32);
    seal(&mut d, bs, 2, 64);

    put32(&mut d, bs, FSHD_BLOCK, 0, id::FSHD);
    put32(&mut d, bs, FSHD_BLOCK, chain::NEXT, CHAIN_END);
    put32(&mut d, bs, FSHD_BLOCK, fshd::HOST_ID, 7);
    put32(&mut d, bs, FSHD_BLOCK, fshd::FLAGS, 0);
    put32(&mut d, bs, FSHD_BLOCK, fshd::DOS_TYPE, 0x444F_5307);
    put32(&mut d, bs, FSHD_BLOCK, fshd::VERSION, (43 << 16) | 4);
    // Type, Handler, StackSize, Priority, SegList, GlobalVec patched; Task,
    // Lock and Startup deliberately not.
    put32(
        &mut d,
        bs,
        FSHD_BLOCK,
        fshd::PATCH_FLAGS,
        fshd_patch::TYPE
            | fshd_patch::HANDLER
            | fshd_patch::STACK_SIZE
            | fshd_patch::PRIORITY
            | fshd_patch::SEG_LIST
            | fshd_patch::GLOBAL_VEC,
    );
    // Every patched longword is written, those behind a clear bit too.
    for (i, v) in [
        1u32,        // Type
        0xDEAD_0001, // Task      (bit clear)
        0xDEAD_0002, // Lock      (bit clear)
        0x0000_0100, // Handler
        8192,        // StackSize
        10,          // Priority
        0xDEAD_0003, // Startup   (bit clear)
        LSEG_BLOCK as u32,
        0xFFFF_FFFF, // GlobalVec (-1: not BCPL)
    ]
    .into_iter()
    .enumerate()
    {
        put32(&mut d, bs, FSHD_BLOCK, fshd::PATCHED + i * 4, v);
    }
    seal(&mut d, bs, FSHD_BLOCK, 64);

    let payload: Vec<u8> = (0..2 * LSEG_PAYLOAD).map(|i| (i % 251) as u8).collect();
    for (i, block) in [LSEG_BLOCK, LSEG_BLOCK + 1].into_iter().enumerate() {
        put32(&mut d, bs, block, 0, id::LSEG);
        put32(
            &mut d,
            bs,
            block,
            chain::NEXT,
            if i == 0 {
                (LSEG_BLOCK + 1) as u32
            } else {
                CHAIN_END
            },
        );
        let base = block * bs + lseg::LOAD_DATA;
        d[base..base + LSEG_PAYLOAD]
            .copy_from_slice(&payload[i * LSEG_PAYLOAD..(i + 1) * LSEG_PAYLOAD]);
        // LSEG sums the whole block: SummedLongs == block_size / 4.
        seal(&mut d, bs, block, (bs / 4) as u32);
    }

    // Two BADB blocks, so the flattening across the chain is tested rather
    // than just the entries within one block.
    for (block, next, entries) in [
        (
            BADB_BLOCK,
            (BADB_BLOCK + 1) as u32,
            &[(100u32, 900u32), (101, 901)][..],
        ),
        (BADB_BLOCK + 1, CHAIN_END, &[(102, 902)][..]),
    ] {
        put32(&mut d, bs, block, 0, id::BADB);
        put32(&mut d, bs, block, chain::NEXT, next);
        for (i, (bad, good)) in entries.iter().enumerate() {
            put32(&mut d, bs, block, badb::ENTRIES + i * 8, *bad);
            put32(&mut d, bs, block, badb::ENTRIES + i * 8 + 4, *good);
        }
        seal(
            &mut d,
            bs,
            block,
            (badb::HEADER_LONGS + entries.len() * 2) as u32,
        );
    }

    (d, payload)
}

#[test]
fn parses_a_minimal_image() {
    let mut disk = MemDisk::new(one_partition_image(2));
    let rdb = Rdb::parse(&mut disk).unwrap();
    assert_eq!(rdb.rdsk_block, 2);
    assert_eq!(rdb.block_bytes, 512);
    assert_eq!(rdb.partitions.len(), 1);
    let p = &rdb.partitions[0];
    assert_eq!(p.name, "DH0");
    assert!(p.bootable);
    assert_eq!(p.dos_type, 0x444F_5303);
    assert_eq!(p.cylinder_blocks, 32);
    assert_eq!(p.start_lba, 64); // LowCyl 2 * 32
    assert_eq!(p.block_len, 256); // cyls 2..=9
}

/// A 4 KB-block disk parses identically: same LBAs, same extents, everything is
/// in device blocks, whatever their size.
#[test]
fn parses_a_4k_block_image() {
    let mut disk = MemDisk {
        data: one_partition_image_bs(2, 4096),
        block_size: 4096,
    };
    let rdb = Rdb::parse(&mut disk).unwrap();
    assert_eq!(rdb.rdsk_block, 2);
    assert_eq!(rdb.block_bytes, 4096);
    let p = &rdb.partitions[0];
    assert_eq!(p.start_lba, 64);
    assert_eq!(p.block_len, 256);
    assert_eq!(p.size_block_longs, 1024); // 4 KB filesystem blocks
}

/// A 4 KB-sector image read through a 512-byte source must fail loudly, not
/// misaddress every chained block.
#[test]
fn block_bytes_mismatch_is_an_error() {
    // RDSK at 0 so the 512-byte scan still lands on it.
    let mut disk = MemDisk::new(one_partition_image_bs(0, 4096));
    assert_eq!(
        Rdb::parse(&mut disk).unwrap_err(),
        RdbError::BlockBytesMismatch {
            block_bytes: 4096,
            block_size: 512
        }
    );
}

#[test]
fn unsupported_source_block_size_is_an_error() {
    for bad in [0usize, 256, 768, 65536] {
        let mut disk = MemDisk {
            data: vec![0u8; 4 * 65536],
            block_size: bad,
        };
        assert_eq!(
            Rdb::parse(&mut disk).unwrap_err(),
            RdbError::UnsupportedBlockSize { block_size: bad }
        );
    }
}

#[test]
fn no_rdsk_is_reported_not_invented() {
    let mut disk = MemDisk::new(vec![0u8; 32 * 512]);
    assert_eq!(Rdb::parse(&mut disk).unwrap_err(), RdbError::NoRdsk);
}

/// A source that declines to say how many blocks it has, and runs out before
/// the scan does, is `NoRdsk`, not the `Io` its own end-of-medium produced.
#[test]
fn a_short_source_that_will_not_say_its_size_is_no_rdsk() {
    struct EndlessProbe {
        data: Vec<u8>,
    }
    impl BlockSource for EndlessProbe {
        type Error = &'static str;
        fn block_size(&self) -> usize {
            512
        }
        fn read_block(&mut self, lba: u64, buf: &mut [u8]) -> Result<(), &'static str> {
            let off = lba as usize * 512;
            if off + 512 > self.data.len() {
                return Err("past the end of the medium");
            }
            buf.copy_from_slice(&self.data[off..off + 512]);
            Ok(())
        }
        fn block_count(&self) -> Option<u64> {
            None
        }
    }

    let mut disk = EndlessProbe {
        data: vec![0u8; 4 * 512],
    };
    assert_eq!(Rdb::parse(&mut disk), Err(RdbError::NoRdsk));

    // But a read failure *after* the RDSK is found is still an error: the
    // probe's tolerance ends where the parse begins.
    let mut disk = EndlessProbe {
        data: one_partition_image(3),
    };
    // The RDSK is on block 3 and its PART chain leads to block 4, which the
    // medium no longer has.
    disk.data.truncate(4 * 512);
    assert_eq!(
        Rdb::parse(&mut disk),
        Err(RdbError::Io("past the end of the medium"))
    );
}

/// An `RDSK` ID with a bad checksum must be skipped, not trusted, this is the
/// stale-copy-shadows-live-RDB case.
#[test]
fn bad_checksum_rdsk_is_skipped_in_the_scan() {
    let mut img = one_partition_image(3);
    // Plant a checksummed-wrong RDSK *earlier* than the real one.
    put32(&mut img, 512, 1, 0, id::RDSK);
    put32(&mut img, 512, 1, 4, 64);
    put32(&mut img, 512, 1, 8, 0xDEAD_BEEF);
    let mut disk = MemDisk::new(img);
    let rdb = Rdb::parse(&mut disk).unwrap();
    assert_eq!(rdb.rdsk_block, 3);
}

#[test]
fn part_chain_cycle_is_an_error_not_a_hang() {
    let mut img = one_partition_image(0);
    // PART at 1 points to itself.
    put32(&mut img, 512, 1, chain::NEXT, 1);
    seal(&mut img, 512, 1, 64);
    let mut disk = MemDisk::new(img);
    assert_eq!(
        Rdb::parse(&mut disk).unwrap_err(),
        RdbError::ChainCycle { lba: 1 }
    );
}

#[test]
fn part_chain_past_disk_end_is_an_error() {
    let mut img = one_partition_image(0);
    put32(&mut img, 512, 0, rdsk::PARTITION_LIST, 1000);
    seal(&mut img, 512, 0, 64);
    let mut disk = MemDisk::new(img);
    assert_eq!(
        Rdb::parse(&mut disk).unwrap_err(),
        RdbError::ChainOutOfRange { lba: 1000 }
    );
}

#[test]
fn partition_source_offsets_and_bounds() {
    let mut disk = MemDisk::new(one_partition_image(2));
    // Stamp a marker at the partition's first block (LBA 64).
    disk.data[64 * 512] = 0xAB;
    let rdb = Rdb::parse(&mut disk).unwrap();
    let p = rdb.partitions[0].clone();
    let mut ps = PartitionSource::new(&mut disk, &p);
    assert_eq!(BlockSource::block_count(&ps), Some(256));
    assert_eq!(BlockSource::block_size(&ps), 512);
    let mut buf = [0u8; 512];
    ps.read_block(0, &mut buf).unwrap();
    assert_eq!(buf[0], 0xAB);
    assert!(matches!(
        ps.read_block(256, &mut buf),
        Err(PartitionSourceError::OutOfRange { lba: 256, len: 256 })
    ));
}

/// The write-side mirror of `partition_source_offsets_and_bounds`: the same
/// translation, checked by where the bytes land on the parent rather than by
/// what comes back.
#[test]
fn partition_sink_offsets_and_bounds() {
    let mut disk = MemDisk::new(one_partition_image(2));
    let rdb = Rdb::parse(&mut disk).unwrap();
    let p = rdb.partitions[0].clone();
    let mut sink = PartitionSink::new(&mut disk, &p);
    assert_eq!(sink.block_count(), Some(256));
    assert_eq!(BlockSink::block_size(&sink), 512);
    let buf = vec![0xCDu8; 512];
    sink.write_block(1, &buf).unwrap();
    // Partition block 1 is disk block 65, and nothing either side of it moved.
    assert_eq!(disk.data[65 * 512..66 * 512], buf[..]);
    assert_eq!(disk.data[64 * 512], 0);
    assert_eq!(disk.data[66 * 512], 0);
}

/// A write past the partition's end is refused without the parent ever seeing
/// it, the block exists on the disk, which is exactly why the parent cannot be
/// trusted to catch this one.
#[test]
fn partition_sink_refuses_a_write_past_the_partition() {
    let mut disk = MemDisk::new(one_partition_image(2));
    let rdb = Rdb::parse(&mut disk).unwrap();
    let p = rdb.partitions[0].clone();
    let before = disk.data.clone();
    let mut sink = PartitionSink::new(&mut disk, &p);
    let buf = vec![0xCDu8; 512];
    assert!(matches!(
        sink.write_block(256, &buf),
        Err(PartitionSourceError::OutOfRange { lba: 256, len: 256 })
    ));
    assert_eq!(disk.data, before, "the refused write touched the parent");
}

#[test]
fn partition_sink_refuses_a_block_past_the_parent() {
    let mut disk = MemDisk::new(wrapping_start_lba_image());
    let rdb = Rdb::parse(&mut disk).unwrap();
    let p = rdb.partitions[0].clone();
    let before = disk.data.clone();
    let mut sink = PartitionSink::new(&mut disk, &p);
    let buf = vec![0xCDu8; 512];
    assert!(matches!(
        sink.write_block(1, &buf),
        Err(PartitionSourceError::BeyondParent { .. })
    ));
    assert_eq!(disk.data, before, "the refused write touched the parent");
}

/// Both halves of the seam over one partition of one disk: what `PartitionSink`
/// writes at a partition-relative LBA is what `PartitionSource` reads back at
/// the same LBA.
#[test]
fn partition_sink_and_source_round_trip() {
    let mut disk = MemDisk::new(one_partition_image(2));
    let rdb = Rdb::parse(&mut disk).unwrap();
    let p = rdb.partitions[0].clone();

    let mut written = vec![0u8; 512];
    for (i, b) in written.iter_mut().enumerate() {
        *b = (i % 251) as u8;
    }
    for lba in [0u64, 1, 255] {
        let mut sink = PartitionSink::new(&mut disk, &p);
        sink.write_block(lba, &written).unwrap();
        let mut source = PartitionSource::new(&mut disk, &p);
        let mut read = vec![0u8; 512];
        source.read_block(lba, &mut read).unwrap();
        assert_eq!(read, written, "round trip at partition block {lba}");
    }
}

/// `PartitionSource` as a `BlockSink`: the write lands at the correct parent
/// offset, exactly as `partition_sink_offsets_and_bounds` proves for
/// `PartitionSink`, but through the read-side struct.
#[test]
fn partition_source_write_block_offsets_and_bounds() {
    let mut disk = MemDisk::new(one_partition_image(2));
    let rdb = Rdb::parse(&mut disk).unwrap();
    let p = rdb.partitions[0].clone();
    let mut source = PartitionSource::new(&mut disk, &p);
    assert_eq!(BlockSink::block_size(&source), 512);
    let buf = vec![0xCDu8; 512];
    source.write_block(1, &buf).unwrap();
    // Partition block 1 is disk block 65, and nothing either side of it moved.
    assert_eq!(disk.data[65 * 512..66 * 512], buf[..]);
    assert_eq!(disk.data[64 * 512], 0);
    assert_eq!(disk.data[66 * 512], 0);
}

/// A write through `PartitionSource::write_block` past the partition's end is
/// refused without the parent ever seeing it, mirrors
/// `partition_sink_refuses_a_write_past_the_partition`.
#[test]
fn partition_source_write_block_refuses_a_write_past_the_partition() {
    let mut disk = MemDisk::new(one_partition_image(2));
    let rdb = Rdb::parse(&mut disk).unwrap();
    let p = rdb.partitions[0].clone();
    let before = disk.data.clone();
    let mut source = PartitionSource::new(&mut disk, &p);
    let buf = vec![0xCDu8; 512];
    assert!(matches!(
        source.write_block(256, &buf),
        Err(PartitionSourceError::OutOfRange { lba: 256, len: 256 })
    ));
    assert_eq!(disk.data, before, "the refused write touched the parent");
}

#[test]
fn partition_source_write_block_refuses_a_block_past_the_parent() {
    let mut disk = MemDisk::new(wrapping_start_lba_image());
    let rdb = Rdb::parse(&mut disk).unwrap();
    let p = rdb.partitions[0].clone();
    let before = disk.data.clone();
    let mut source = PartitionSource::new(&mut disk, &p);
    let buf = vec![0xCDu8; 512];
    assert!(matches!(
        source.write_block(1, &buf),
        Err(PartitionSourceError::BeyondParent { .. })
    ));
    assert_eq!(disk.data, before, "the refused write touched the parent");
}

/// One `PartitionSource` used as both a `BlockSink` and a `BlockSource`.
#[test]
fn partition_source_write_then_read_back_on_the_same_instance() {
    let mut disk = MemDisk::new(one_partition_image(2));
    let rdb = Rdb::parse(&mut disk).unwrap();
    let p = rdb.partitions[0].clone();

    let mut written = vec![0u8; 512];
    for (i, b) in written.iter_mut().enumerate() {
        *b = (i % 251) as u8;
    }
    let mut source = PartitionSource::new(&mut disk, &p);
    source.write_block(3, &written).unwrap();
    let mut read = vec![0u8; 512];
    source.read_block(3, &mut read).unwrap();
    assert_eq!(read, written);
}

/// A marker for a device that is read and written with one type of error.
trait LocalBlockMedium: BlockSource + BlockSink<Error = <Self as BlockSource>::Error> {}
impl<T: BlockSource + BlockSink<Error = <T as BlockSource>::Error>> LocalBlockMedium for T {}

fn assert_medium<T: LocalBlockMedium>() {}

#[test]
fn partition_source_over_a_matching_error_parent_satisfies_a_block_medium_bound() {
    assert_medium::<PartitionSource<'_, MemDisk>>();
}

/// The full envec: TableSize 20 means longwords 1..=20 follow, so
/// Baud/Control/BootBlocks are all present and `envec_raw` holds 21 entries
/// (TableSize itself included).
#[test]
fn table_size_20_envec_exposes_the_optional_tail() {
    let mut disk = MemDisk::new(one_partition_image_envec(2, 512, 20));
    let rdb = Rdb::parse(&mut disk).unwrap();
    let p = &rdb.partitions[0];
    assert_eq!(p.baud, Some(9600));
    assert_eq!(p.control, Some(0x1234));
    assert_eq!(p.boot_blocks, Some(2));
    assert_eq!(p.envec_raw.len(), 21);
    assert_eq!(p.envec_raw[de::TABLE_SIZE], 20);
    assert_eq!(p.envec_raw[de::DOS_TYPE], 0x444F_5303);
    assert_eq!(p.envec_raw[de::BOOT_BLOCKS], 2);
}

/// TableSize 16 stops at DosType.
#[test]
fn table_size_16_envec_has_no_optional_tail() {
    let mut disk = MemDisk::new(one_partition_image_envec(2, 512, 16));
    let rdb = Rdb::parse(&mut disk).unwrap();
    let p = &rdb.partitions[0];
    assert_eq!(p.baud, None);
    assert_eq!(p.control, None);
    assert_eq!(p.boot_blocks, None);
    assert_eq!(p.envec_raw.len(), 17);
}

#[test]
fn hostile_table_size_clamps_envec_raw() {
    for bogus in [96u32, 1000, 0x7FFF_FFFF, u32::MAX] {
        let mut disk = MemDisk::new(one_partition_image_envec(2, 512, bogus));
        let rdb = Rdb::parse(&mut disk).unwrap();
        let p = &rdb.partitions[0];
        assert_eq!(p.envec_raw.len(), (512 - part::ENVIRONMENT) / 4);
        // The tail fields still fit the block, so they read fine, clamping
        // bounds the read, it does not suppress it.
        assert_eq!(p.boot_blocks, Some(2));
    }
}

/// A `de_TableSize` too short to reach `de_DosType` is *tolerated*: the
/// partition is parsed with what the envec declares, the fields below the
/// declaration read as zero however tempting the bytes at their offsets are,
/// and [`Rdb::validate`] is where the damage is reported.
#[test]
fn a_short_envec_is_a_validation_issue_not_a_parse_failure() {
    // 9 reaches de_LowCyl and stops: no HighCyl, no DosType, and the geometry
    // longwords below it still there.
    for table_size in [0u32, 9, 15] {
        let mut disk = MemDisk::new(one_partition_image_envec(2, 512, table_size));
        let rdb = Rdb::parse(&mut disk).unwrap_or_else(|e| {
            panic!("de_TableSize {table_size} failed the whole parse: {e:?}")
        });
        assert_eq!(rdb.partitions.len(), 1);
        let p = &rdb.partitions[0];
        assert_eq!(p.name, "DH0", "the block still parses as itself");
        assert_eq!(p.envec_raw.len(), table_size as usize + 1);
        // Absent is zero: de_DosType is above every one of these table sizes,
        // and a partition missing either half of its range has no extent at
        // all, the inverted case's answer.
        assert_eq!(p.dos_type, 0);
        assert_eq!(
            p.low_cyl,
            if table_size as usize >= de::LOW_CYL {
                2
            } else {
                0
            }
        );
        assert_eq!(
            p.high_cyl,
            if table_size as usize >= de::HIGH_CYL {
                9
            } else {
                0
            }
        );
        assert_eq!(p.block_len, if table_size == 15 { 8 * 32 } else { 0 });
        // A `de_LowCyl` without its `de_HighCyl` is also an inverted range,
        // and validate says both.
        let mut expected = Vec::new();
        if p.low_cyl > p.high_cyl {
            expected.push(ValidationIssue::PartitionCylindersInverted {
                index: 0,
                name: String::from("DH0"),
                low_cyl: p.low_cyl,
                high_cyl: p.high_cyl,
            });
        }
        expected.push(ValidationIssue::EnvecTooShort {
            index: 0,
            name: String::from("DH0"),
            table_size,
        });
        assert_eq!(rdb.validate(), expected);
    }
}

/// And the editor round-trips such a partition: the block is preserved whole,
/// so an edit to another partition leaves the short envec exactly as short as
/// it was.
#[test]
fn a_short_envec_partition_round_trips_through_an_edit() {
    let bs = 512;
    let mut image = one_partition_image_envec(2, bs, 9);
    // A second, sound partition to edit, so the commit has a reason to rewrite
    // the chain at all.
    write_part(&mut image, bs, 4, CHAIN_END, "DH1", 128, (5, 7), 16);
    put32(&mut image, bs, 3, chain::NEXT, 4);
    seal(&mut image, bs, 3, 64);
    put32(&mut image, bs, 2, rdsk::HIGH_RDSK_BLOCK, 4);
    seal(&mut image, bs, 2, 64);

    let before = image.clone();
    let mut disk = MemDisk::new(image);
    let mut editor = RdbEditor::open(&mut disk).unwrap();
    editor.set_boot_priority(1, 5).unwrap();
    let report = editor.commit(&mut disk).unwrap();

    let rdb = Rdb::parse(&mut disk).unwrap();
    assert_eq!(rdb.partitions.len(), 2);
    assert_eq!(rdb.partitions[0].envec_raw.len(), 10);
    assert_eq!(rdb.partitions[1].boot_pri, 5);
    assert!(rdb.validate().contains(&ValidationIssue::EnvecTooShort {
        index: 0,
        name: String::from("DH0"),
        table_size: 9,
    }));
    // Neither pointer changed, so nothing moved and the short block is byte
    // for byte what it was.
    assert_eq!(report.part_blocks, vec![3, 4]);
    assert_eq!(&disk.data[3 * bs..4 * bs], &before[3 * bs..4 * bs]);
}

/// The same clamp on a 4 KB block, where the *declared* size is the binding
/// one: 20 longwords is far less than the 992 that fit.
#[test]
fn envec_raw_follows_table_size_when_it_fits() {
    let mut disk = MemDisk {
        data: one_partition_image_envec(2, 4096, 20),
        block_size: 4096,
    };
    let rdb = Rdb::parse(&mut disk).unwrap();
    assert_eq!(rdb.partitions[0].envec_raw.len(), 21);
}

#[test]
fn identification_strings_parse_with_padding_trimmed() {
    let mut disk = MemDisk::new(one_partition_image(2));
    let rdb = Rdb::parse(&mut disk).unwrap();
    assert_eq!(rdb.disk_vendor, "QUANTUM");
    assert_eq!(rdb.disk_product, "FIREBALL_TM3200S"); // fills all 16
    assert_eq!(rdb.disk_revision, "300");
    assert_eq!(rdb.controller_vendor, "CBM");
    assert_eq!(rdb.controller_product, "A4091");
    assert_eq!(rdb.controller_revision, "40.9");
    assert!(rdb.flags & rdb_flags::DISK_ID != 0);
    assert!(rdb.flags & rdb_flags::CTRLR_ID != 0);
    assert!(rdb.flags & rdb_flags::LAST == 0);
}

#[test]
fn remaining_rdsk_fields_are_surfaced() {
    let mut disk = MemDisk::new(one_partition_image(2));
    let rdb = Rdb::parse(&mut disk).unwrap();
    assert_eq!(rdb.host_id, 7);
    assert_eq!(rdb.drive_init, CHAIN_END);
    assert_eq!(rdb.interleave, 1);
    assert_eq!(rdb.park, 10);
    assert_eq!(rdb.write_pre_comp, 10);
    assert_eq!(rdb.reduced_write, 10);
    assert_eq!(rdb.step_rate, 3);
    assert_eq!(rdb.lo_cylinder, 2);
    assert_eq!(rdb.hi_cylinder, 9);
    assert_eq!(rdb.cyl_blocks, 32);
    assert_eq!(rdb.auto_park_seconds, 0);
    assert_eq!(rdb.high_rdsk_block, 3);
}

/// The FSHD is read, and `PatchFlags` decides which tail fields exist.
#[test]
fn fshd_chain_parses_with_patch_flags_gating() {
    let (img, _) = fs_image();
    let mut disk = MemDisk::new(img);
    let rdb = Rdb::parse(&mut disk).unwrap();
    assert_eq!(rdb.filesys_header_list, FSHD_BLOCK as u32);
    assert_eq!(rdb.filesystems.len(), 1);
    let f = &rdb.filesystems[0];
    assert_eq!(f.fshd_block, FSHD_BLOCK as u64);
    assert_eq!(f.host_id, 7);
    assert_eq!(f.dos_type, 0x444F_5307);
    assert_eq!(f.version_major(), 43);
    assert_eq!(f.version_minor(), 4);
    assert_eq!(f.node_type, Some(1));
    assert_eq!(f.handler, Some(0x100));
    assert_eq!(f.stack_size, Some(8192));
    assert_eq!(f.priority, Some(10));
    assert_eq!(f.global_vec, Some(-1));
    assert_eq!(f.task, None);
    assert_eq!(f.lock, None);
    assert_eq!(f.startup, None);
    // Always read, whatever the bit says, the chain must be walkable.
    assert_eq!(f.seg_list_blocks, LSEG_BLOCK as u32);
}

#[test]
fn lseg_chain_reassembles_the_driver_binary() {
    let (img, payload) = fs_image();
    let mut disk = MemDisk::new(img);
    let rdb = Rdb::parse(&mut disk).unwrap();
    let bin = rdb.load_filesystem(&rdb.filesystems[0], &mut disk).unwrap();
    assert_eq!(bin.len(), 2 * LSEG_PAYLOAD);
    assert_eq!(bin, payload);
}

/// No `LSEG` chain is an empty binary, not an error: an FSHD that only patches
/// device-node fields is legitimate.
#[test]
fn fshd_without_a_seg_list_loads_nothing() {
    let (mut img, _) = fs_image();
    put32(
        &mut img,
        512,
        FSHD_BLOCK,
        fshd::PATCHED + fshd::SEG_LIST_INDEX * 4,
        CHAIN_END,
    );
    seal(&mut img, 512, FSHD_BLOCK, 64);
    let mut disk = MemDisk::new(img);
    let rdb = Rdb::parse(&mut disk).unwrap();
    assert!(rdb
        .load_filesystem(&rdb.filesystems[0], &mut disk)
        .unwrap()
        .is_empty());
}

#[test]
fn badb_entries_are_flattened_across_the_chain() {
    let (img, _) = fs_image();
    let mut disk = MemDisk::new(img);
    let rdb = Rdb::parse(&mut disk).unwrap();
    assert_eq!(rdb.bad_block_list, BADB_BLOCK as u32);
    assert_eq!(
        rdb.bad_blocks,
        vec![
            BadBlockEntry {
                bad: 100,
                good: 900
            },
            BadBlockEntry {
                bad: 101,
                good: 901
            },
            BadBlockEntry {
                bad: 102,
                good: 902
            },
        ]
    );
}

/// A disk with no BADB chain has no entries, and the head field still round-
/// trips.
#[test]
fn no_badb_chain_is_an_empty_list() {
    let mut disk = MemDisk::new(one_partition_image(2));
    let rdb = Rdb::parse(&mut disk).unwrap();
    assert_eq!(rdb.bad_block_list, CHAIN_END);
    assert!(rdb.bad_blocks.is_empty());
    assert!(rdb.filesystems.is_empty());
}

#[test]
fn lseg_chain_cycle_is_an_error_not_a_hang() {
    let (mut img, _) = fs_image();
    // The second LSEG points back at the first.
    put32(
        &mut img,
        512,
        LSEG_BLOCK + 1,
        chain::NEXT,
        LSEG_BLOCK as u32,
    );
    seal(&mut img, 512, LSEG_BLOCK + 1, 128);
    let mut disk = MemDisk::new(img);
    let rdb = Rdb::parse(&mut disk).unwrap();
    assert_eq!(
        rdb.load_filesystem(&rdb.filesystems[0], &mut disk)
            .unwrap_err(),
        RdbError::ChainCycle {
            lba: LSEG_BLOCK as u64
        }
    );
}

#[test]
fn fshd_chain_with_wrong_id_is_an_error() {
    let (mut img, _) = fs_image();
    put32(&mut img, 512, FSHD_BLOCK, 0, id::PART);
    seal(&mut img, 512, FSHD_BLOCK, 64);
    let mut disk = MemDisk::new(img);
    assert_eq!(
        Rdb::parse(&mut disk).unwrap_err(),
        RdbError::WrongId {
            lba: FSHD_BLOCK as u64,
            expected: id::FSHD,
            found: id::PART,
        }
    );
}

/// A `BADB` whose `SummedLongs` claims more entries than the block holds must
/// clamp.
#[test]
fn hostile_badb_summed_longs_clamps_entry_count() {
    for bogus in [128u32, 1000, u32::MAX] {
        let mut b = vec![0u8; 512];
        b[4..8].copy_from_slice(&bogus.to_be_bytes());
        let mut out = Vec::new();
        parse_badb(&b, &mut out);
        assert_eq!(out.len(), (512 - badb::ENTRIES) / 8);
    }
}

/// `de_SizeBlock` is a *per partition* property: one 512-byte-device -block
/// disk carries a 4 KB-filesystem-block partition beside a 32 KB one, and
/// everything this crate reports, extents, [`PartitionSource`] addressing,
/// stays in the device's 512-byte blocks regardless.
#[test]
fn mixed_size_block_partitions_on_one_disk() {
    let mut disk = MemDisk::new(two_partition_image(
        ("DH0", 1024, (2, 4)), // 4 KB filesystem blocks
        ("DH1", 8192, (5, 9)), // 32 KB filesystem blocks
    ));
    let rdb = Rdb::parse(&mut disk).unwrap();
    assert_eq!(rdb.block_bytes, 512);
    assert_eq!(rdb.partitions.len(), 2);

    let (a, b) = (rdb.partitions[0].clone(), rdb.partitions[1].clone());
    assert_eq!(a.name, "DH0");
    assert_eq!(a.size_block_longs, 1024);
    assert_eq!(b.name, "DH1");
    assert_eq!(b.size_block_longs, 8192);
    // 64x apart in filesystem block size, identical arithmetic: extents are
    // device blocks, cylinders x 32.
    assert_eq!((a.start_lba, a.block_len), (64, 96)); // cyls 2..=4
    assert_eq!((b.start_lba, b.block_len), (160, 160)); // cyls 5..=9

    // ...and the adapter a filesystem crate mounts still speaks the device's
    // block size for both, not de_SizeBlock's.
    for (p, blocks) in [(&a, 96u64), (&b, 160)] {
        let ps = PartitionSource::new(&mut disk, p);
        assert_eq!(BlockSource::block_size(&ps), 512);
        assert_eq!(BlockSource::block_count(&ps), Some(blocks));
    }

    // A legal layout, mixed block sizes and all.
    assert!(rdb.validate().is_empty());
}

/// The fixtures are clean layouts: every chained block inside the reserved
/// area, every partition clear of it, no two partitions claiming a block.
#[test]
fn validate_accepts_a_clean_image() {
    let (img, _) = fs_image();
    let mut disk = MemDisk::new(img);
    let rdb = Rdb::parse(&mut disk).unwrap();
    assert_eq!(rdb.rdb_blocks_lo, 0);
    assert_eq!(rdb.rdb_blocks_hi, 15);
    assert_eq!(
        rdb.badb_blocks,
        vec![BADB_BLOCK as u64, BADB_BLOCK as u64 + 1]
    );
    assert!(rdb.validate().is_empty());
    assert!(rdb.validate_seg_lists(&mut disk).unwrap().is_empty());
}

/// A `PART` block past `rdb_RDBBlocksHi` sits in space the RDB says is not
/// reserved, readable, and a repartitioner is entitled to hand that block to a
/// filesystem.
#[test]
fn validate_reports_a_part_block_outside_the_rdb_area() {
    let mut img = one_partition_image(2);
    put32(&mut img, 512, 2, rdsk::RDB_BLOCKS_HI, 2); // PART is at 3
    seal(&mut img, 512, 2, 64);
    let mut disk = MemDisk::new(img);
    let rdb = Rdb::parse(&mut disk).unwrap();
    assert_eq!(
        rdb.validate(),
        vec![ValidationIssue::BlockOutsideRdbArea {
            kind: BlockKind::Part,
            lba: 3,
            lo: 0,
            hi: 2,
        }]
    );
}

/// The real-world case: a tool wrote RDB structures past the reserved area, so
/// the area now runs into the first partition and each side will trash the
/// other.
#[test]
fn validate_reports_a_partition_overlapping_the_rdb_area() {
    let mut img = one_partition_image(2);
    put32(&mut img, 512, 2, rdsk::RDB_BLOCKS_HI, 100); // DH0 starts at 64
    seal(&mut img, 512, 2, 64);
    let mut disk = MemDisk::new(img);
    let rdb = Rdb::parse(&mut disk).unwrap();
    // Still fully readable: that is the whole point.
    assert_eq!(rdb.partitions[0].start_lba, 64);
    assert_eq!(
        rdb.validate(),
        vec![ValidationIssue::PartitionOverlapsRdbArea {
            index: 0,
            name: String::from("DH0"),
            start_lba: 64,
            block_len: 256,
            lo: 0,
            hi: 100,
        }]
    );
}

#[test]
fn validate_reports_overlapping_partitions() {
    let mut disk = MemDisk::new(two_partition_image(
        ("DH0", 1024, (2, 4)), // 64..160
        ("DH1", 8192, (4, 9)), // 128..320
    ));
    let rdb = Rdb::parse(&mut disk).unwrap();
    let issues = rdb.validate();
    assert_eq!(
        issues,
        vec![ValidationIssue::PartitionsOverlap {
            a: 0,
            b: 1,
            a_name: String::from("DH0"),
            b_name: String::from("DH1"),
            start: 128,
            len: 32,
        }]
    );
    assert_eq!(
        issues[0].message(),
        "partitions 0 (DH0) and 1 (DH1) both claim blocks 128..160"
    );
}

/// An inverted `de_LowCyl`/`de_HighCyl` pair.
#[test]
fn inverted_cylinder_range_is_an_empty_extent_not_an_overflow() {
    let mut d = one_partition_image(2);
    put32(&mut d, 512, 3, part::ENVIRONMENT + de::LOW_CYL * 4, 9);
    put32(&mut d, 512, 3, part::ENVIRONMENT + de::HIGH_CYL * 4, 2);
    seal(&mut d, 512, 3, 64);

    let mut disk = MemDisk::new(d);
    let rdb = Rdb::parse(&mut disk).unwrap();
    let p = &rdb.partitions[0];
    assert_eq!((p.low_cyl, p.high_cyl), (9, 2));
    assert_eq!(p.block_len, 0);
    // Zero-length, so it cannot collide with anything: the only issue is the
    // inversion itself.
    let issues = rdb.validate();
    assert_eq!(
        issues,
        vec![ValidationIssue::PartitionCylindersInverted {
            index: 0,
            name: String::from("DH0"),
            low_cyl: 9,
            high_cyl: 2,
        }]
    );
    assert_eq!(
        issues[0].message(),
        "partition 0 (DH0) has an inverted cylinder range: LowCyl 9 is above HighCyl 2"
    );
}

/// The other half of the same arithmetic: a plausible-looking geometry whose
/// cylinder product times `de_LowCyl` does not fit a `u64`.
#[test]
fn absurd_geometry_saturates_rather_than_overflowing() {
    let mut d = one_partition_image(2);
    let env = |i: usize| part::ENVIRONMENT + i * 4;
    put32(&mut d, 512, 3, env(de::SURFACES), u32::MAX);
    put32(&mut d, 512, 3, env(de::BLOCKS_PER_TRACK), u32::MAX);
    put32(&mut d, 512, 3, env(de::LOW_CYL), u32::MAX - 1);
    put32(&mut d, 512, 3, env(de::HIGH_CYL), u32::MAX);
    seal(&mut d, 512, 3, 64);

    let mut disk = MemDisk::new(d);
    let rdb = Rdb::parse(&mut disk).unwrap();
    let p = &rdb.partitions[0];
    assert_eq!(p.start_lba, u64::MAX);
    assert_eq!(p.block_len, u64::MAX);

    // And the adapter over that extent refuses rather than overflowing the
    // parent LBA: `block_len` says block 1 is in range, but `start_lba + 1`
    // does not exist.
    let mut parent = MemDisk::new(vec![0u8; 512]);
    let mut view = PartitionSource::new(&mut parent, p);
    let mut block = vec![0u8; 512];
    assert_eq!(
        view.read_block(1, &mut block),
        Err(PartitionSourceError::OutOfRange {
            lba: 1,
            len: u64::MAX
        })
    );
}

/// `LSEG` blocks are lazy, so they are checked with the disk in hand.
#[test]
fn validate_seg_lists_reports_lseg_outside_the_rdb_area() {
    let (mut img, _) = fs_image();
    put32(&mut img, 512, 2, rdsk::RDB_BLOCKS_HI, FSHD_BLOCK as u32);
    seal(&mut img, 512, 2, 64);
    let mut disk = MemDisk::new(img);
    let rdb = Rdb::parse(&mut disk).unwrap();

    let outside = |kind, lba| ValidationIssue::BlockOutsideRdbArea {
        kind,
        lba,
        lo: 0,
        hi: FSHD_BLOCK as u64,
    };
    // The eager chains: PART and FSHD are inside, both BADBs are not.
    assert_eq!(
        rdb.validate(),
        vec![
            outside(BlockKind::Badb, BADB_BLOCK as u64),
            outside(BlockKind::Badb, BADB_BLOCK as u64 + 1),
        ]
    );
    assert_eq!(
        rdb.validate_seg_lists(&mut disk).unwrap(),
        vec![
            outside(BlockKind::Lseg, LSEG_BLOCK as u64),
            outside(BlockKind::Lseg, LSEG_BLOCK as u64 + 1),
        ]
    );
}

/// An inverted reserved area says nothing about what is inside it, so it is
/// reported once instead of once per block, but the partition-versus-partition
/// check does not consult the area and still runs.
#[test]
fn validate_reports_an_inverted_rdb_area_once() {
    let mut img = two_partition_image(("DH0", 1024, (2, 4)), ("DH1", 8192, (4, 9)));
    put32(&mut img, 512, 2, rdsk::RDB_BLOCKS_LO, 16);
    put32(&mut img, 512, 2, rdsk::RDB_BLOCKS_HI, 0);
    seal(&mut img, 512, 2, 64);
    let mut disk = MemDisk::new(img);
    let rdb = Rdb::parse(&mut disk).unwrap();
    let issues = rdb.validate();
    assert_eq!(issues.len(), 2);
    assert_eq!(issues[0], ValidationIssue::RdbAreaInvalid { lo: 16, hi: 0 });
    assert!(matches!(
        issues[1],
        ValidationIssue::PartitionsOverlap { a: 0, b: 1, .. }
    ));
    assert!(rdb.validate_seg_lists(&mut disk).unwrap().is_empty());
}

/// The error types render one line a user can act on: which block, and both
/// sides of every disagreement.
#[test]
fn errors_display_as_one_useful_line() {
    let line = |e: RdbError<&str>| match &e {
        RdbError::Io(cause) => e.message(cause),
        _ => e.message(""),
    };
    assert_eq!(
        line(RdbError::WrongId {
            lba: 4,
            expected: id::FSHD,
            found: id::PART,
        }),
        "block 4 has ID PART where FSHD was expected"
    );
    // A corrupt ID is not four printable characters; hex, not mojibake.
    assert_eq!(
        line(RdbError::WrongId {
            lba: 4,
            expected: id::PART,
            found: 0,
        }),
        "block 4 has ID 0x00000000 where PART was expected"
    );
    assert_eq!(
        line(RdbError::BadChecksum { lba: 7 }),
        "block 7 has a bad checksum"
    );
    assert_eq!(
        line(RdbError::BlockBytesMismatch {
            block_bytes: 4096,
            block_size: 512,
        }),
        "the RDB declares 4096-byte blocks but the source reads 512-byte blocks"
    );
    assert_eq!(
        line(RdbError::Io("disk on fire")),
        "reading a block failed: disk on fire"
    );
    assert_eq!(
        line(RdbError::ChainTooLong { limit: 1024 }),
        "a chain is longer than the 1024-block limit"
    );
    assert_eq!(
        line(RdbError::SharedChain { lba: 9 }),
        "two filesystems' LSEG chains share block 9, so neither can be edited"
    );
    assert_eq!(
        PartitionSourceError::<&str>::OutOfRange { lba: 256, len: 256 }
            .message(""),
        "block 256 is past the end of the partition, which has 256 blocks"
    );
    assert_eq!(
        PartitionSourceError::<&str>::BeyondParent {
                lba: 3,
                parent_lba: 4096,
                block_count: 320,
            }
            .message(""),
        "block 3 of the partition is block 4096 of the device, which has only 320 blocks"
    );
    assert_eq!(
        ValidationIssue::SharedLsegChain {
                index: 1,
                other: 0,
                lba: 5
            }
            .message(),
        "filesystems 0 and 1 share LSEG block 5"
    );
}

#[test]
fn checksum_rejects_hostile_summed_longs() {
    let mut b = [0u8; 512];
    b[4..8].copy_from_slice(&0xFFFF_FFFFu32.to_be_bytes());
    assert!(!checksum_ok(&b));
    b[4..8].copy_from_slice(&0u32.to_be_bytes());
    assert!(!checksum_ok(&b));
}

/// The round-trip property in miniature, swept over every supported block size,
/// a spread of `SummedLongs` within each, and contents chosen to make the
/// wrapping arithmetic actually wrap: whatever [`seal_checksum`] accepts,
/// [`checksum_ok`] must then accept.
#[test]
fn seal_then_checksum_ok_round_trips() {
    for bs in [512usize, 1024, 2048, 4096, 8192, 16384, 32768] {
        let capacity = (bs / 4) as u32;
        for pattern in 0u32..6 {
            let mut block = vec![0u8; bs];
            for (i, byte) in block.iter_mut().enumerate() {
                *byte = match pattern {
                    0 => 0,
                    1 => 0xFF,
                    // A cheap LCG, so each pattern is a different spread of
                    // longwords rather than a ramp that sums to something
                    // tidy.
                    p => {
                        (((i as u32)
                            .wrapping_mul(1_103_515_245)
                            .wrapping_add(p * 12_345))
                            >> 16) as u8
                    }
                };
            }
            for longs in [
                MIN_SUMMED_LONGS,
                MIN_SUMMED_LONGS + 1,
                64,
                capacity / 2,
                capacity - 1,
                capacity,
            ] {
                seal_checksum(&mut block, longs).unwrap();
                assert!(
                    checksum_ok(&block),
                    "bs {bs} pattern {pattern} longs {longs} did not check out"
                );
                // And the header says what was asked for, which is the half a
                // clamp would have quietly changed.
                assert_eq!(be32(&block, 4), longs);
            }
        }
    }
}

/// Sealing refuses counts no block can satisfy rather than clamping them, and
/// refuses without touching the block.
#[test]
fn seal_refuses_impossible_summed_longs() {
    let mut block = vec![0xAAu8; 512];
    let untouched = block.clone();

    for longs in 0..MIN_SUMMED_LONGS {
        assert_eq!(
            seal_checksum(&mut block, longs),
            Err(SealError::SummedLongsTooShort {
                summed_longs: longs
            })
        );
    }
    for longs in [129u32, 1024, u32::MAX] {
        assert_eq!(
            seal_checksum(&mut block, longs),
            Err(SealError::SummedLongsTooLong {
                summed_longs: longs,
                capacity: 128,
            })
        );
    }
    assert_eq!(block, untouched);

    // A block too short to hold the header is the same refusal, not a panic,
    // the property that matters is that no length panics.
    let mut tiny = [0u8; 8];
    assert_eq!(
        seal_checksum(&mut tiny, MIN_SUMMED_LONGS),
        Err(SealError::SummedLongsTooLong {
            summed_longs: MIN_SUMMED_LONGS,
            capacity: 2,
        })
    );
}

/// A `SummedLongs` below [`MIN_SUMMED_LONGS`] is unsatisfiable, not merely
/// refused by convention: even a hand-built block gets no value at `ChkSum`
/// that makes such a sum come out zero, which is why sealing declines to try.
#[test]
fn short_summed_longs_can_never_check_out() {
    for longs in 1u32..MIN_SUMMED_LONGS {
        let mut block = [0u8; 512];
        put_be32(&mut block, 4, longs);
        for chk in [0u32, 1, 0xFFFF_FFFF, 0x8000_0000] {
            put_be32(&mut block, 8, chk);
            // The first `longs` longwords are ID and SummedLongs, both non-
            // zero here, so the sum cannot be zero however ChkSum is set.
            put_be32(&mut block, 0, id::RDSK);
            assert!(!checksum_ok(&block));
        }
    }

    // And the arithmetic loophole: with `SummedLongs` below the floor the sum
    // does not cover `ChkSum`, so a block whose *other* longwords happen to
    // add to zero would pass a naive check while carrying any `ChkSum` at all.
    for (longs, first) in [(1u32, 0u32), (2, 0xFFFF_FFFEu32)] {
        let mut block = [0u8; 512];
        put_be32(&mut block, 0, first);
        put_be32(&mut block, 4, longs);
        put_be32(&mut block, 8, 0xDEAD_BEEF);
        let sum: u32 =
            (0..longs).fold(0u32, |a, i| a.wrapping_add(be32(&block, i as usize * 4)));
        assert_eq!(sum, 0, "the fixture must be the loophole case");
        assert!(!checksum_ok(&block));
    }
}

/// [`checksum_ok`] takes whatever slice a caller has, so a slice too short to
/// hold the header longwords it reads must be `false` rather than an index
/// panic, the same no-panic-on-data rule the parse side follows.
#[test]
fn checksum_of_a_fragment_is_false_not_a_panic() {
    let full = {
        let mut b = vec![0u8; 512];
        put_be32(&mut b, 0, id::RDSK);
        seal_checksum(&mut b, 64).unwrap();
        b
    };
    assert!(checksum_ok(&full));
    for len in 0..16usize {
        assert!(!checksum_ok(&full[..len]), "a {len}-byte slice checked out");
    }
}

/// The write seam, end to end through the crate's own reader: seal a block,
/// hand it to a [`BlockSink`], and parse the result back.
#[test]
fn block_sink_writes_blocks_a_parse_reads_back() {
    fn stamp<D: BlockSource + BlockSink>(disk: &mut D, src: &[u8], block: usize)
    where
        <D as BlockSink>::Error: core::fmt::Debug,
    {
        let bs = BlockSink::block_size(disk);
        disk.write_block(block as u64, &src[block * bs..(block + 1) * bs])
            .unwrap();
    }

    // A blank disk, filled a block at a time from a known-good image through
    // the sink rather than by slicing the buffer.
    let image = one_partition_image(2);
    let mut disk = MemDisk::new(vec![0u8; image.len()]);
    for block in 0..image.len() / 512 {
        stamp(&mut disk, &image, block);
    }
    assert_eq!(disk.data, image);

    let rdb = Rdb::parse(&mut disk).unwrap();
    assert_eq!(rdb.rdsk_block, 2);
    assert_eq!(rdb.partitions[0].name, "DH0");
}

/// A sink refuses a block past its end, so a layout that does not fit fails at
/// the write rather than growing the disk under it.
#[test]
fn block_sink_refuses_a_write_past_the_end() {
    let mut disk = MemDisk::new(vec![0u8; 4 * 512]);
    assert_eq!(disk.write_block(3, &[0u8; 512]), Ok(()));
    assert_eq!(disk.write_block(4, &[0u8; 512]), Err(()));
    assert_eq!(BlockSink::block_count(&disk), Some(4));
}

/// `SeekBlockSource` gains [`BlockSink`] from a `Write` inner type and keeps
/// its block size across both directions.
#[test]
fn seek_block_source_writes_when_the_inner_type_can() {
    let mut disk = SeekBlockSource::new(Cursor::new(vec![0u8; 8 * 512])).unwrap();
    let mut block = vec![0u8; 512];
    put_be32(&mut block, 0, id::RDSK);
    seal_checksum(&mut block, 64).unwrap();
    disk.write_block(5, &block).unwrap();

    let mut back = vec![0u8; 512];
    disk.read_block(5, &mut back).unwrap();
    assert_eq!(back, block);
    assert!(checksum_ok(&back));
    assert_eq!(BlockSink::block_size(&disk), 512);
    assert_eq!(BlockSink::block_count(&disk), Some(8));
}

#[test]
fn put_be32_is_be32s_inverse() {
    let mut block = [0u8; 512];
    for (i, v) in [0u32, 1, 0x4441_5441, u32::MAX, 0x8000_0000]
        .into_iter()
        .enumerate()
    {
        put_be32(&mut block, i * 4, v);
        assert_eq!(be32(&block, i * 4), v);
    }
    // And the byte order really is the format's, not the host's.
    put_be32(&mut block, 0, 0x5244_534B);
    assert_eq!(&block[..4], b"RDSK");
}

const RDBTOOL_0_8_1: &[(u64, usize, u32, u32, u32)] = &[
    // (requested bytes, block size, cylinders, heads, sectors)  The Amiga-ish
    // candidate wins almost everywhere: its cylinder is 16 KiB, so it wastes
    // less than the 63-sector one can.
    (512 * 1024, 512, 32, 1, 32),
    (1024 * 1024, 512, 64, 1, 32),
    (10 * 1024 * 1024, 512, 640, 1, 32),
    (100 * 1024 * 1024, 512, 6400, 1, 32),
    (512 * 1024 * 1024, 512, 32768, 1, 32),
    (700 * 1024 * 1024, 512, 44800, 1, 32),
    // Past 65535 cylinders the halving starts, so the head count doubles with
    // every doubling of the disk and the cylinder count sticks at 32768.
    (1024 * 1024 * 1024, 512, 32768, 2, 32),
    (2 * 1024 * 1024 * 1024, 512, 32768, 4, 32),
    (4 * 1024 * 1024 * 1024, 512, 32768, 8, 32),
    (8 * 1024 * 1024 * 1024, 512, 32768, 16, 32),
    (16 * 1024 * 1024 * 1024, 512, 32768, 32, 32),
    (64 * 1024 * 1024 * 1024, 512, 32768, 128, 32),
    // Either side of the ceiling: 65535 cylinders is allowed, 65536 is not,
    // and 65537 loses a cylinder to the halving.
    (1_073_725_440, 512, 65535, 1, 32),
    (1_073_741_824, 512, 32768, 2, 32),
    (1_073_758_208, 512, 32768, 2, 32),
    (2_147_467_264, 512, 65535, 2, 32),
    // Sizes that are an exact multiple of the PC-ish cylinder: both candidates
    // waste nothing and the tie goes to 63 sectors.
    (516_096, 512, 1, 16, 63),
    (1_032_192, 512, 2, 16, 63),
    (51_609_600, 512, 100, 16, 63),
    (527_966_208, 512, 1023, 16, 63),
    (528_482_304, 512, 1024, 16, 63), // exactly 504 MiB: still 16 heads
    (528_482_305, 512, 1024, 16, 63), // one byte over: still 16 heads
    (1_056_964_608, 512, 1024, 32, 63),
    (2_113_929_216, 512, 1024, 64, 63),
    (4_227_858_432, 512, 1024, 128, 63),
    (8_455_716_864, 512, 1024, 256, 63),
    // Sizes that divide evenly into no cylinder at all: the count rounds down
    // and the tail is unaddressable.
    (123_456_789, 512, 7535, 1, 32),
    (33_333_333, 512, 2034, 1, 32),
    // 4 KB blocks: heads and sectors are unchanged, only the cylinder count
    // scales, and with it where the ceiling bites.
    (10 * 1024 * 1024, 4096, 80, 1, 32),
    (100 * 1024 * 1024, 4096, 800, 1, 32),
    (1024 * 1024 * 1024, 4096, 8192, 1, 32),
    (8 * 1024 * 1024 * 1024, 4096, 32768, 2, 32),
    (123_456_789, 4096, 941, 1, 32),
    // The smallest disk that has a geometry at all: one 32-block cylinder.
    (16384, 512, 1, 1, 32),
];

#[test]
fn geometry_matches_rdbtool_0_8_1() {
    for &(bytes, bs, cylinders, heads, sectors) in RDBTOOL_0_8_1 {
        let g = synthesize_geometry(bytes, bs)
            .unwrap_or_else(|e| panic!("{bytes} bytes at bs {bs}: {e:?}"));
        assert_eq!(
            (g.cylinders, g.heads, g.sectors),
            (cylinders, heads, sectors),
            "{bytes} bytes at bs {bs}"
        );
        assert_eq!(g.block_size, bs);
        assert_eq!(g.cylinder_blocks(), heads as u64 * sectors as u64);
    }
}

/// The rounding direction, asserted as a property over every pinned case rather
/// than only where the numbers happen to be untidy: a geometry describes at
/// most the disk asked for, and falls short by less than one cylinder.
#[test]
fn geometry_never_describes_more_than_the_disk() {
    for &(bytes, bs, ..) in RDBTOOL_0_8_1 {
        let g = synthesize_geometry(bytes, bs).unwrap();
        let cylinder_bytes = g.cylinder_blocks() * bs as u64;
        assert!(g.total_bytes() <= bytes, "{bytes} at bs {bs} overshot");
        assert!(
            bytes - g.total_bytes() < cylinder_bytes,
            "{bytes} at bs {bs} wasted a whole cylinder"
        );
    }
}

/// A disk short of one 32-block cylinder has no geometry, and says so rather
/// than returning a zero-cylinder one that would describe a disk of no size.
#[test]
fn geometry_refuses_a_disk_below_one_cylinder() {
    assert_eq!(
        synthesize_geometry(16383, 512),
        Err(GeometryError::TooSmall {
            total_bytes: 16383,
            block_size: 512,
            minimum_bytes: 16384,
        })
    );
    assert_eq!(
        synthesize_geometry(0, 512),
        Err(GeometryError::TooSmall {
            total_bytes: 0,
            block_size: 512,
            minimum_bytes: 16384,
        })
    );
    // The floor scales with the block size: 32 blocks, whatever they are
    // worth.
    assert!(synthesize_geometry(131_071, 4096).is_err());
    assert!(synthesize_geometry(131_072, 4096).is_ok());
}

/// A size no 32-bit geometry can describe is an error, not a wrap.
#[test]
fn geometry_refuses_a_disk_too_large_for_the_u32_fields() {
    assert_eq!(
        synthesize_geometry(u64::MAX, 512),
        Err(GeometryError::TooLarge {
            total_bytes: u64::MAX,
            block_size: 512,
        })
    );
    // An eighth of that in 32 KB blocks *is* describable, so the refusal above
    // is a real limit and not a blanket cap on large inputs.
    let g = synthesize_geometry(u64::MAX / 8, 32768).unwrap();
    assert_eq!((g.cylinders, g.heads, g.sectors), (65535, 1 << 25, 32));
    assert!(g.cylinder_blocks() <= u32::MAX as u64);
}

#[test]
fn geometry_refuses_an_unsupported_block_size() {
    for bad in [0usize, 256, 768, 65536] {
        assert_eq!(
            synthesize_geometry(1024 * 1024 * 1024, bad),
            Err(GeometryError::UnsupportedBlockSize { block_size: bad })
        );
    }
}

#[test]
fn geometry_error_displays_a_line() {
    assert_eq!(
        GeometryError::TooSmall {
                total_bytes: 16383,
                block_size: 512,
                minimum_bytes: 16384
            }
            .message(),
        "16383 bytes is too small for a geometry in 512-byte blocks: \
         at least 16384 bytes are needed for one cylinder"
    );
    assert_eq!(
        GeometryError::TooLarge {
                total_bytes: 1,
                block_size: 512
            }
            .message(),
        "1 bytes in 512-byte blocks exceeds what the RDB's 32-bit geometry \
         fields can describe"
    );
}

#[test]
fn seal_error_displays_a_line() {
    assert_eq!(
        SealError::SummedLongsTooShort { summed_longs: 1 }.message(),
        "SummedLongs 1 is below the 3 needed to cover ChkSum itself"
    );
    assert_eq!(
        SealError::SummedLongsTooLong {
                summed_longs: 200,
                capacity: 128
            }
            .message(),
        "SummedLongs 200 exceeds the 128 longwords the block holds"
    );
}

/// A zeroed target, the state every refusal test asserts the sink is still in
/// afterwards.
fn blank_disk(blocks: usize, bs: usize) -> MemDisk {
    MemDisk {
        data: vec![0u8; blocks * bs],
        block_size: bs,
    }
}

/// Ten mebibytes at 512-byte blocks: 640 cylinders of 32 blocks, so one
/// cylinder is 16 KiB and the arithmetic in the assertions below stays
/// checkable by eye.
const TEN_MIB: u64 = 10 * 1024 * 1024;
const TEN_MIB_BLOCKS: usize = (TEN_MIB / 512) as usize;

/// Build into a blank disk and hand back both.
fn build_on(builder: RdbBuilder, blocks: usize, bs: usize) -> (MemDisk, RdbLayout, Rdb) {
    let mut disk = blank_disk(blocks, bs);
    let layout = builder.build(&mut disk).expect("build");
    let rdb = Rdb::parse(&mut disk).expect("parse back");
    assert_eq!(rdb.validate(), Vec::new(), "builder produced a bad layout");
    (disk, layout, rdb)
}

/// A build that must be refused, and must have written nothing.
fn assert_refused(builder: RdbBuilder, blocks: usize, bs: usize, expected: BuildError<()>) {
    let mut disk = blank_disk(blocks, bs);
    assert_eq!(builder.build(&mut disk), Err(expected));
    assert!(
        disk.data.iter().all(|&b| b == 0),
        "a refused build wrote to the sink"
    );
}

/// The whole round trip: two partitions in, an image out, and every field read
/// back off the disk, geometry, extents, names, flags, dostypes and the envec
/// defaults.
#[test]
fn builder_round_trips_through_parse() {
    let (_disk, layout, rdb) = build_on(
        RdbBuilder::for_size(TEN_MIB, 512)
            .unwrap()
            .partition(
                PartitionSpec::by_size(4 * 1024 * 1024)
                    .bootable(5)
                    .dos_type(0x444F_5307),
            )
            .partition(
                PartitionSpec::by_size(2 * 1024 * 1024)
                    .named("WORK")
                    .size_block_longs(256),
            ),
        TEN_MIB_BLOCKS,
        512,
    );

    // The RDSK, as the geometry and the reserved-area policy decided.
    assert_eq!(rdb.rdsk_block, 0);
    assert_eq!(rdb.block_bytes, 512);
    assert_eq!((rdb.cylinders, rdb.heads, rdb.sectors), (640, 1, 32));
    assert_eq!(rdb.cyl_blocks, 32);
    assert_eq!((rdb.rdb_blocks_lo, rdb.rdb_blocks_hi), (0, 31));
    assert_eq!((rdb.lo_cylinder, rdb.hi_cylinder), (1, 639));
    assert_eq!(rdb.high_rdsk_block, 2);
    assert_eq!(rdb.flags, 0x7);
    assert_eq!(rdb.host_id, 7);
    assert_eq!(rdb.drive_init, CHAIN_END);
    assert_eq!(rdb.filesys_header_list, CHAIN_END);
    assert_eq!(rdb.bad_block_list, CHAIN_END);
    assert!(rdb.filesystems.is_empty() && rdb.bad_blocks.is_empty());

    // 4 MiB over a 16 KiB cylinder is 256 cylinders exactly, from cylinder 1;
    // 2 MiB is 128, packed straight after it.
    let a = &rdb.partitions[0];
    assert_eq!(a.part_block, 1);
    assert_eq!(a.name, "DH0");
    assert_eq!((a.low_cyl, a.high_cyl), (1, 256));
    assert_eq!((a.start_lba, a.block_len), (32, 256 * 32));
    assert_eq!(a.cylinder_blocks, 32);
    assert!(a.bootable && !a.no_automount);
    assert_eq!(a.boot_pri, 5);
    assert_eq!(a.dos_type, 0x444F_5307);

    let b = &rdb.partitions[1];
    assert_eq!(b.part_block, 2);
    assert_eq!(b.name, "WORK");
    assert_eq!((b.low_cyl, b.high_cyl), (257, 384));
    assert_eq!((b.start_lba, b.block_len), (257 * 32, 128 * 32));
    assert!(!b.bootable);
    assert_eq!(b.dos_type, envec_defaults::DOS_TYPE);
    assert_eq!(b.size_block_longs, 256);

    // The envec defaults, in the units the format stores them in.
    for p in &rdb.partitions {
        assert_eq!(p.num_buffers, 30);
        assert_eq!(p.buf_mem_type, 0);
        assert_eq!(p.max_transfer, 0x00FF_FFFF);
        assert_eq!(p.mask, 0x7FFF_FFFE);
        assert_eq!((p.baud, p.control, p.boot_blocks), (None, None, None));
        assert_eq!(p.envec_raw.len(), 17);
        assert_eq!(p.envec_raw[de::TABLE_SIZE], 16);
        assert_eq!(p.envec_raw[de::SEC_ORG], 0);
        assert_eq!(p.envec_raw[de::SECTORS_PER_BLOCK], 1);
        assert_eq!(p.envec_raw[de::SURFACES], 1);
        assert_eq!(p.envec_raw[de::BLOCKS_PER_TRACK], 32);
        assert_eq!(p.envec_raw[de::RESERVED], 2);
        assert_eq!(p.envec_raw[de::PRE_ALLOC], 0);
        assert_eq!(p.envec_raw[de::INTERLEAVE], 0);
    }
    assert_eq!(rdb.partitions[0].size_block_longs, 128);

    // And the layout says the same as the disk, since a caller may act on it
    // without re-parsing.
    assert_eq!(layout.rdsk_block, rdb.rdsk_block);
    assert_eq!(layout.rdb_blocks_hi, rdb.rdb_blocks_hi);
    assert_eq!(layout.high_rdsk_block, rdb.high_rdsk_block);
    assert_eq!(layout.lo_cylinder, rdb.lo_cylinder);
    for (placed, parsed) in layout.partitions.iter().zip(&rdb.partitions) {
        assert_eq!(placed.part_block, parsed.part_block);
        assert_eq!(placed.name, parsed.name);
        assert_eq!(
            (placed.low_cyl, placed.high_cyl),
            (parsed.low_cyl, parsed.high_cyl)
        );
        assert_eq!(
            (placed.start_lba, placed.block_len),
            (parsed.start_lba, parsed.block_len)
        );
    }
}

/// Assigned names step around the explicit ones wherever they appear, including
/// an explicit name the assignment would otherwise have reached later.
#[test]
fn builder_assigns_names_around_explicit_ones() {
    let (_disk, _layout, rdb) = build_on(
        RdbBuilder::for_size(TEN_MIB, 512)
            .unwrap()
            .partition(PartitionSpec::by_size(1024 * 1024))
            .partition(PartitionSpec::by_size(1024 * 1024).named("DH0"))
            .partition(PartitionSpec::by_size(1024 * 1024))
            .partition(PartitionSpec::by_size(1024 * 1024).named("SCRATCH")),
        TEN_MIB_BLOCKS,
        512,
    );
    let names: Vec<&str> = rdb.partitions.iter().map(|p| p.name.as_str()).collect();
    assert_eq!(names, ["DH1", "DH0", "DH2", "SCRATCH"]);
}

#[test]
fn builder_size_rounds_down_like_rdbtool() {
    let geometry = Geometry {
        cylinders: 1000,
        heads: 4,
        sectors: 63,
        block_size: 512,
    };
    let (_disk, _layout, rdb) = build_on(
        RdbBuilder::new(geometry)
            .partition(PartitionSpec::by_size(10 * 1024 * 1024))
            .partition(PartitionSpec::by_size(3_000_000))
            // Either side of a cylinder boundary: one byte short of two
            // cylinders is one cylinder, exactly two is two.
            .partition(PartitionSpec::by_size(258_047))
            .partition(PartitionSpec::by_size(258_048)),
        30_000,
        512,
    );
    let extents: Vec<(u32, u32)> = rdb
        .partitions
        .iter()
        .map(|p| (p.low_cyl, p.high_cyl))
        .collect();
    assert_eq!(extents, [(1, 81), (82, 104), (105, 105), (106, 107)]);
}

/// Explicit cylinder ranges go exactly where they say, and a sized partition
/// after one packs from the cylinder it left free.
#[test]
fn builder_places_explicit_cylinder_ranges() {
    let (_disk, _layout, rdb) = build_on(
        RdbBuilder::for_size(TEN_MIB, 512)
            .unwrap()
            .partition(PartitionSpec::by_cylinders(100, 199))
            .partition(PartitionSpec::by_size(1024 * 1024))
            // One cylinder is legal: de_HighCyl is inclusive.
            .partition(PartitionSpec::by_cylinders(500, 500)),
        TEN_MIB_BLOCKS,
        512,
    );
    let extents: Vec<(u32, u32)> = rdb
        .partitions
        .iter()
        .map(|p| (p.low_cyl, p.high_cyl))
        .collect();
    assert_eq!(extents, [(100, 199), (200, 263), (500, 500)]);
}

#[test]
fn builder_writes_an_rdb_with_no_partitions() {
    let (disk, layout, rdb) = build_on(
        RdbBuilder::for_size(TEN_MIB, 512).unwrap(),
        TEN_MIB_BLOCKS,
        512,
    );
    assert!(rdb.partitions.is_empty());
    assert!(layout.partitions.is_empty());
    // The chain head is CHAIN_END, not 0: block 0 is a real address.
    assert_eq!(be32(&disk.data, rdsk::PARTITION_LIST), CHAIN_END);
    // Nothing but the RDSK is in use, but the area is still reserved.
    assert_eq!(rdb.high_rdsk_block, 0);
    assert_eq!(rdb.rdb_blocks_hi, 31);
    assert_eq!(rdb.lo_cylinder, 1);
}

#[test]
fn builder_round_trips_at_4k_blocks() {
    let (_disk, _layout, rdb) = build_on(
        RdbBuilder::for_size(TEN_MIB, 4096)
            .unwrap()
            .partition(PartitionSpec::by_size(4 * 1024 * 1024).bootable(0)),
        (TEN_MIB / 4096) as usize,
        4096,
    );
    assert_eq!(rdb.block_bytes, 4096);
    assert_eq!((rdb.cylinders, rdb.heads, rdb.sectors), (80, 1, 32));
    assert_eq!(rdb.cyl_blocks, 32);
    assert_eq!((rdb.rdb_blocks_lo, rdb.rdb_blocks_hi), (0, 31));
    assert_eq!(rdb.lo_cylinder, 1);

    let p = &rdb.partitions[0];
    // A cylinder is 32 * 4096 = 128 KiB, so 4 MiB is 32 of them.
    assert_eq!((p.low_cyl, p.high_cyl), (1, 32));
    assert_eq!((p.start_lba, p.block_len), (32, 32 * 32));
    assert_eq!(p.size_block_longs, 1024);
    assert_eq!(p.max_transfer, 0x00FF_FFFF);
    assert_eq!(p.mask, 0x7FFF_FFFE);
}

#[test]
fn reserved_area_grows_past_the_first_cylinder_when_needed() {
    let mut builder = RdbBuilder::for_size(TEN_MIB, 512).unwrap();
    for _ in 0..40 {
        builder = builder.partition(PartitionSpec::by_size(16 * 1024));
    }
    let (_disk, layout, rdb) = build_on(builder, TEN_MIB_BLOCKS, 512);

    // 40 PART blocks + the RDSK is 41, past the 32-block cylinder, so the area
    // is 41 + RDB_HEADROOM_BLOCKS and the first partition starts on cylinder 2
    // rather than 1.
    assert_eq!(rdb.rdb_blocks_hi, 41 + RDB_HEADROOM_BLOCKS as u32 - 1);
    assert_eq!(rdb.high_rdsk_block, 40);
    assert_eq!(rdb.lo_cylinder, 2);
    assert_eq!(layout.partitions[0].low_cyl, 2);
    assert_eq!(rdb.partitions.len(), 40);
    assert_eq!(rdb.partitions[39].part_block, 40);
}

/// An explicit reserved area is honoured as given, the override a caller
/// reproducing an existing image needs.
#[test]
fn explicit_reserved_blocks_are_honoured() {
    let (_disk, _layout, rdb) = build_on(
        RdbBuilder::for_size(TEN_MIB, 512)
            .unwrap()
            .reserved_blocks(64)
            .partition(PartitionSpec::by_size(1024 * 1024)),
        TEN_MIB_BLOCKS,
        512,
    );
    assert_eq!(rdb.rdb_blocks_hi, 63);
    assert_eq!(rdb.lo_cylinder, 2);
    assert_eq!(rdb.partitions[0].low_cyl, 2);
}

/// Every way a layout can fail to fit, each refused **before a byte is
/// written**, the property the whole build path is shaped around, asserted by
/// handing each case a disk of zeros and checking it is still zeros afterwards.
#[test]
fn build_refuses_a_layout_that_does_not_fit() {
    let ten_mib = || RdbBuilder::for_size(TEN_MIB, 512).unwrap();

    // A cylinder range past the geometry's last cylinder.
    assert_refused(
        ten_mib().partition(PartitionSpec::by_cylinders(600, 700)),
        TEN_MIB_BLOCKS,
        512,
        BuildError::PartitionPastEndOfDisk {
            name: String::from("DH0"),
            high_cyl: 700,
            last_cylinder: 639,
        },
    );

    // A size larger than the space left after the RDB area.
    assert_refused(
        ten_mib().partition(PartitionSpec::by_size(TEN_MIB)),
        TEN_MIB_BLOCKS,
        512,
        BuildError::PartitionPastEndOfDisk {
            name: String::from("DH0"),
            high_cyl: 640,
            last_cylinder: 639,
        },
    );

    // A partition reaching into the reserved RDB area.
    assert_refused(
        ten_mib().partition(PartitionSpec::by_cylinders(0, 10)),
        TEN_MIB_BLOCKS,
        512,
        BuildError::PartitionOverlapsRdbArea {
            name: String::from("DH0"),
            low_cyl: 0,
            lo_cylinder: 1,
        },
    );

    // Two partitions claiming the same cylinders.
    assert_refused(
        ten_mib()
            .partition(PartitionSpec::by_cylinders(10, 20))
            .partition(PartitionSpec::by_cylinders(15, 25)),
        TEN_MIB_BLOCKS,
        512,
        BuildError::PartitionsOverlap {
            a_name: String::from("DH0"),
            b_name: String::from("DH1"),
            low_cyl: 15,
            high_cyl: 20,
        },
    );

    // More PART blocks than the caller's own reserved area holds.
    let mut cramped = ten_mib().reserved_blocks(4);
    for _ in 0..5 {
        cramped = cramped.partition(PartitionSpec::by_size(16 * 1024));
    }
    assert_refused(
        cramped,
        TEN_MIB_BLOCKS,
        512,
        BuildError::RdbAreaTooSmall {
            needed: 6,
            available: 4,
        },
    );

    // A target smaller than the layout: the geometry says 640 cylinders, the
    // sink has 100 blocks.
    assert_refused(
        ten_mib().partition(PartitionSpec::by_size(1024 * 1024)),
        100,
        512,
        BuildError::SinkTooSmall {
            needed: 65 * 32,
            available: 100,
        },
    );

    // A geometry with no blocks in it at all.
    let empty = Geometry {
        cylinders: 0,
        heads: 1,
        sectors: 32,
        block_size: 512,
    };
    assert_refused(
        RdbBuilder::new(empty),
        TEN_MIB_BLOCKS,
        512,
        BuildError::EmptyGeometry { geometry: empty },
    );

    // A sink whose blocks are not the geometry's.
    assert_refused(
        ten_mib().partition(PartitionSpec::by_size(1024 * 1024)),
        (TEN_MIB / 4096) as usize,
        4096,
        BuildError::BlockSizeMismatch {
            geometry: 512,
            sink: 4096,
        },
    );
}

/// The same discipline for specs that are wrong rather than too big: nothing
/// written, and an error naming the partition.
#[test]
fn build_refuses_a_malformed_spec() {
    let ten_mib = || RdbBuilder::for_size(TEN_MIB, 512).unwrap();

    assert_refused(
        ten_mib().partition(PartitionSpec::by_cylinders(200, 100)),
        TEN_MIB_BLOCKS,
        512,
        BuildError::CylindersInverted {
            name: String::from("DH0"),
            low_cyl: 200,
            high_cyl: 100,
        },
    );

    assert_refused(
        ten_mib()
            .partition(PartitionSpec::by_size(1024 * 1024).named("DH0"))
            .partition(PartitionSpec::by_size(1024 * 1024).named("DH0")),
        TEN_MIB_BLOCKS,
        512,
        BuildError::DuplicateName {
            name: String::from("DH0"),
        },
    );

    let long = "X".repeat(32);
    assert_refused(
        ten_mib().partition(PartitionSpec::by_size(1024 * 1024).named(&long)),
        TEN_MIB_BLOCKS,
        512,
        BuildError::InvalidName {
            name: long,
            max: 31,
        },
    );

    // Below one 16 KiB cylinder there is no partition to write, and rounding
    // up would hand out space the caller did not ask for.
    assert_refused(
        ten_mib().partition(PartitionSpec::by_size(16 * 1024 - 1)),
        TEN_MIB_BLOCKS,
        512,
        BuildError::PartitionTooSmall {
            name: String::from("DH0"),
            bytes: 16 * 1024 - 1,
            cylinder_bytes: 16 * 1024,
        },
    );
}

/// The write order: `PART` blocks first, `RDSK` last, so an interrupted build
/// leaves a disk with no partition table rather than one pointing at blocks
/// that were never written.
#[test]
fn build_writes_the_rdsk_last() {
    /// A sink that fails on the *n*th write, recording what it got.
    struct FlakySink {
        data: Vec<u8>,
        writes: usize,
        fail_after: usize,
    }
    impl BlockSink for FlakySink {
        type Error = ();
        fn block_size(&self) -> usize {
            512
        }
        fn write_block(&mut self, lba: u64, buf: &[u8]) -> Result<(), ()> {
            if self.writes == self.fail_after {
                return Err(());
            }
            self.writes += 1;
            let off = lba as usize * 512;
            self.data[off..off + 512].copy_from_slice(buf);
            Ok(())
        }
        fn block_count(&self) -> Option<u64> {
            Some(self.data.len() as u64 / 512)
        }
    }

    let mut sink = FlakySink {
        data: vec![0u8; TEN_MIB_BLOCKS * 512],
        writes: 0,
        fail_after: 2,
    };
    let err = RdbBuilder::for_size(TEN_MIB, 512)
        .unwrap()
        .partition(PartitionSpec::by_size(1024 * 1024))
        .partition(PartitionSpec::by_size(1024 * 1024))
        .partition(PartitionSpec::by_size(1024 * 1024))
        .build(&mut sink)
        .unwrap_err();
    assert_eq!(err, BuildError::Io(()));
    // Two PART blocks landed; block 0 is untouched, so the disk has no RDSK
    // and a parse says so rather than following a chain into blocks that do
    // not exist.
    assert_eq!(be32(&sink.data, 512), id::PART);
    assert!(sink.data[..512].iter().all(|&b| b == 0));
    let mut disk = MemDisk {
        data: sink.data,
        block_size: 512,
    };
    assert_eq!(Rdb::parse(&mut disk), Err(RdbError::NoRdsk));
}

#[test]
fn build_errors_display_as_one_useful_line() {
    let cases: [(BuildError<&str>, &str); 6] = [
        (
            BuildError::Io("device is read-only"),
            "writing a block failed: device is read-only",
        ),
        (
            BuildError::BlockSizeMismatch {
                geometry: 512,
                sink: 4096,
            },
            "the geometry is in 512-byte blocks but the sink writes 4096-byte blocks",
        ),
        (
            BuildError::DuplicateName {
                name: String::from("DH0"),
            },
            "two partitions are both named \"DH0\"",
        ),
        (
            BuildError::PartitionPastEndOfDisk {
                name: String::from("DH1"),
                high_cyl: 700,
                last_cylinder: 639,
            },
            "partition \"DH1\" ends on cylinder 700, past the disk's last cylinder 639",
        ),
        (
            BuildError::RdbAreaTooSmall {
                needed: 6,
                available: 4,
            },
            "the RDB area holds 4 blocks but the layout needs 6",
        ),
        (
            BuildError::PartitionTooSmall {
                name: String::from("DH0"),
                bytes: 100,
                cylinder_bytes: 16384,
            },
            "partition \"DH0\" asks for 100 bytes, less than the 16384-byte cylinder \
             that is the smallest partition",
        ),
    ];
    for (err, expected) in cases {
        let cause = match &err {
            BuildError::Io(cause) => cause,
            _ => "",
        };
        assert_eq!(err.message(cause), expected);
    }
}

fn fake_driver(len: usize) -> Vec<u8> {
    (0..len).map(|i| (i % 251) as u8).collect()
}

/// One filesystem in, an image out, and the driver read back off the disk, the
/// `DOS\x07` shipping path end to end.
#[test]
fn builder_round_trips_a_filesystem() {
    // 1000 bytes over a 492-byte payload is three blocks, the last of them
    // partial, the case the SummedLongs rule is about.
    let driver = fake_driver(1000);
    let (mut disk, layout, rdb) = build_on(
        RdbBuilder::for_size(TEN_MIB, 512)
            .unwrap()
            .partition(PartitionSpec::by_size(4 * 1024 * 1024).dos_type(0x444F_5307))
            .filesystem(
                FileSystemSpec::new(0x444F_5307, driver.clone())
                    .version(43, 4)
                    .stack_size(8192)
                    .priority(10),
            ),
        TEN_MIB_BLOCKS,
        512,
    );

    // The FSHD follows the single PART block, its LSEG chain follows it, and
    // the RDSK points at the head.
    assert_eq!(layout.filesystems.len(), 1);
    let placed = &layout.filesystems[0];
    assert_eq!(placed.fshd_block, 2);
    assert_eq!(placed.seg_list_blocks, 3);
    assert_eq!(placed.lseg_block_count, 3);
    assert_eq!(rdb.filesys_header_list, 2);
    assert_eq!(rdb.high_rdsk_block, 5);

    assert_eq!(rdb.filesystems.len(), 1);
    let f = &rdb.filesystems[0];
    assert_eq!(f.fshd_block, 2);
    assert_eq!(f.dos_type, 0x444F_5307);
    assert_eq!((f.version_major(), f.version_minor()), (43, 4));
    assert_eq!(f.host_id, fshd_defaults::HOST_ID);
    assert_eq!(f.flags, 0);
    assert_eq!(f.seg_list_blocks, 3);
    // Only the fields that were set are patched, and SegList, which has a
    // chain to point at.
    assert_eq!(
        f.patch_flags,
        fshd_patch::STACK_SIZE
            | fshd_patch::PRIORITY
            | fshd_patch::SEG_LIST
            | fshd_patch::GLOBAL_VEC
    );
    assert_eq!(f.stack_size, Some(8192));
    assert_eq!(f.priority, Some(10));
    assert_eq!(f.global_vec, Some(-1));
    assert_eq!(
        (f.node_type, f.task, f.lock, f.handler, f.startup),
        (None, None, None, None, None)
    );

    // The reassembled binary is the payload padded out to a whole block: LSEG
    // records no byte count, so the slack is unavoidable and documented rather
    // than trimmed by a guess.
    let loaded = rdb.load_filesystem(f, &mut disk).unwrap();
    assert_eq!(loaded.len(), 3 * LSEG_PAYLOAD);
    assert_eq!(&loaded[..driver.len()], &driver[..]);
    assert!(loaded[driver.len()..].iter().all(|&b| b == 0));

    assert_eq!(rdb.validate_seg_lists(&mut disk).unwrap(), Vec::new());
}

/// `SummedLongs` on the final, partial `LSEG` block is the number of longwords
/// **actually summed**, five header longwords plus the payload's whole
/// longwords, floored, not the whole block.
#[test]
fn lseg_summed_longs_match_rdbtool_0_8_1() {
    for (len, expected) in [
        (1usize, &[5u32][..]),
        (4, &[6][..]),
        (5, &[6][..]),
        (492, &[128][..]),
        (493, &[128, 5][..]),
        (495, &[128, 5][..]),
        (496, &[128, 6][..]),
        (984, &[128, 128][..]),
        (985, &[128, 128, 5][..]),
        (2560, &[128, 128, 128, 128, 128, 30][..]),
        (2563, &[128, 128, 128, 128, 128, 30][..]),
    ] {
        let (disk, layout, _rdb) = build_on(
            RdbBuilder::for_size(TEN_MIB, 512)
                .unwrap()
                .filesystem(FileSystemSpec::new(
                    envec_defaults::DOS_TYPE,
                    fake_driver(len),
                )),
            TEN_MIB_BLOCKS,
            512,
        );
        let placed = &layout.filesystems[0];
        assert_eq!(
            placed.lseg_block_count as usize,
            expected.len(),
            "len {len}"
        );
        let summed: Vec<u32> = (0..placed.lseg_block_count as usize)
            .map(|i| {
                let base = (placed.seg_list_blocks as usize + i) * 512;
                be32(&disk.data, base + hdr::SUMMED_LONGS)
            })
            .collect();
        assert_eq!(summed, expected, "len {len}");
    }
}

/// The AROS case in full: a `DOS\x07` partition and the `DOS\x07` handler that
/// lets a 3.1-era ROM mount it, beside the `DOS\x03` filesystem the other
/// partition wants.
#[test]
fn builder_writes_two_filesystems() {
    let dos3 = fake_driver(600);
    let dos7 = fake_driver(1500);
    let (mut disk, layout, rdb) = build_on(
        RdbBuilder::for_size(TEN_MIB, 512)
            .unwrap()
            .partition(PartitionSpec::by_size(1024 * 1024).dos_type(0x444F_5307))
            .partition(PartitionSpec::by_size(1024 * 1024))
            .filesystem(FileSystemSpec::new(0x444F_5307, dos7.clone()).version(45, 13))
            .filesystem(FileSystemSpec::new(0x444F_5303, dos3.clone())),
        TEN_MIB_BLOCKS,
        512,
    );

    // PARTs at 1..=2; then FSHD 3 with LSEG 4..=7, FSHD 8 with LSEG 9..=10.
    let places: Vec<(u64, u32, u32)> = layout
        .filesystems
        .iter()
        .map(|f| (f.fshd_block, f.seg_list_blocks, f.lseg_block_count))
        .collect();
    assert_eq!(places, [(3, 4, 4), (8, 9, 2)]);
    assert_eq!(rdb.high_rdsk_block, 10);

    let dos_types: Vec<u32> = rdb.filesystems.iter().map(|f| f.dos_type).collect();
    assert_eq!(dos_types, [0x444F_5307, 0x444F_5303]);
    assert_eq!(
        (
            rdb.filesystems[0].version_major(),
            rdb.filesystems[0].version_minor()
        ),
        (45, 13)
    );

    // Each partition's dostype has a handler in the image to match.
    for p in &rdb.partitions {
        assert!(rdb.filesystems.iter().any(|f| f.dos_type == p.dos_type));
    }
    for (f, want) in rdb.filesystems.iter().zip([&dos7, &dos3]) {
        let loaded = rdb.load_filesystem(f, &mut disk).unwrap();
        assert_eq!(&loaded[..want.len()], &want[..]);
    }
    assert_eq!(rdb.validate_seg_lists(&mut disk).unwrap(), Vec::new());
}

/// A filesystem with no binary at all: legal, and the header that only patches
/// device-node fields for a ROM filesystem.
#[test]
fn builder_writes_a_filesystem_with_no_seglist() {
    let (mut disk, layout, rdb) = build_on(
        RdbBuilder::for_size(TEN_MIB, 512)
            .unwrap()
            .filesystem(FileSystemSpec::new(0x444F_5307, Vec::new())),
        TEN_MIB_BLOCKS,
        512,
    );
    assert_eq!(layout.filesystems[0].lseg_block_count, 0);
    assert_eq!(layout.filesystems[0].seg_list_blocks, CHAIN_END);
    assert_eq!(rdb.high_rdsk_block, 1);
    let f = &rdb.filesystems[0];
    assert_eq!(f.seg_list_blocks, CHAIN_END);
    assert_eq!(f.patch_flags & fshd_patch::SEG_LIST, 0);
    assert!(rdb.load_filesystem(f, &mut disk).unwrap().is_empty());
}

/// 4 KB device blocks: the payload per `LSEG` block is `block_size - 20` there
/// too, so the same driver needs a tenth of the blocks and a full block sums
/// 1024 longwords.
#[test]
fn builder_round_trips_a_filesystem_at_4k_blocks() {
    let driver = fake_driver(9000);
    let (mut disk, layout, rdb) = build_on(
        RdbBuilder::for_size(TEN_MIB, 4096)
            .unwrap()
            .partition(PartitionSpec::by_size(4 * 1024 * 1024).dos_type(0x444F_5307))
            .filesystem(FileSystemSpec::new(0x444F_5307, driver.clone())),
        (TEN_MIB / 4096) as usize,
        4096,
    );

    // 4076 bytes a block: 9000 bytes is three of them.
    let placed = &layout.filesystems[0];
    assert_eq!(placed.lseg_block_count, 3);
    assert_eq!((placed.fshd_block, placed.seg_list_blocks), (2, 3));
    let summed: Vec<u32> = (0..3)
        .map(|i| be32(&disk.data, (3 + i) * 4096 + hdr::SUMMED_LONGS))
        .collect();
    // Two full blocks, then 9000 - 2 * 4076 = 848 payload bytes.
    assert_eq!(summed, [1024, 1024, 5 + 848 / 4]);

    let f = &rdb.filesystems[0];
    let loaded = rdb.load_filesystem(f, &mut disk).unwrap();
    assert_eq!(loaded.len(), 3 * lseg_payload_bytes(4096));
    assert_eq!(&loaded[..driver.len()], &driver[..]);
    assert_eq!(rdb.validate_seg_lists(&mut disk).unwrap(), Vec::new());
}

/// The RDB area grows to fit a driver rather than spilling into the first
/// partition, the growth path the FSHD payload is the first realistic reason to
/// take.
#[test]
fn reserved_area_grows_to_fit_a_filesystem() {
    let (_disk, layout, rdb) = build_on(
        RdbBuilder::for_size(TEN_MIB, 512)
            .unwrap()
            .partition(PartitionSpec::by_size(1024 * 1024))
            .filesystem(FileSystemSpec::new(0x444F_5307, fake_driver(50_000))),
        TEN_MIB_BLOCKS,
        512,
    );
    // 50 000 bytes over a 492-byte payload is 102 LSEG blocks, plus the FSHD,
    // the PART and the RDSK: 105 blocks, well past the 32-block first
    // cylinder.
    assert_eq!(layout.filesystems[0].lseg_block_count, 102);
    assert_eq!(rdb.high_rdsk_block, 104);
    assert_eq!(rdb.rdb_blocks_hi, 105 + RDB_HEADROOM_BLOCKS as u32 - 1);
    // The area now spans four 32-block cylinders, so partitions start on
    // cylinder 4 rather than 1.
    assert_eq!(rdb.lo_cylinder, 4);
    assert_eq!(rdb.partitions[0].low_cyl, 4);
}

/// A filesystem that does not fit is refused **before a byte is written**,
/// exactly as an over-large partition is, whether the ceiling is the caller's
/// own reserved area or the target's size.
#[test]
fn build_refuses_a_filesystem_that_does_not_fit() {
    // An explicit area with no room for the LSEG chain.
    assert_refused(
        RdbBuilder::for_size(TEN_MIB, 512)
            .unwrap()
            .reserved_blocks(32)
            .partition(PartitionSpec::by_size(1024 * 1024))
            .filesystem(FileSystemSpec::new(0x444F_5307, fake_driver(50_000))),
        TEN_MIB_BLOCKS,
        512,
        BuildError::RdbAreaTooSmall {
            needed: 105,
            available: 32,
        },
    );

    // A target smaller than the RDB area the driver forces.
    assert_refused(
        RdbBuilder::for_size(TEN_MIB, 512)
            .unwrap()
            .filesystem(FileSystemSpec::new(0x444F_5307, fake_driver(50_000))),
        64,
        512,
        BuildError::SinkTooSmall {
            // RDSK + FSHD + 102 LSEG blocks, plus the headroom the default
            // area adds; no partition reaches beyond it.
            needed: 104 + RDB_HEADROOM_BLOCKS,
            available: 64,
        },
    );
}

/// The round-trip property at its strongest: build an image, parse it, rebuild
/// from nothing but the parsed values, and get the same bytes back.
#[test]
fn rebuilding_from_the_parsed_values_reproduces_the_image() {
    let driver = fake_driver(2 * LSEG_PAYLOAD);
    let mut original = blank_disk(TEN_MIB_BLOCKS, 512);
    RdbBuilder::for_size(TEN_MIB, 512)
        .unwrap()
        .partition(
            PartitionSpec::by_size(4 * 1024 * 1024)
                .bootable(5)
                .dos_type(0x444F_5307),
        )
        .partition(
            PartitionSpec::by_size(2 * 1024 * 1024)
                .named("WORK")
                .size_block_longs(256),
        )
        .filesystem(
            FileSystemSpec::new(0x444F_5307, driver)
                .version(45, 13)
                .stack_size(8192)
                .priority(10),
        )
        .build(&mut original)
        .expect("build");

    let rdb = Rdb::parse(&mut original).expect("parse");

    // Rebuild using only what the parse handed back.
    let mut builder = RdbBuilder::new(Geometry {
        cylinders: rdb.cylinders,
        heads: rdb.heads,
        sectors: rdb.sectors,
        block_size: rdb.block_bytes as usize,
    })
    .rdsk_block(rdb.rdsk_block as u32)
    .reserved_blocks(rdb.rdb_blocks_hi + 1)
    .flags(rdb.flags)
    .host_id(rdb.host_id);

    for p in &rdb.partitions {
        let mut spec = PartitionSpec::by_cylinders(p.low_cyl, p.high_cyl).named(&p.name);
        spec.bootable = p.bootable;
        spec.no_automount = p.no_automount;
        spec.boot_pri = p.boot_pri;
        spec.dos_type = p.dos_type;
        spec.size_block_longs = Some(p.size_block_longs);
        spec.num_buffers = p.num_buffers;
        spec.buf_mem_type = p.buf_mem_type;
        spec.max_transfer = p.max_transfer;
        spec.mask = p.mask;
        // The envec fields with no named accessor come off the raw longwords,
        // which is what they are there for.
        spec.sec_org = p.envec_raw[de::SEC_ORG];
        spec.sectors_per_block = p.envec_raw[de::SECTORS_PER_BLOCK];
        spec.reserved = p.envec_raw[de::RESERVED];
        spec.pre_alloc = p.envec_raw[de::PRE_ALLOC];
        spec.interleave = p.envec_raw[de::INTERLEAVE];
        builder = builder.partition(spec);
    }

    for f in &rdb.filesystems {
        let binary = rdb.load_filesystem(f, &mut original).expect("load driver");
        let mut spec = FileSystemSpec::new(f.dos_type, binary)
            .version(f.version_major(), f.version_minor());
        spec.host_id = f.host_id;
        spec.flags = f.flags;
        // Verbatim rather than derived: a rebuild must reproduce bits this
        // crate does not model, not re-decide them.
        spec.patch_flags = Some(f.patch_flags);
        spec.node_type = f.node_type;
        spec.task = f.task;
        spec.lock = f.lock;
        spec.handler = f.handler;
        spec.stack_size = f.stack_size;
        spec.priority = f.priority;
        spec.startup = f.startup;
        spec.global_vec = f.global_vec;
        builder = builder.filesystem(spec);
    }

    let mut rebuilt = blank_disk(TEN_MIB_BLOCKS, 512);
    builder.build(&mut rebuilt).expect("rebuild");
    assert_eq!(
        rebuilt.data, original.data,
        "a rebuild from the parsed values is not the same image"
    );
    assert_eq!(Rdb::parse(&mut rebuilt).unwrap(), rdb);
}

/// Blocks the [`foreign_image`] fixture uses.
const F_RDSK: usize = 1;
const F_PART0: usize = 5;
const F_PART1: usize = 3;
const F_FSHD: usize = 7;
const F_LSEG: usize = 8; // and 9
const F_BADB: usize = 11; // and 12
const F_HIGH_RDSK: u32 = 12;
const F_BLOCKS_HI: u32 = 15;

/// An image bearing everything a field-by-field rewrite would drop.
fn foreign_image() -> Vec<u8> {
    let bs = 512;
    let mut d = vec![0u8; 320 * bs];

    put32(&mut d, bs, F_RDSK, hdr::ID, id::RDSK);
    put32(&mut d, bs, F_RDSK, rdsk::BLOCK_BYTES, bs as u32);
    put32(
        &mut d,
        bs,
        F_RDSK,
        rdsk::FLAGS,
        rdb_flags::LAST | rdb_flags::DISK_ID | rdb_flags::CTRLR_ID | (1 << 31),
    );
    put32(&mut d, bs, F_RDSK, rdsk::HOST_ID, 6);
    put32(&mut d, bs, F_RDSK, rdsk::DRIVE_INIT, 0x0000_1234);
    put32(&mut d, bs, F_RDSK, rdsk::BAD_BLOCK_LIST, F_BADB as u32);
    put32(&mut d, bs, F_RDSK, rdsk::PARTITION_LIST, F_PART0 as u32);
    put32(&mut d, bs, F_RDSK, rdsk::FILESYS_HEADER_LIST, F_FSHD as u32);
    // rdb_Reserved1[6], six longwords no field of this crate names.
    for i in 0..6 {
        put32(&mut d, bs, F_RDSK, 40 + i * 4, 0xFFFF_FFFF);
    }
    put32(&mut d, bs, F_RDSK, rdsk::CYLINDERS, 10);
    put32(&mut d, bs, F_RDSK, rdsk::SECTORS, 32);
    put32(&mut d, bs, F_RDSK, rdsk::HEADS, 1);
    put32(&mut d, bs, F_RDSK, rdsk::INTERLEAVE, 2);
    put32(&mut d, bs, F_RDSK, rdsk::PARK, 10);
    put32(&mut d, bs, F_RDSK, rdsk::WRITE_PRE_COMP, 4);
    put32(&mut d, bs, F_RDSK, rdsk::REDUCED_WRITE, 5);
    put32(&mut d, bs, F_RDSK, rdsk::STEP_RATE, 7);
    put32(&mut d, bs, F_RDSK, rdsk::RDB_BLOCKS_LO, 0);
    put32(&mut d, bs, F_RDSK, rdsk::RDB_BLOCKS_HI, F_BLOCKS_HI);
    put32(&mut d, bs, F_RDSK, rdsk::LO_CYLINDER, 2);
    put32(&mut d, bs, F_RDSK, rdsk::HI_CYLINDER, 9);
    put32(&mut d, bs, F_RDSK, rdsk::CYL_BLOCKS, 32);
    put32(&mut d, bs, F_RDSK, rdsk::AUTO_PARK_SECONDS, 30);
    put32(&mut d, bs, F_RDSK, rdsk::HIGH_RDSK_BLOCK, F_HIGH_RDSK);
    // rdb_Reserved4, and bytes past the identification strings that the
    // 64-longword checksum does not even cover.
    put32(&mut d, bs, F_RDSK, 156, 0xA5A5_A5A5);
    put32(&mut d, bs, F_RDSK, 300, 0x5A5A_5A5A);
    put_padded(&mut d, bs, F_RDSK, rdsk::DISK_VENDOR, "MAXTOR  ");
    put_padded(&mut d, bs, F_RDSK, rdsk::DISK_PRODUCT, "LXT213S");
    put_padded(&mut d, bs, F_RDSK, rdsk::DISK_REVISION, "4.10");
    put_padded(&mut d, bs, F_RDSK, rdsk::CONTROLLER_VENDOR, "GVP");
    put_padded(&mut d, bs, F_RDSK, rdsk::CONTROLLER_PRODUCT, "SERIES II");
    put_padded(&mut d, bs, F_RDSK, rdsk::CONTROLLER_REVISION, "4.15");
    seal(&mut d, bs, F_RDSK, 64);

    write_foreign_part(&mut d, F_PART0, F_PART1 as u32, "DH0", (2, 5), 0, 128);
    write_foreign_part(&mut d, F_PART1, CHAIN_END, "DH1", (6, 8), -3, 64);

    put32(&mut d, bs, F_FSHD, hdr::ID, id::FSHD);
    put32(&mut d, bs, F_FSHD, chain::NEXT, CHAIN_END);
    put32(&mut d, bs, F_FSHD, fshd::HOST_ID, 6);
    put32(&mut d, bs, F_FSHD, fshd::FLAGS, 0x0000_00FF);
    put32(&mut d, bs, F_FSHD, fshd::DOS_TYPE, 0x444F_5307);
    put32(&mut d, bs, F_FSHD, fshd::VERSION, (46 << 16) | 13);
    put32(
        &mut d,
        bs,
        F_FSHD,
        fshd::PATCH_FLAGS,
        fshd_patch::TASK
            | fshd_patch::LOCK
            | fshd_patch::STARTUP
            | fshd_patch::SEG_LIST
            | fshd_patch::GLOBAL_VEC
            | (1 << 20),
    );
    for (i, v) in [
        0xAAAA_0000u32,
        0x0000_1111,
        0x0000_2222,
        0xBBBB_0000,
        0xCCCC_0000,
        0xDDDD_0000,
        0x0000_3333,
        F_LSEG as u32,
        0xFFFF_FFFF,
    ]
    .into_iter()
    .enumerate()
    {
        put32(&mut d, bs, F_FSHD, fshd::PATCHED + i * 4, v);
    }
    seal(&mut d, bs, F_FSHD, 64);

    for (i, block) in [F_LSEG, F_LSEG + 1].into_iter().enumerate() {
        put32(&mut d, bs, block, hdr::ID, id::LSEG);
        put32(&mut d, bs, block, hdr::HOST_ID, 6);
        put32(
            &mut d,
            bs,
            block,
            chain::NEXT,
            if i == 0 {
                (F_LSEG + 1) as u32
            } else {
                CHAIN_END
            },
        );
        let base = block * bs + lseg::LOAD_DATA;
        for (j, b) in d[base..block * bs + bs].iter_mut().enumerate() {
            *b = ((i * 97 + j) % 251) as u8;
        }
        // The second block's count stops well short of its payload, as a
        // driver whose last block is mostly slack would, so the bytes past it
        // are outside the checksum entirely and only survive because the
        // editor never rebuilds the block.
        seal(&mut d, bs, block, if i == 0 { 128 } else { 45 });
    }

    for (block, next, entries) in [
        (
            F_BADB,
            (F_BADB + 1) as u32,
            &[(700u32, 800u32), (701, 801)][..],
        ),
        (F_BADB + 1, CHAIN_END, &[(702, 802)][..]),
    ] {
        put32(&mut d, bs, block, hdr::ID, id::BADB);
        put32(&mut d, bs, block, hdr::HOST_ID, 6);
        put32(&mut d, bs, block, chain::NEXT, next);
        for (i, (bad, good)) in entries.iter().enumerate() {
            put32(&mut d, bs, block, badb::ENTRIES + i * 8, *bad);
            put32(&mut d, bs, block, badb::ENTRIES + i * 8 + 4, *good);
        }
        seal(
            &mut d,
            bs,
            block,
            (badb::HEADER_LONGS + entries.len() * 2) as u32,
        );
    }

    // Partition contents, so "the extents were not touched" is a comparison
    // against something rather than against zeros.
    for (i, b) in d[64 * bs..].iter_mut().enumerate() {
        *b = (i % 253) as u8;
    }

    d
}

/// One `PART` block of [`foreign_image`], with every field a field-by-field
/// rewrite would lose.
fn write_foreign_part(
    d: &mut [u8],
    block: usize,
    next: u32,
    name: &str,
    (low_cyl, high_cyl): (u32, u32),
    boot_pri: i32,
    summed_longs: u32,
) {
    let bs = 512;
    put32(d, bs, block, hdr::ID, id::PART);
    put32(d, bs, block, hdr::HOST_ID, 6);
    put32(d, bs, block, chain::NEXT, next);
    put32(d, bs, block, part::FLAGS, 1 | (1 << 7) | (1 << 31));
    let name = name.as_bytes();
    d[block * bs + part::DRIVE_NAME] = name.len() as u8;
    d[block * bs + part::DRIVE_NAME + 1..block * bs + part::DRIVE_NAME + 1 + name.len()]
        .copy_from_slice(name);

    let e = part::ENVIRONMENT;
    let mut env = |i: usize, v: u32| put32(d, bs, block, e + i * 4, v);
    env(de::TABLE_SIZE, 21);
    env(de::SIZE_BLOCK, 128);
    env(de::SEC_ORG, 1);
    env(de::SURFACES, 1);
    env(de::SECTORS_PER_BLOCK, 1);
    env(de::BLOCKS_PER_TRACK, 32);
    env(de::RESERVED, 3);
    env(de::PRE_ALLOC, 5);
    env(de::INTERLEAVE, 1);
    env(de::LOW_CYL, low_cyl);
    env(de::HIGH_CYL, high_cyl);
    env(de::NUM_BUFFERS, 50);
    env(de::BUF_MEM_TYPE, 1);
    env(de::MAX_TRANSFER, 0x0001_FE00);
    env(de::MASK, 0xFFFF_FFFE);
    env(de::BOOT_PRI, boot_pri as u32);
    env(de::DOS_TYPE, 0x444F_5307);
    env(de::BAUD, 19200);
    env(de::CONTROL, 0x0000_CAFE);
    env(de::BOOT_BLOCKS, 4);
    // Two longwords past de_BootBlocks: inside de_TableSize, past anything
    // this crate names, and reachable only through `envec_raw`.
    env(20, 0x1111_1111);
    env(21, 0x2222_2222);
    // Slack past the envec, which a foreign tool left behind.
    put32(d, bs, block, e + 22 * 4, 0xDEAD_BEEF);
    seal(d, bs, block, summed_longs);
}

fn foreign_disk() -> MemDisk {
    MemDisk::new(foreign_image())
}

/// Every byte offset at which two images differ.
fn differing_offsets(a: &[u8], b: &[u8]) -> Vec<usize> {
    assert_eq!(a.len(), b.len());
    (0..a.len()).filter(|&i| a[i] != b[i]).collect()
}

/// The fixture is what it claims to be: everything a rewrite could drop is
/// *there* before any test asserts it survived.
#[test]
fn the_foreign_fixture_carries_what_a_rewrite_would_drop() {
    let mut disk = foreign_disk();
    let editor = RdbEditor::open(&mut disk).unwrap();
    let rdb = editor.rdb();

    assert_eq!(rdb.rdsk_block, F_RDSK as u64);
    assert_eq!(rdb.drive_init, 0x0000_1234);
    assert_eq!(rdb.flags & (1 << 31), 1 << 31);
    assert_eq!(rdb.controller_product, "SERIES II");
    assert_eq!(rdb.bad_blocks.len(), 3);
    assert_eq!(rdb.badb_blocks, vec![F_BADB as u64, F_BADB as u64 + 1]);
    assert_eq!(rdb.filesystems.len(), 1);
    assert_eq!(rdb.filesystems[0].patch_flags & (1 << 20), 1 << 20);
    assert_eq!(rdb.filesystems[0].task, Some(0x0000_1111));

    let p = &rdb.partitions[0];
    assert_eq!(p.name, "DH0");
    assert_eq!(p.envec_raw.len(), 22);
    assert_eq!(p.envec_raw[20], 0x1111_1111);
    assert_eq!(p.baud, Some(19200));
    assert_eq!(p.boot_blocks, Some(4));
    assert!(rdb.validate().is_empty());
}

/// A commit with no edits writes the area back byte for byte.
#[test]
fn no_op_commit_is_byte_identical() {
    let before = foreign_image();
    let mut disk = MemDisk::new(before.clone());
    let editor = RdbEditor::open(&mut disk).unwrap();
    let report = editor.commit(&mut disk).unwrap();

    assert_eq!(differing_offsets(&before, &disk.data), Vec::<usize>::new());
    assert_eq!(report.rdsk_block, F_RDSK as u64);
    assert_eq!(report.high_rdsk_block, F_HIGH_RDSK);
    assert_eq!(report.rdb_blocks_hi, F_BLOCKS_HI);
    assert_eq!(report.part_blocks, vec![F_PART0 as u64, F_PART1 as u64]);
    assert!(report.blocks_zeroed.is_empty());
    // The RDSK is the last block written, always.
    assert_eq!(report.blocks_written.last(), Some(&(F_RDSK as u64)));
    // A non-standard `SummedLongs` is preserved, not normalised to the 64 this
    // crate writes on create.
    assert_eq!(be32(&disk.data[F_PART0 * 512..], hdr::SUMMED_LONGS), 128);
}

/// One field changes; every other byte on the disk,
/// modelled, unmodelled, and outside the checksum, is exactly where it was.
#[test]
fn editing_one_field_changes_only_that_field() {
    let before = foreign_image();
    let mut disk = MemDisk::new(before.clone());
    let mut editor = RdbEditor::open(&mut disk).unwrap();
    editor.set_boot_priority(0, 7).unwrap();
    editor.commit(&mut disk).unwrap();

    // Only two longwords of one block may move: de_BootPri, and the ChkSum
    // that covers it.
    let boot_pri = F_PART0 * 512 + part::ENVIRONMENT + de::BOOT_PRI * 4;
    let chk_sum = F_PART0 * 512 + hdr::CHK_SUM;
    for off in differing_offsets(&before, &disk.data) {
        assert!(
            (boot_pri..boot_pri + 4).contains(&off) || (chk_sum..chk_sum + 4).contains(&off),
            "byte {off} changed, which no edit asked for"
        );
    }

    // And the model that comes back is the model that went in, save for the
    // one field.
    let mut fresh = MemDisk::new(before);
    let old = Rdb::parse(&mut fresh).unwrap();
    let new = Rdb::parse(&mut disk).unwrap();
    assert_eq!(new.partitions[0].boot_pri, 7);
    assert_eq!(old.partitions[0].envec_raw.len(), 22);
    let mut expected = old.clone();
    expected.partitions[0].boot_pri = 7;
    expected.partitions[0].envec_raw[de::BOOT_PRI] = 7;
    assert_eq!(new, expected);
}

/// Every metadata setter, applied at once and read back off the disk, including
/// the three tail fields, which have to extend `de_TableSize` on a partition
/// that stops at 16.
#[test]
fn metadata_edits_round_trip_through_the_disk() {
    let mut disk = MemDisk::new(one_partition_image(2));
    let mut editor = RdbEditor::open(&mut disk).unwrap();

    editor.set_name(0, "WORK").unwrap();
    editor.set_dos_type(0, 0x444F_5307).unwrap();
    editor.set_boot_priority(0, -5).unwrap();
    editor.set_bootable(0, false).unwrap();
    editor.set_automount(0, false).unwrap();
    editor.set_reserved(0, 4).unwrap();
    editor.set_pre_alloc(0, 6).unwrap();
    editor.set_interleave(0, 3).unwrap();
    editor.set_num_buffers(0, 300).unwrap();
    editor.set_buf_mem_type(0, 1).unwrap();
    editor.set_max_transfer(0, 0x0001_FE00).unwrap();
    editor.set_mask(0, 0x00FF_FFFE).unwrap();
    editor.set_baud(0, 9600).unwrap();
    editor.set_control(0, 0x0000_BEEF).unwrap();
    editor.set_boot_blocks(0, 2).unwrap();
    editor.commit(&mut disk).unwrap();

    let rdb = Rdb::parse(&mut disk).unwrap();
    let p = &rdb.partitions[0];
    assert_eq!(p.name, "WORK");
    assert_eq!(p.dos_type, 0x444F_5307);
    assert_eq!(p.boot_pri, -5);
    assert!(!p.bootable);
    assert!(p.no_automount);
    assert_eq!(p.num_buffers, 300);
    assert_eq!(p.buf_mem_type, 1);
    assert_eq!(p.max_transfer, 0x0001_FE00);
    assert_eq!(p.mask, 0x00FF_FFFE);
    assert_eq!(p.baud, Some(9600));
    assert_eq!(p.control, Some(0x0000_BEEF));
    assert_eq!(p.boot_blocks, Some(2));
    assert_eq!(p.envec_raw[de::RESERVED], 4);
    assert_eq!(p.envec_raw[de::PRE_ALLOC], 6);
    assert_eq!(p.envec_raw[de::INTERLEAVE], 3);
    assert_eq!(p.envec_raw.len(), 20); // de_TableSize 19 now
    assert!(rdb.validate().is_empty());
    // The editor's own model said all of this before the commit did.
    assert_eq!(rdb.partitions, editor.partitions());
}

/// Setting one tail field extends `de_TableSize` exactly as far as it must, and
/// the longwords that become readable on the way are zeroed rather than
/// exposing whatever the block was carrying.
#[test]
fn envec_tail_setters_extend_table_size() {
    // The fixture plants values in all three tail longwords whatever
    // de_TableSize says, which is what makes "were they exposed or zeroed" a
    // question with an observable answer.
    let mut disk = MemDisk::new(one_partition_image_envec(2, 512, 16));
    let mut editor = RdbEditor::open(&mut disk).unwrap();
    assert_eq!(editor.partitions()[0].baud, None);

    editor.set_control(0, 0x1234_5678).unwrap();
    let p = &editor.partitions()[0];
    assert_eq!(p.envec_raw[de::TABLE_SIZE], 18);
    assert_eq!(p.baud, Some(0), "an exposed field is zeroed, not slack");
    assert_eq!(p.control, Some(0x1234_5678));
    assert_eq!(p.boot_blocks, None, "and no further than it must");

    // Extending again leaves what is already there alone.
    editor.set_boot_blocks(0, 9).unwrap();
    let p = &editor.partitions()[0];
    assert_eq!(p.envec_raw[de::TABLE_SIZE], 19);
    assert_eq!(p.control, Some(0x1234_5678));
    assert_eq!(p.boot_blocks, Some(9));

    // And a field below de_TableSize never touches it.
    editor.set_mask(0, 7).unwrap();
    assert_eq!(editor.partitions()[0].envec_raw[de::TABLE_SIZE], 19);
}

/// A rename rewrites the 32-byte BCPL field and nothing else, a shorter name
/// leaves none of the longer one behind, and the rest of the `PART` block is
/// untouched.
#[test]
fn set_name_rewrites_only_the_name_field() {
    let before = foreign_image();
    let mut disk = MemDisk::new(before.clone());
    let mut editor = RdbEditor::open(&mut disk).unwrap();
    editor.set_name(0, "A").unwrap();
    editor.commit(&mut disk).unwrap();

    let name = F_PART0 * 512 + part::DRIVE_NAME;
    let chk_sum = F_PART0 * 512 + hdr::CHK_SUM;
    for off in differing_offsets(&before, &disk.data) {
        assert!(
            (name..name + 32).contains(&off) || (chk_sum..chk_sum + 4).contains(&off),
            "byte {off} changed, which the rename did not ask for"
        );
    }
    assert_eq!(Rdb::parse(&mut disk).unwrap().partitions[0].name, "A");
    // The old name's tail is gone rather than left in the padding.
    assert!(disk.data[name + 2..name + 32].iter().all(|&b| b == 0));
}

#[test]
fn set_name_refuses_a_duplicate_or_unstorable_name() {
    let mut disk = foreign_disk();
    let mut editor = RdbEditor::open(&mut disk).unwrap();
    assert_eq!(
        editor.set_name(0, "DH1"),
        Err(EditError::DuplicateName {
            name: String::from("DH1")
        })
    );
    assert_eq!(
        editor.set_name(0, ""),
        Err(EditError::InvalidName {
            name: String::new(),
            max: 31
        })
    );
    // Renaming a partition to what it is already called is not a duplicate, it
    // is a no-op the caller is entitled to make.
    editor.set_name(0, "DH0").unwrap();
    assert_eq!(editor.partitions()[0].name, "DH0");
}

#[test]
fn editor_rejects_a_partition_index_that_is_not_there() {
    let mut disk = foreign_disk();
    let mut editor = RdbEditor::open(&mut disk).unwrap();
    let missing = |index| Err(EditError::NoSuchPartition { index, count: 2 });
    assert_eq!(editor.set_dos_type(2, 0), missing(2));
    assert_eq!(editor.set_bootable(9, true), missing(9));
    assert_eq!(editor.set_mask(2, 0), missing(2));
    assert_eq!(editor.set_name(2, "NEW"), missing(2));
}

#[test]
fn flag_edits_leave_unmodelled_bits_alone() {
    let mut disk = foreign_disk();
    let mut editor = RdbEditor::open(&mut disk).unwrap();
    editor.set_bootable(0, false).unwrap();
    editor.set_automount(0, false).unwrap();
    editor.commit(&mut disk).unwrap();

    let flags = be32(&disk.data[F_PART0 * 512..], part::FLAGS);
    assert_eq!(flags, (1 << 1) | (1 << 7) | (1 << 31));

    // And the escape hatch says exactly what it is told to.
    let mut editor = RdbEditor::open(&mut disk).unwrap();
    editor.set_flags_raw(0, 0x8000_0003).unwrap();
    editor.commit(&mut disk).unwrap();
    assert_eq!(be32(&disk.data[F_PART0 * 512..], part::FLAGS), 0x8000_0003);
    let rdb = Rdb::parse(&mut disk).unwrap();
    assert!(rdb.partitions[0].bootable && rdb.partitions[0].no_automount);
}

/// The identity setters write the strings *and* the flag bit that makes them
/// mean anything.
#[test]
fn identity_setters_set_the_flag_that_gates_them() {
    let mut disk = MemDisk::new(one_partition_image(2));
    let mut editor = RdbEditor::open(&mut disk).unwrap();
    editor.set_rdb_flags(rdsk_defaults::FLAGS);
    editor
        .set_disk_identity("SEAGATE", "ST3120A", "1.02")
        .unwrap();
    editor
        .set_controller_identity("CBM", "A2091", "7.0")
        .unwrap();
    editor.commit(&mut disk).unwrap();

    let rdb = Rdb::parse(&mut disk).unwrap();
    assert_eq!(rdb.disk_vendor, "SEAGATE");
    assert_eq!(rdb.disk_product, "ST3120A");
    assert_eq!(rdb.disk_revision, "1.02");
    assert_eq!(rdb.controller_vendor, "CBM");
    assert_eq!(rdb.controller_product, "A2091");
    assert_eq!(rdb.controller_revision, "7.0");
    assert_eq!(rdb.flags & rdb_flags::DISK_ID, rdb_flags::DISK_ID);
    assert_eq!(rdb.flags & rdb_flags::CTRLR_ID, rdb_flags::CTRLR_ID);

    // A field that does not fit is refused, and refused before any of the
    // three is written.
    let mut editor = RdbEditor::open(&mut disk).unwrap();
    assert_eq!(
        editor.set_disk_identity("SEAGATE", "ST3120A", "12345"),
        Err(EditError::IdentityTooLong {
            field: "rdb_DiskRevision",
            value: String::from("12345"),
            max: 4,
        })
    );
    assert_eq!(editor.rdb().disk_vendor, "SEAGATE");
}

#[test]
fn set_rdb_flags_replaces_the_whole_word() {
    let mut disk = foreign_disk();
    let mut editor = RdbEditor::open(&mut disk).unwrap();
    editor.set_rdb_flags(rdb_flags::LAST | (1 << 30));
    editor.commit(&mut disk).unwrap();
    let rdb = Rdb::parse(&mut disk).unwrap();
    assert_eq!(rdb.flags, rdb_flags::LAST | (1 << 30));
}

/// A sink that records every LBA it is asked to write.
struct TrackingSink {
    data: Vec<u8>,
    writes: Vec<u64>,
}

impl BlockSink for TrackingSink {
    type Error = ();
    fn block_size(&self) -> usize {
        512
    }
    fn write_block(&mut self, lba: u64, buf: &[u8]) -> Result<(), ()> {
        self.writes.push(lba);
        let off = lba as usize * 512;
        self.data[off..off + 512].copy_from_slice(buf);
        Ok(())
    }
    fn block_count(&self) -> Option<u64> {
        Some(self.data.len() as u64 / 512)
    }
}

/// The never-touch guarantee, from the outside: a commit writes only inside
/// `0..=rdb_RDBBlocksHi`, and the partitions' contents come out byte for byte.
#[test]
fn commit_writes_only_inside_the_rdb_area() {
    let before = foreign_image();
    let mut disk = MemDisk::new(before.clone());
    let mut editor = RdbEditor::open(&mut disk).unwrap();
    editor.set_name(0, "SYS").unwrap();
    editor.set_boot_priority(1, 20).unwrap();
    editor.set_dos_type(1, 0x444F_5300).unwrap();

    let mut sink = TrackingSink {
        data: before.clone(),
        writes: Vec::new(),
    };
    let report = editor.commit(&mut sink).unwrap();

    assert!(!sink.writes.is_empty());
    for &lba in &sink.writes {
        assert!(
            lba <= F_BLOCKS_HI as u64,
            "block {lba} is outside the RDB area lease"
        );
    }
    assert_eq!(sink.writes, report.blocks_written);

    // Both partitions' extents, byte for byte.
    assert_eq!(&sink.data[64 * 512..], &before[64 * 512..]);
}

/// Crash shape, exhaustively: cut the commit off after every possible number of
/// writes and re-parse what is on the disk.
#[test]
fn commit_truncated_at_every_write_leaves_a_readable_rdb() {
    /// A sink that fails on the *n*th write.
    struct FlakySink {
        data: Vec<u8>,
        writes: usize,
        fail_after: usize,
    }
    impl BlockSink for FlakySink {
        type Error = ();
        fn block_size(&self) -> usize {
            512
        }
        fn write_block(&mut self, lba: u64, buf: &[u8]) -> Result<(), ()> {
            if self.writes == self.fail_after {
                return Err(());
            }
            self.writes += 1;
            let off = lba as usize * 512;
            self.data[off..off + 512].copy_from_slice(buf);
            Ok(())
        }
        fn block_count(&self) -> Option<u64> {
            Some(self.data.len() as u64 / 512)
        }
    }

    let before = foreign_image();
    let mut disk = MemDisk::new(before.clone());
    let mut editor = RdbEditor::open(&mut disk).unwrap();
    editor.set_name(0, "SYS").unwrap();
    editor.set_boot_priority(0, 9).unwrap();

    let total = editor
        .commit(&mut TrackingSink {
            data: before.clone(),
            writes: Vec::new(),
        })
        .unwrap()
        .blocks_written
        .len();
    assert!(total > 1);

    for fail_after in 0..=total {
        let mut sink = FlakySink {
            data: before.clone(),
            writes: 0,
            fail_after,
        };
        let result = editor.commit(&mut sink);
        if fail_after < total {
            assert_eq!(result.unwrap_err(), CommitError::Io(()));
        } else {
            result.unwrap();
        }

        let mut disk = MemDisk::new(sink.data);
        let rdb = Rdb::parse(&mut disk).unwrap_or_else(|e| {
            panic!("truncated at {fail_after} left no readable RDB: {e:?}")
        });
        assert!(rdb.validate().is_empty(), "truncated at {fail_after}");
        assert!(rdb.validate_seg_lists(&mut disk).unwrap().is_empty());
        assert_eq!(rdb.partitions.len(), 2);
        assert_eq!(rdb.partitions[1].name, "DH1");
        assert_eq!(rdb.bad_blocks.len(), 3);
        assert_eq!(rdb.drive_init, 0x0000_1234);
        // The one partition being edited is either its old self or its new
        // one, never a half-written mixture: one block, one write.
        let p = &rdb.partitions[0];
        assert!(
            (p.name == "DH0" && p.boot_pri == 0) || (p.name == "SYS" && p.boot_pri == 9),
            "truncated at {fail_after} left partition 0 as {} / {}",
            p.name,
            p.boot_pri
        );
        // The driver still reassembles, whatever was interrupted.
        let fs = &rdb.filesystems[0];
        assert_eq!(rdb.load_filesystem(fs, &mut disk).unwrap().len(), 2 * 492);
    }
}

/// A structure lying outside the area, the damaged-by-construction case, is
/// moved *into* it, into blocks the old layout does not use, and its old blocks
/// are left exactly as they were: they are outside the lease, so they are not
/// ours to tidy up.
#[test]
fn commit_relocates_a_chain_block_from_outside_the_area() {
    let mut image = foreign_image();
    let bs = 512;
    // Move the BADB chain to blocks 20 and 21, above RDBBlocksHi.
    for (from, to) in [(F_BADB, 20usize), (F_BADB + 1, 21)] {
        let (src, dst) = (from * bs, to * bs);
        let block: Vec<u8> = image[src..src + bs].to_vec();
        image[dst..dst + bs].copy_from_slice(&block);
        image[src..src + bs].fill(0);
    }
    put32(&mut image, bs, 20, chain::NEXT, 21);
    seal(&mut image, bs, 20, (badb::HEADER_LONGS + 4) as u32);
    put32(&mut image, bs, F_RDSK, rdsk::BAD_BLOCK_LIST, 20);
    seal(&mut image, bs, F_RDSK, 64);

    let mut disk = MemDisk::new(image.clone());
    let rdb = Rdb::parse(&mut disk).unwrap();
    assert_eq!(rdb.validate().len(), 2, "both BADB blocks are outside");

    let editor = RdbEditor::open(&mut disk).unwrap();
    let report = editor.commit(&mut disk).unwrap();
    assert!(report.blocks_zeroed.is_empty());
    for &lba in &report.blocks_written {
        assert!(lba <= F_BLOCKS_HI as u64);
    }

    // Relocated into the lowest blocks the old layout left free.
    let rdb = Rdb::parse(&mut disk).unwrap();
    assert_eq!(rdb.badb_blocks, vec![0, 2]);
    assert_eq!(rdb.bad_blocks.len(), 3);
    assert_eq!(
        rdb.bad_blocks[2],
        BadBlockEntry {
            bad: 702,
            good: 802
        }
    );
    assert!(rdb.validate().is_empty());
    // Nothing outside the lease was touched, the vacated blocks above it
    // included.
    assert_eq!(&disk.data[16 * bs..], &image[16 * bs..]);
}

/// An area too small for the layout is refused before a byte is written, naming
/// the shortfall, and pointing at `expand_rdb_area`, which is the way out.
#[test]
fn commit_refuses_an_area_that_cannot_hold_the_layout() {
    let bs = 512;
    let mut image = foreign_image();
    put32(&mut image, bs, F_RDSK, rdsk::RDB_BLOCKS_HI, 6);
    seal(&mut image, bs, F_RDSK, 64);

    let mut disk = MemDisk::new(image.clone());
    let editor = RdbEditor::open(&mut disk).unwrap();
    let err = editor.commit(&mut disk).unwrap_err();
    assert_eq!(
        err,
        CommitError::RdbAreaTooSmall {
            needed: 8,
            available: 7,
            lo: 0,
            hi: 6,
        }
    );
    assert_eq!(disk.data, image, "a refused commit writes nothing");
}

#[test]
fn commit_refuses_an_inverted_area_and_an_unreachable_rdsk() {
    let bs = 512;
    for (lo, hi, expected) in [
        (9u32, 4u32, CommitError::RdbAreaInvalid { lo: 9, hi: 4 }),
        (
            0,
            0,
            CommitError::RdskOutsideRdbArea {
                rdsk_block: F_RDSK as u64,
                hi: 0,
            },
        ),
    ] {
        let mut image = foreign_image();
        put32(&mut image, bs, F_RDSK, rdsk::RDB_BLOCKS_LO, lo);
        put32(&mut image, bs, F_RDSK, rdsk::RDB_BLOCKS_HI, hi);
        seal(&mut image, bs, F_RDSK, 64);
        let mut disk = MemDisk::new(image.clone());
        let editor = RdbEditor::open(&mut disk).unwrap();
        assert_eq!(editor.commit(&mut disk).unwrap_err(), expected);
        assert_eq!(disk.data, image);
    }
}

#[test]
fn commit_refuses_a_sink_of_the_wrong_block_size() {
    let mut disk = foreign_disk();
    let editor = RdbEditor::open(&mut disk).unwrap();
    let mut wrong = MemDisk {
        data: vec![0u8; 320 * 4096],
        block_size: 4096,
    };
    assert_eq!(
        editor.commit(&mut wrong).unwrap_err(),
        CommitError::BlockSizeMismatch {
            rdb: 512,
            sink: 4096
        }
    );
    let mut bad = MemDisk {
        data: vec![0u8; 4096],
        block_size: 768,
    };
    assert_eq!(
        editor.commit(&mut bad).unwrap_err(),
        CommitError::UnsupportedBlockSize { block_size: 768 }
    );
}

/// Growing the area is permitted exactly when the blocks being claimed belong
/// to no partition, and refused with the blocking partition and the cylinder it
/// would have to move to.
#[test]
fn expand_rdb_area_takes_only_blocks_no_partition_owns() {
    let mut disk = MemDisk::new(foreign_image());
    let mut editor = RdbEditor::open(&mut disk).unwrap();

    // Never backwards, and never by a commit's own decision.
    assert_eq!(
        editor.expand_rdb_area(14).unwrap_err(),
        EditError::RdbAreaWouldShrink {
            hi: F_BLOCKS_HI,
            new_hi: 14
        }
    );
    // Equal is a no-op that succeeds.
    editor.expand_rdb_area(F_BLOCKS_HI).unwrap();
    assert_eq!(editor.rdb().rdb_blocks_hi, F_BLOCKS_HI);

    // One block into DH0's first cylinder, which starts at block 64.
    assert_eq!(
        editor.expand_rdb_area(64).unwrap_err(),
        EditError::RdbAreaBlocked {
            index: 0,
            name: String::from("DH0"),
            new_hi: 64,
            // Its own 32-block cylinders: block 65 upward is cylinder 3, so
            // cylinder 2 is where it may no longer be.
            move_to_cylinder: 3,
        }
    );
    // And past the end of the 320-block disk.
    assert_eq!(
        editor.expand_rdb_area(320).unwrap_err(),
        EditError::ClaimsBlocksPastEndOfDisk {
            last_block: 320,
            disk_blocks: 320,
        }
    );
    assert_eq!(
        editor.rdb().rdb_blocks_hi,
        F_BLOCKS_HI,
        "a refused expansion changes nothing"
    );

    // The last block that is nobody's: 63, one below DH0.
    editor.expand_rdb_area(63).unwrap();
    assert_eq!(editor.rdb().rdb_blocks_hi, 63);
    editor.commit(&mut disk).unwrap();

    let rdb = Rdb::parse(&mut disk).unwrap();
    assert_eq!(rdb.rdb_blocks_hi, 63);
    // The lease grew; the high-water mark did not, because the expansion made
    // room rather than using any of it.
    assert_eq!(rdb.high_rdsk_block, F_HIGH_RDSK);
    assert!(rdb.validate().is_empty());
    assert_eq!(rdb.lo_cylinder, 2, "the other lever was not touched");
}

/// The expansion is what makes a previously impossible add possible: the same
/// `add_filesystem` that was `RdbAreaTooSmall` succeeds after it, and its
/// blocks land in the newly claimed space.
#[test]
fn an_add_that_did_not_fit_succeeds_after_expanding_the_area() {
    // 8 blocks of the fixture's 0..=15 area are free, so a driver needing an
    // FSHD plus twelve LSEG blocks cannot fit.
    let driver: Vec<u8> = (0..12 * 492).map(|i| (i % 251) as u8).collect();

    let before = foreign_image();
    let mut disk = MemDisk::new(before.clone());
    let mut editor = RdbEditor::open(&mut disk).unwrap();
    editor
        .add_filesystem(FileSystemSpec::new(0x444F_5301, driver.clone()))
        .unwrap();
    assert!(matches!(
        editor.commit(&mut disk).unwrap_err(),
        CommitError::RdbAreaTooSmall { .. }
    ));
    assert_eq!(disk.data, before, "a refused commit writes nothing");

    editor.expand_rdb_area(63).unwrap();
    let report = editor.commit(&mut disk).unwrap();
    assert!(
        report
            .blocks_written
            .iter()
            .any(|&b| b > F_BLOCKS_HI as u64),
        "the new blocks should be using the space the expansion claimed"
    );
    assert!(report.blocks_written.iter().all(|&b| b <= 63));

    let mut disk = MemDisk::new(disk.data);
    let rdb = Rdb::parse(&mut disk).unwrap();
    assert!(rdb.validate().is_empty());
    assert!(rdb.validate_seg_lists(&mut disk).unwrap().is_empty());
    assert_eq!(rdb.filesystems.len(), 2);
    let fs = &rdb.filesystems[1];
    assert_eq!(fs.dos_type, 0x444F_5301);
    assert_eq!(rdb.load_filesystem(fs, &mut disk).unwrap(), driver);
    // The partition contents are still exactly where they were: the expansion
    // stopped one block short of them.
    assert_eq!(&disk.data[64 * 512..], &before[64 * 512..]);
}

/// An expansion is a claim about the disk's size, so the sink gets to refuse it
/// too, before a byte is written.
#[test]
fn commit_refuses_an_expanded_area_the_sink_cannot_hold() {
    let before = foreign_image();
    let mut disk = MemDisk::new(before.clone());
    let mut editor = RdbEditor::open(&mut disk).unwrap();
    editor.expand_rdb_area(63).unwrap();

    // A sink smaller than the ceiling the expansion claimed.
    let mut small = MemDisk::new(before[..32 * 512].to_vec());
    assert_eq!(
        editor.commit(&mut small).unwrap_err(),
        CommitError::RdbAreaPastEndOfDisk {
            hi: 63,
            block_count: 32,
        }
    );
    assert_eq!(&small.data[..], &before[..32 * 512]);

    // An editor that did *not* move the ceiling is not re-litigated: it writes
    // nowhere it was not already entitled to, and the same undersized sink
    // takes its commit.
    let editor = RdbEditor::open(&mut disk).unwrap();
    let mut small = MemDisk::new(before[..32 * 512].to_vec());
    editor.commit(&mut small).unwrap();
}

/// `rdb_LoCylinder` is the second lever: raised freely above the last
/// partition, refused when one starts below it, and lowered without complaint.
#[test]
fn set_lo_cylinder_refuses_to_swallow_a_partition() {
    let mut disk = MemDisk::new(foreign_image());
    let mut editor = RdbEditor::open(&mut disk).unwrap();

    assert_eq!(
        editor.set_lo_cylinder(3).unwrap_err(),
        EditError::LoCylinderBlocked {
            index: 0,
            name: String::from("DH0"),
            low_cyl: 2,
            lo_cylinder: 3,
        }
    );
    assert_eq!(editor.rdb().lo_cylinder, 2);

    // Lowering hands cylinders back and passes the predicate.
    editor.set_lo_cylinder(1).unwrap();
    assert_eq!(editor.rdb().lo_cylinder, 1);

    // Delete DH0 and the boundary may move up over its cylinders.
    editor.remove_partition(0).unwrap();
    editor.set_lo_cylinder(6).unwrap();
    editor.commit(&mut disk).unwrap();

    let rdb = Rdb::parse(&mut disk).unwrap();
    assert_eq!(rdb.lo_cylinder, 6);
    assert_eq!(rdb.partitions.len(), 1);
    assert!(rdb.validate().is_empty());
}

#[test]
fn set_geometry_cylinders_grows_the_disk_and_refuses_to_cut_a_partition() {
    // 640 blocks: twice the geometry the fixture declares, so the "cloned onto
    // a larger medium" case is a real one here.
    let mut image = foreign_image();
    image.resize(640 * 512, 0);
    let mut disk = MemDisk::new(image);
    let mut editor = RdbEditor::open(&mut disk).unwrap();

    // DH1 ends at cylinder 8, so 8 cylinders is one too few.
    assert_eq!(
        editor.set_geometry_cylinders(8).unwrap_err(),
        EditError::CylindersBelowPartition {
            index: 1,
            name: String::from("DH1"),
            high_cyl: 8,
            cylinders: 8,
        }
    );
    // Nothing at all is refused by the partition check while there are
    // partitions, and by the area check once there are not: a disk of no
    // blocks cannot hold an RDB area that always has at least one.
    assert_eq!(
        editor.set_geometry_cylinders(0).unwrap_err(),
        EditError::CylindersBelowPartition {
            index: 0,
            name: String::from("DH0"),
            high_cyl: 5,
            cylinders: 0,
        }
    );
    {
        let mut bare = RdbEditor::open(&mut disk).unwrap();
        bare.remove_partition(1).unwrap();
        bare.remove_partition(0).unwrap();
        assert_eq!(
            bare.set_geometry_cylinders(0).unwrap_err(),
            EditError::ClaimsBlocksPastEndOfDisk {
                last_block: F_BLOCKS_HI as u64,
                disk_blocks: 0,
            }
        );
    }
    // And more disk than the source reported is refused as well.
    assert_eq!(
        editor.set_geometry_cylinders(21).unwrap_err(),
        EditError::ClaimsBlocksPastEndOfDisk {
            last_block: 671,
            disk_blocks: 640,
        }
    );
    assert_eq!(editor.rdb().cylinders, 10);

    editor.set_geometry_cylinders(20).unwrap();
    assert_eq!(editor.rdb().cylinders, 20);
    assert_eq!(editor.rdb().hi_cylinder, 19);
    assert_eq!(editor.rdb().heads, 1);
    assert_eq!(editor.rdb().sectors, 32);
    assert_eq!(editor.rdb().lo_cylinder, 2);
    assert_eq!(editor.rdb().park, 10);
    assert_eq!(editor.rdb().write_pre_comp, 4);

    // The new cylinders are usable: a partition can be placed there.
    let index = editor
        .add_partition(PartitionSpec::by_size(5 * 32 * 512).named("NEW"))
        .unwrap();
    assert_eq!(editor.partitions()[index].low_cyl, 9);
    assert_eq!(editor.partitions()[index].high_cyl, 13);
    editor.commit(&mut disk).unwrap();

    let rdb = Rdb::parse(&mut disk).unwrap();
    assert_eq!(rdb.cylinders, 20);
    assert_eq!(rdb.hi_cylinder, 19);
    assert_eq!(rdb.partitions.len(), 3);
    assert_eq!(rdb.partitions[2].name, "NEW");
    assert!(rdb.validate().is_empty());
}

/// Crash shape over an *expanding* commit, the truncation test above, run over
/// the case that writes above the published ceiling.
#[test]
fn an_expanding_commit_truncated_at_every_write_leaves_a_readable_rdb() {
    struct FlakySink {
        data: Vec<u8>,
        writes: usize,
        fail_after: usize,
    }
    impl BlockSink for FlakySink {
        type Error = ();
        fn block_size(&self) -> usize {
            512
        }
        fn write_block(&mut self, lba: u64, buf: &[u8]) -> Result<(), ()> {
            if self.writes == self.fail_after {
                return Err(());
            }
            self.writes += 1;
            let off = lba as usize * 512;
            self.data[off..off + 512].copy_from_slice(buf);
            Ok(())
        }
        fn block_count(&self) -> Option<u64> {
            Some(self.data.len() as u64 / 512)
        }
    }

    let driver: Vec<u8> = (0..12 * 492).map(|i| (i % 251) as u8).collect();
    let before = foreign_image();
    let mut disk = MemDisk::new(before.clone());
    let mut editor = RdbEditor::open(&mut disk).unwrap();
    editor.expand_rdb_area(63).unwrap();
    editor
        .add_filesystem(FileSystemSpec::new(0x444F_5301, driver.clone()))
        .unwrap();

    let total = editor
        .commit(&mut TrackingSink {
            data: before.clone(),
            writes: Vec::new(),
        })
        .unwrap()
        .blocks_written
        .len();
    assert!(total > 13);

    for fail_after in 0..=total {
        let mut sink = FlakySink {
            data: before.clone(),
            writes: 0,
            fail_after,
        };
        let result = editor.commit(&mut sink);
        if fail_after < total {
            assert_eq!(result.unwrap_err(), CommitError::Io(()));
        } else {
            result.unwrap();
        }

        let mut disk = MemDisk::new(sink.data);
        let rdb = Rdb::parse(&mut disk).unwrap_or_else(|e| {
            panic!("truncated at {fail_after} left no readable RDB: {e:?}")
        });
        assert_eq!(rdb.partitions.len(), 2);
        assert_eq!(rdb.bad_blocks.len(), 3);
        assert_eq!(rdb.drive_init, 0x0000_1234);

        // Every issue either side reports is the *documented* one and nothing
        // else: a chained block sitting in the region the expansion claimed
        // but the `RDSK` on disk has not published yet.
        let issues: Vec<ValidationIssue> = rdb
            .validate()
            .into_iter()
            .chain(rdb.validate_seg_lists(&mut disk).unwrap())
            .collect();
        for issue in &issues {
            match issue {
                ValidationIssue::BlockOutsideRdbArea { lba, hi, .. }
                    if *hi == F_BLOCKS_HI as u64 && *lba > F_BLOCKS_HI as u64 && *lba <= 63 => {
                }
                other => panic!("truncated at {fail_after}: unexpected {other:?}"),
            }
        }
        if rdb.rdb_blocks_hi == 63 {
            assert!(
                issues.is_empty(),
                "the published area covers its own blocks"
            );
        }

        // Whatever was interrupted, every driver on the chain reassembles, the
        // old one always, the new one whenever its `FSHD` has landed.
        assert_eq!(
            rdb.load_filesystem(&rdb.filesystems[0], &mut disk)
                .unwrap()
                .len(),
            2 * 492
        );
        if let Some(added) = rdb.filesystems.get(1) {
            assert_eq!(rdb.load_filesystem(added, &mut disk).unwrap(), driver);
        }
        // Nothing above the new ceiling was touched, in particular no
        // partition's contents.
        assert_eq!(&disk.data[64 * 512..], &before[64 * 512..]);
    }
}

#[test]
fn editor_round_trips_a_4k_block_image() {
    let before = one_partition_image_bs(2, 4096);
    let mut disk = MemDisk {
        data: before.clone(),
        block_size: 4096,
    };
    let editor = RdbEditor::open(&mut disk).unwrap();
    editor.commit(&mut disk).unwrap();
    assert_eq!(disk.data, before);

    let mut editor = RdbEditor::open(&mut disk).unwrap();
    editor.set_boot_priority(0, 4).unwrap();
    editor.commit(&mut disk).unwrap();
    assert_eq!(Rdb::parse(&mut disk).unwrap().partitions[0].boot_pri, 4);
}

/// An image the builder made, edited and read back: the create and mutate paths
/// agree about the same disk.
#[test]
fn an_image_this_crate_built_survives_an_edit() {
    let mut disk = MemDisk {
        data: vec![0u8; TEN_MIB_BLOCKS * 512],
        block_size: 512,
    };
    let driver: Vec<u8> = (0..2000).map(|i| (i % 251) as u8).collect();
    RdbBuilder::for_size(TEN_MIB, 512)
        .unwrap()
        .partition(PartitionSpec::by_size(2 * 1024 * 1024))
        .partition(PartitionSpec::by_size(2 * 1024 * 1024).named("WORK"))
        .filesystem(FileSystemSpec::new(0x444F_5307, driver.clone()))
        .build(&mut disk)
        .unwrap();
    let built = disk.data.clone();

    let editor = RdbEditor::open(&mut disk).unwrap();
    editor.commit(&mut disk).unwrap();
    assert_eq!(disk.data, built, "a no-op commit changes nothing");

    let mut editor = RdbEditor::open(&mut disk).unwrap();
    editor.set_bootable(1, true).unwrap();
    editor.set_boot_priority(1, 3).unwrap();
    editor.commit(&mut disk).unwrap();

    let rdb = Rdb::parse(&mut disk).unwrap();
    assert!(rdb.partitions[1].bootable);
    assert_eq!(rdb.partitions[1].boot_pri, 3);
    assert!(rdb.validate().is_empty());
    assert!(rdb.validate_seg_lists(&mut disk).unwrap().is_empty());
    let loaded = rdb.load_filesystem(&rdb.filesystems[0], &mut disk).unwrap();
    assert_eq!(&loaded[..driver.len()], &driver[..]);
}

/// **The fidelity test of this chunk**: a partition is *added* to a foreign
/// image and every pre-existing structure comes back byte for byte, the whole
/// block, every unmodelled longword of it, only ever moved and re-chained,
/// never rebuilt.
#[test]
fn adding_a_partition_leaves_every_other_structure_byte_identical() {
    let before = foreign_image();
    let mut disk = MemDisk::new(before.clone());
    let mut editor = RdbEditor::open(&mut disk).unwrap();

    // One cylinder, the one the fixture leaves free.
    let index = editor
        .add_partition(PartitionSpec::by_size(32 * 512).named("EXTRA").bootable(2))
        .unwrap();
    assert_eq!(index, 2);
    assert_eq!(editor.partitions()[2].low_cyl, 9);
    assert_eq!(editor.partitions()[2].high_cyl, 9);
    // Not placed until the commit says so.
    assert_eq!(editor.partitions()[2].part_block, UNPLACED_BLOCK);

    let report = editor.commit(&mut disk).unwrap();
    // The whole chain relocates, into the lowest blocks *neither* layout uses,
    // 1 is the `RDSK`, 3 and 5 are the blocks being vacated, and the vacated
    // pair is zeroed after the flip.
    assert_eq!(report.part_blocks, vec![0, 2, 4]);
    assert_eq!(report.high_rdsk_block, F_HIGH_RDSK);
    assert_eq!(report.rdb_blocks_hi, F_BLOCKS_HI);
    // Sorted, so `F_PART1` (3) before `F_PART0` (5).
    assert_eq!(report.blocks_zeroed, vec![F_PART1 as u64, F_PART0 as u64]);

    // Each moved block is its old self, apart from the one pointer that had to
    // change and the checksum over it.
    for (from, to) in [(F_PART0, 0usize), (F_PART1, 2)] {
        for off in 0..512 {
            if (chain::NEXT..chain::NEXT + 4).contains(&off)
                || (hdr::CHK_SUM..hdr::CHK_SUM + 4).contains(&off)
            {
                continue;
            }
            assert_eq!(
                before[from * 512 + off],
                disk.data[to * 512 + off],
                "byte {off} of the PART block moved from {from} to {to} changed"
            );
        }
    }
    // Everything whose chain did not change stayed exactly put.
    for block in [F_FSHD, F_LSEG, F_LSEG + 1, F_BADB, F_BADB + 1] {
        assert_eq!(
            &disk.data[block * 512..(block + 1) * 512],
            &before[block * 512..(block + 1) * 512],
            "block {block} moved, which adding a partition did not ask for"
        );
    }
    // And nothing outside the RDB area was touched at all.
    assert_eq!(
        &disk.data[(F_BLOCKS_HI as usize + 1) * 512..],
        &before[(F_BLOCKS_HI as usize + 1) * 512..]
    );

    let rdb = Rdb::parse(&mut disk).unwrap();
    assert!(rdb.validate().is_empty());
    assert_eq!(rdb.partitions.len(), 3);
    let p = &rdb.partitions[2];
    assert_eq!(p.part_block, 4);
    assert_eq!(p.name, "EXTRA");
    assert_eq!((p.low_cyl, p.high_cyl), (9, 9));
    assert_eq!(p.start_lba, 9 * 32);
    assert_eq!(p.block_len, 32);
    assert!(p.bootable);
    assert_eq!(p.boot_pri, 2);
    // Filled from the same defaults a *created* partition gets, off the same
    // geometry: this is `fill_part_fields`, once.
    assert_eq!(p.dos_type, envec_defaults::DOS_TYPE);
    assert_eq!(p.num_buffers, envec_defaults::NUM_BUFFERS);
    assert_eq!(p.size_block_longs, envec_defaults::size_block_longs(512));
    assert_eq!(p.cylinder_blocks, 32);
    assert_eq!(p.envec_raw.len(), envec_defaults::TABLE_SIZE as usize + 1);
}

/// An added partition takes the first `DH`*n* free, avoiding the names already
/// on the disk, the builder's rule, on an existing table.
#[test]
fn an_added_partition_is_named_around_the_existing_ones() {
    let mut disk = foreign_disk();
    let mut editor = RdbEditor::open(&mut disk).unwrap();
    editor
        .add_partition(PartitionSpec::by_cylinders(9, 9))
        .unwrap();
    // DH0 and DH1 are taken by the fixture.
    assert_eq!(editor.partitions()[2].name, "DH2");
}

/// An image whose partition's cylinder is *not* the drive's, which the format
/// allows: `de_Surfaces * de_BlocksPerTrack` is a per partition number and may
/// disagree with `rdb_Heads * rdb_Sectors`.
fn divergent_geometry_disk() -> MemDisk {
    let bs = 512;
    let mut d = one_partition_image(2);
    let e = part::ENVIRONMENT;
    put32(&mut d, bs, 3, e + de::SURFACES * 4, 2);
    put32(&mut d, bs, 3, e + de::BLOCKS_PER_TRACK * 4, 32);
    put32(&mut d, bs, 3, e + de::LOW_CYL * 4, 1);
    put32(&mut d, bs, 3, e + de::HIGH_CYL * 4, 2);
    seal(&mut d, bs, 3, 64);

    let mut disk = MemDisk::new(d);
    let rdb = Rdb::parse(&mut disk).unwrap();
    assert_eq!(rdb.partitions[0].cylinder_blocks, 64);
    assert_eq!(rdb.partitions[0].start_lba, 64);
    assert_eq!(rdb.partitions[0].block_len, 128);
    assert!(rdb.validate().is_empty(), "the fixture is a clean layout");
    disk
}

/// **End of disk is a question about blocks, not cylinders.** A partition whose
/// cylinder is twice the drive's runs off the medium at *its* cylinder 5, less
/// than half the drive's cylinder count, and an extent check that compared
/// `de_HighCyl` against `rdb_Cylinders - 1` waved it through.
#[test]
fn an_extent_past_the_medium_is_refused_in_the_partitions_own_cylinders() {
    let mut disk = divergent_geometry_disk();
    let mut editor = RdbEditor::open(&mut disk).unwrap();

    // Cylinders 1..=4 of 64 blocks each end at block 320, which is exactly the
    // medium's last block.
    editor.resize_partition(0, 4).unwrap();
    assert_eq!(editor.partitions()[0].start_lba, 64);
    assert_eq!(editor.partitions()[0].block_len, 4 * 64);

    // One more of its cylinders is 64 blocks past the end, though the drive
    // still has cylinders 6..=9 by its own reckoning.
    assert_eq!(
        editor.resize_partition(0, 5).unwrap_err(),
        EditError::PastEndOfDisk {
            high_cyl: 5,
            last_cylinder: 4,
        }
    );
    assert_eq!(
        editor.set_extent(0, 4, 9).unwrap_err(),
        EditError::PastEndOfDisk {
            high_cyl: 9,
            last_cylinder: 4,
        }
    );
    // And an *added* partition goes through the same check, in its own
    // cylinders, which here are the drive's 32-block ones.
    assert_eq!(
        editor
            .add_partition(PartitionSpec::by_cylinders(10, 10))
            .unwrap_err(),
        EditError::PastEndOfDisk {
            high_cyl: 10,
            last_cylinder: 9,
        }
    );
    // The drive's own geometry is unchanged by any of it.
    assert_eq!(editor.partitions()[0].high_cyl, 4);
}

/// The same unit confusion on the shrink guard: `INIT NEWGEO` downwards must
/// not truncate a partition, and whether it does is decided by the partition's
/// last *block* against the medium's.
#[test]
fn shrinking_the_geometry_is_refused_in_blocks_not_cylinders() {
    let mut disk = divergent_geometry_disk();
    let mut editor = RdbEditor::open(&mut disk).unwrap();

    // DH0 ends at block 192; six drive cylinders of 32 blocks are exactly
    // that, so this fits and the one below it does not, even though DH0's
    // `de_HighCyl` is 2, far below either.
    assert_eq!(
        editor.set_geometry_cylinders(5).unwrap_err(),
        EditError::CylindersBelowPartition {
            index: 0,
            name: String::from("DH0"),
            high_cyl: 2,
            cylinders: 5,
        }
    );
    editor.set_geometry_cylinders(6).unwrap();
    assert_eq!(editor.rdb().cylinders, 6);
    assert_eq!(editor.rdb().hi_cylinder, 5);
}

/// A geometry whose cylinder is larger than the address space must refuse a
/// sized placement, not overflow computing how big it is, a debug panic, and in
/// release a wrap to zero and then a division by it.
#[test]
fn a_by_size_add_refuses_an_absurd_cylinder_instead_of_panicking() {
    let bs = 512;
    let mut d = one_partition_image(2);
    put32(&mut d, bs, 2, rdsk::HEADS, 1 << 28);
    put32(&mut d, bs, 2, rdsk::SECTORS, 1 << 28);
    seal(&mut d, bs, 2, 64);

    let mut disk = MemDisk::new(d);
    let mut editor = RdbEditor::open(&mut disk).unwrap();
    assert_eq!(
        editor
            .add_partition(PartitionSpec::by_size(1 << 40))
            .unwrap_err(),
        EditError::PartitionTooSmall {
            bytes: 1 << 40,
            cylinder_bytes: u64::MAX,
        }
    );
}

/// Delete: the block is unchained *and zeroed*, the chain that is left is
/// intact, `rdb_HighRDSKBlock` is recomputed, the lease is not shrunk, and the
/// partition's *contents* are exactly where they were, because removing a table
/// entry is not erasing a filesystem.
#[test]
fn removing_a_partition_zeroes_its_block_and_not_its_contents() {
    let mut before = foreign_image();
    // A stamp inside DH0's extent (cylinders 2..=5, blocks 64..192), so
    // "untouched" is a comparison against something distinctive.
    for (i, b) in before[70 * 512..71 * 512].iter_mut().enumerate() {
        *b = (i % 199) as u8 ^ 0x5A;
    }
    let stamp = before[70 * 512..71 * 512].to_vec();

    let mut disk = MemDisk::new(before.clone());
    let mut editor = RdbEditor::open(&mut disk).unwrap();
    editor.remove_partition(0).unwrap();
    assert_eq!(editor.partitions().len(), 1);
    let report = editor.commit(&mut disk).unwrap();

    assert_eq!(report.part_blocks, vec![F_PART1 as u64]);
    assert_eq!(report.blocks_zeroed, vec![F_PART0 as u64]);
    // The lease is never shrunk; the high-water mark is recomputed.
    assert_eq!(report.rdb_blocks_hi, F_BLOCKS_HI);
    assert_eq!(report.high_rdsk_block, F_HIGH_RDSK);
    // Zeroed *after* the RDSK, so the block that publishes the new table lands
    // before the old one stops being readable.
    let rdsk_at = report
        .blocks_written
        .iter()
        .position(|&b| b == F_RDSK as u64)
        .unwrap();
    let zeroed_at = report
        .blocks_written
        .iter()
        .position(|&b| b == F_PART0 as u64)
        .unwrap();
    assert!(zeroed_at > rdsk_at);

    assert_eq!(
        &disk.data[F_PART0 * 512..(F_PART0 + 1) * 512],
        &vec![0u8; 512][..],
        "the vacated PART block is still on the disk"
    );

    let rdb = Rdb::parse(&mut disk).unwrap();
    assert!(rdb.validate().is_empty());
    assert_eq!(rdb.partitions.len(), 1);
    assert_eq!(rdb.partitions[0].name, "DH1");
    assert_eq!(rdb.partitions[0].part_block, F_PART1 as u64);
    assert_eq!(rdb.rdb_blocks_hi, F_BLOCKS_HI);
    assert_eq!(rdb.high_rdsk_block, F_HIGH_RDSK);
    // Everything the deleted partition held is exactly where it was.
    assert_eq!(&disk.data[70 * 512..71 * 512], &stamp[..]);
    assert_eq!(&disk.data[64 * 512..], &before[64 * 512..]);
}

/// **Free-block management, proved.** The block a delete frees is zeroed, and
/// the next add takes it back.
#[test]
fn a_block_freed_by_a_delete_is_reused_by_a_later_add() {
    let mut disk = MemDisk {
        data: vec![0u8; TEN_MIB_BLOCKS * 512],
        block_size: 512,
    };
    RdbBuilder::for_size(TEN_MIB, 512)
        .unwrap()
        .partition(PartitionSpec::by_size(2 * 1024 * 1024))
        .partition(PartitionSpec::by_size(2 * 1024 * 1024))
        .build(&mut disk)
        .unwrap();
    // Contiguous by construction: RDSK 0, PART 1, PART 2.
    let rdb = Rdb::parse(&mut disk).unwrap();
    assert_eq!(rdb.partitions[0].part_block, 1);
    assert_eq!(rdb.partitions[1].part_block, 2);

    let mut editor = RdbEditor::open(&mut disk).unwrap();
    editor.remove_partition(0).unwrap();
    let report = editor.commit(&mut disk).unwrap();
    assert_eq!(report.blocks_zeroed, vec![1]);
    assert_eq!(&disk.data[512..1024], &vec![0u8; 512][..]);

    // The hole is the lowest free block in the area, so the commit takes it,
    // no compaction, no growth, no scan of the disk: the layout is what the
    // chains say and the gaps are usable.
    let mut editor = RdbEditor::open(&mut disk).unwrap();
    editor
        .add_partition(PartitionSpec::by_size(2 * 1024 * 1024).named("NEW"))
        .unwrap();
    let report = editor.commit(&mut disk).unwrap();
    assert_eq!(report.part_blocks, vec![1, 3]);
    assert_eq!(report.blocks_zeroed, vec![2]);

    let rdb = Rdb::parse(&mut disk).unwrap();
    assert!(rdb.validate().is_empty());
    assert_eq!(rdb.partitions.len(), 2);
    assert_eq!(rdb.partitions[0].part_block, 1);
    assert_eq!(rdb.partitions[1].name, "NEW");
    assert_eq!(rdb.partitions[1].part_block, 3);
}

/// Every way an add can be refused, and the sink is untouched in each,
/// including the one that is only answerable at commit time, the area having no
/// block left to put the `PART` on.
#[test]
fn add_refuses_what_it_cannot_place() {
    let mut disk = foreign_disk();
    let mut editor = RdbEditor::open(&mut disk).unwrap();

    // Straight onto DH1's cylinders (6..=8, blocks 192..=287).
    assert_eq!(
        editor
            .add_partition(PartitionSpec::by_cylinders(7, 9))
            .unwrap_err(),
        EditError::PartitionsOverlap {
            index: 1,
            name: String::from("DH1"),
            start: 7 * 32,
            len: 2 * 32,
        }
    );
    assert_eq!(
        editor
            .add_partition(PartitionSpec::by_cylinders(9, 9).named("DH1"))
            .unwrap_err(),
        EditError::DuplicateName {
            name: String::from("DH1")
        }
    );
    assert_eq!(
        editor
            .add_partition(PartitionSpec::by_cylinders(0, 1))
            .unwrap_err(),
        EditError::OverlapsRdbArea {
            low_cyl: 0,
            lo_cylinder: 2,
        }
    );
    assert_eq!(
        editor
            .add_partition(PartitionSpec::by_cylinders(9, 12))
            .unwrap_err(),
        EditError::PastEndOfDisk {
            high_cyl: 12,
            last_cylinder: 9,
        }
    );
    assert_eq!(
        editor
            .add_partition(PartitionSpec::by_cylinders(9, 8))
            .unwrap_err(),
        EditError::CylindersInverted {
            low_cyl: 9,
            high_cyl: 8,
        }
    );
    assert_eq!(
        editor
            .add_partition(PartitionSpec::by_size(100))
            .unwrap_err(),
        EditError::PartitionTooSmall {
            bytes: 100,
            cylinder_bytes: 32 * 512,
        }
    );
    // One free cylinder, and two asked for.
    assert_eq!(
        editor
            .add_partition(PartitionSpec::by_size(2 * 32 * 512))
            .unwrap_err(),
        EditError::NoRoomForPartition {
            cylinders: 2,
            largest_gap: 1,
        }
    );
    // A refused add leaves the editor as it was, every time.
    assert_eq!(editor.partitions().len(), 2);

    // And the area-is-full case, which only a commit can answer, refused
    // before a byte is written, naming the shortfall and pointing at
    // `expand_rdb_area`.
    let mut small = MemDisk {
        data: vec![0u8; TEN_MIB_BLOCKS * 512],
        block_size: 512,
    };
    RdbBuilder::for_size(TEN_MIB, 512)
        .unwrap()
        .reserved_blocks(2)
        .partition(PartitionSpec::by_size(2 * 1024 * 1024))
        .build(&mut small)
        .unwrap();
    let built = small.data.clone();
    let mut editor = RdbEditor::open(&mut small).unwrap();
    editor
        .add_partition(PartitionSpec::by_size(2 * 1024 * 1024))
        .unwrap();
    assert_eq!(
        editor.commit(&mut small).unwrap_err(),
        CommitError::RdbAreaTooSmall {
            needed: 3,
            available: 2,
            lo: 0,
            hi: 1,
        }
    );
    assert_eq!(small.data, built, "a refused commit writes nothing");
}

/// Resize is a table-entry edit: it grows into a gap, shrinks destructively,
/// and refuses to grow into a neighbour, into the RDB area or past the end of
/// the disk.
#[test]
fn resize_moves_the_table_entry_and_refuses_an_overlap() {
    let mut disk = MemDisk {
        data: vec![0u8; TEN_MIB_BLOCKS * 512],
        block_size: 512,
    };
    // 640 cylinders of 32 blocks; the RDB area takes cylinder 0.
    RdbBuilder::for_size(TEN_MIB, 512)
        .unwrap()
        .partition(PartitionSpec::by_cylinders(1, 100))
        .partition(PartitionSpec::by_cylinders(200, 300))
        .build(&mut disk)
        .unwrap();

    let mut editor = RdbEditor::open(&mut disk).unwrap();
    // Into the gap: fine.
    editor.resize_partition(0, 150).unwrap();
    assert_eq!(editor.partitions()[0].high_cyl, 150);
    assert_eq!(editor.partitions()[0].block_len, 150 * 32);
    // Into the neighbour: refused, and the entry is left as it was.
    assert_eq!(
        editor.resize_partition(0, 250).unwrap_err(),
        EditError::PartitionsOverlap {
            index: 1,
            name: String::from("DH1"),
            start: 200 * 32,
            len: 51 * 32,
        }
    );
    assert_eq!(editor.partitions()[0].high_cyl, 150);
    // Past the end of the disk: refused.
    assert_eq!(
        editor.resize_partition(1, 640).unwrap_err(),
        EditError::PastEndOfDisk {
            high_cyl: 640,
            last_cylinder: 639,
        }
    );
    // Into the RDB area: refused.
    assert_eq!(
        editor.set_extent(0, 0, 150).unwrap_err(),
        EditError::OverlapsRdbArea {
            low_cyl: 0,
            lo_cylinder: 1,
        }
    );
    // Shrinking is allowed, and destructive to whatever is inside, which the
    // docs say loudly and the format cannot prevent.
    editor.resize_partition(0, 50).unwrap();
    editor.set_extent(1, 400, 500).unwrap();
    editor.commit(&mut disk).unwrap();

    let rdb = Rdb::parse(&mut disk).unwrap();
    assert!(rdb.validate().is_empty());
    assert_eq!(
        (rdb.partitions[0].low_cyl, rdb.partitions[0].high_cyl),
        (1, 50)
    );
    assert_eq!(
        (rdb.partitions[1].low_cyl, rdb.partitions[1].high_cyl),
        (400, 500)
    );
    assert_eq!(rdb.partitions[1].start_lba, 400 * 32);
    // Nothing but the two extents moved: the blocks stayed put.
    assert_eq!(rdb.partitions[0].part_block, 1);
    assert_eq!(rdb.partitions[1].part_block, 2);
}

#[test]
fn resize_reports_an_index_that_is_not_there() {
    let mut disk = foreign_disk();
    let mut editor = RdbEditor::open(&mut disk).unwrap();
    assert_eq!(
        editor.set_extent(5, 2, 3).unwrap_err(),
        EditError::NoSuchPartition { index: 5, count: 2 }
    );
    assert_eq!(
        editor.resize_partition(5, 3).unwrap_err(),
        EditError::NoSuchPartition { index: 5, count: 2 }
    );
    assert_eq!(
        editor.remove_partition(5).unwrap_err(),
        EditError::NoSuchPartition { index: 5, count: 2 }
    );
}

/// A filesystem added, read back, and removed again, with every block of the
/// vacated `LSEG` chain zeroed, and the partitions that were relying on it
/// reported rather than rewritten.
#[test]
fn filesystem_add_and_remove_round_trip() {
    let mut disk = MemDisk {
        data: vec![0u8; TEN_MIB_BLOCKS * 512],
        block_size: 512,
    };
    let first = fake_driver(2000);
    RdbBuilder::for_size(TEN_MIB, 512)
        .unwrap()
        .partition(PartitionSpec::by_size(2 * 1024 * 1024).dos_type(0x444F_5307))
        .filesystem(FileSystemSpec::new(0x444F_5307, first.clone()))
        .build(&mut disk)
        .unwrap();

    let second = fake_driver(1500);
    let mut editor = RdbEditor::open(&mut disk).unwrap();
    let index = editor
        .add_filesystem(FileSystemSpec::new(0x444F_5300, second.clone()).version(45, 1))
        .unwrap();
    assert_eq!(index, 1);
    // Unplaced until the commit decides.
    assert_eq!(editor.rdb().filesystems[1].fshd_block, UNPLACED_BLOCK);
    assert_eq!(
        editor.rdb().filesystems[1].seg_list_blocks,
        UNPLACED_BLOCK as u32
    );
    let report = editor.commit(&mut disk).unwrap();
    assert_eq!(report.fshd_blocks.len(), 2);

    let rdb = Rdb::parse(&mut disk).unwrap();
    assert!(rdb.validate().is_empty());
    assert!(rdb.validate_seg_lists(&mut disk).unwrap().is_empty());
    assert_eq!(rdb.filesystems.len(), 2);
    let added = &rdb.filesystems[1];
    assert_eq!(added.dos_type, 0x444F_5300);
    assert_eq!(added.version_major(), 45);
    assert_eq!(added.version_minor(), 1);
    assert_eq!(added.global_vec, Some(fshd_defaults::GLOBAL_VEC));
    assert_eq!(
        added.patch_flags,
        fshd_patch::SEG_LIST | fshd_patch::GLOBAL_VEC
    );
    let loaded = rdb.load_filesystem(added, &mut disk).unwrap();
    assert_eq!(&loaded[..second.len()], &second[..]);
    // The one that was already there is untouched, bytes included.
    let loaded = rdb.load_filesystem(&rdb.filesystems[0], &mut disk).unwrap();
    assert_eq!(&loaded[..first.len()], &first[..]);

    // Now remove the *first* one, whose LSEG chain is five blocks.
    let vacated: Vec<u64> = {
        let fs = &rdb.filesystems[0];
        let mut blocks = vec![fs.fshd_block];
        let mut next = fs.seg_list_blocks;
        while next != CHAIN_END {
            blocks.push(next as u64);
            let mut buf = vec![0u8; 512];
            disk.read_block(next as u64, &mut buf).unwrap();
            next = be32(&buf, chain::NEXT);
        }
        blocks
    };
    assert_eq!(vacated.len(), 6);

    let dos_types: Vec<u32> = rdb.partitions.iter().map(|p| p.dos_type).collect();
    let mut editor = RdbEditor::open(&mut disk).unwrap();
    let affected = editor.remove_filesystem(0).unwrap();
    assert_eq!(affected, vec![0], "the partition relying on it, reported");
    let report = editor.commit(&mut disk).unwrap();
    for lba in &vacated {
        assert!(report.blocks_zeroed.contains(lba), "block {lba} not zeroed");
        let off = *lba as usize * 512;
        assert_eq!(
            &disk.data[off..off + 512],
            &vec![0u8; 512][..],
            "block {lba} still holds its old contents"
        );
    }

    let rdb = Rdb::parse(&mut disk).unwrap();
    assert!(rdb.validate().is_empty());
    assert!(rdb.validate_seg_lists(&mut disk).unwrap().is_empty());
    assert_eq!(rdb.filesystems.len(), 1);
    assert_eq!(rdb.filesystems[0].dos_type, 0x444F_5300);
    // Removing a driver says nothing about the partitions: their dostype is
    // exactly what it was, which is the caller's call to make with the list
    // `remove_filesystem` handed back.
    assert_eq!(
        rdb.partitions
            .iter()
            .map(|p| p.dos_type)
            .collect::<Vec<_>>(),
        dos_types
    );
}

#[test]
fn replace_filesystem_swaps_the_driver_in_place() {
    let mut disk = MemDisk {
        data: vec![0u8; TEN_MIB_BLOCKS * 512],
        block_size: 512,
    };
    RdbBuilder::for_size(TEN_MIB, 512)
        .unwrap()
        .partition(PartitionSpec::by_size(2 * 1024 * 1024).dos_type(0x444F_5307))
        .filesystem(FileSystemSpec::new(0x444F_5307, fake_driver(2000)))
        .build(&mut disk)
        .unwrap();

    let newer = fake_driver(900);
    let mut editor = RdbEditor::open(&mut disk).unwrap();
    assert_eq!(editor.partitions_using_filesystem(0).unwrap(), vec![0]);
    assert_eq!(
        editor.replace_filesystem(3, FileSystemSpec::new(0, Vec::new())),
        Err(EditError::NoSuchFileSystem { index: 3, count: 1 })
    );
    assert_eq!(
        editor.remove_filesystem(3).unwrap_err(),
        EditError::NoSuchFileSystem { index: 3, count: 1 }
    );
    editor
        .replace_filesystem(
            0,
            FileSystemSpec::new(0x444F_5307, newer.clone()).version(46, 2),
        )
        .unwrap();
    editor.commit(&mut disk).unwrap();

    let rdb = Rdb::parse(&mut disk).unwrap();
    assert!(rdb.validate().is_empty());
    assert!(rdb.validate_seg_lists(&mut disk).unwrap().is_empty());
    assert_eq!(rdb.filesystems.len(), 1);
    assert_eq!(rdb.filesystems[0].version_major(), 46);
    let loaded = rdb.load_filesystem(&rdb.filesystems[0], &mut disk).unwrap();
    assert_eq!(&loaded[..newer.len()], &newer[..]);
    // Two blocks of the old five-block chain are no longer needed.
    assert_eq!(loaded.len(), 2 * 492);
}

/// The `BADB` chain, written by us rather than merely preserved: replaced,
/// spread across two blocks when it needs them, and removed again.
#[test]
fn bad_block_list_round_trips_through_the_editor() {
    let mut disk = foreign_disk();
    let mut editor = RdbEditor::open(&mut disk).unwrap();
    assert_eq!(editor.rdb().bad_blocks.len(), 3);

    // 62 entries at 61 per 512-byte block: two blocks, the second holding one
    // entry, so the per-block SummedLongs is exercised on a partial block as
    // well as a full one.
    let entries: Vec<BadBlockEntry> = (0..62)
        .map(|i| BadBlockEntry {
            bad: 1000 + i,
            good: 2000 + i,
        })
        .collect();
    editor.set_bad_blocks(entries.clone());
    assert_eq!(editor.rdb().bad_blocks, entries);
    let report = editor.commit(&mut disk).unwrap();
    // The old chain's blocks were vacated and are back in the pool, so one of
    // them is reused rather than left as litter.
    assert!(report
        .blocks_zeroed
        .iter()
        .all(|b| *b <= F_BLOCKS_HI as u64));

    let rdb = Rdb::parse(&mut disk).unwrap();
    assert!(rdb.validate().is_empty());
    assert_eq!(rdb.bad_blocks, entries);
    assert_eq!(rdb.badb_blocks.len(), 2);
    let first = rdb.badb_blocks[0] as usize;
    assert_eq!(
        be32(&disk.data[first * 512..], hdr::SUMMED_LONGS),
        (badb::HEADER_LONGS + 61 * 2) as u32
    );
    let second = rdb.badb_blocks[1] as usize;
    assert_eq!(
        be32(&disk.data[second * 512..], hdr::SUMMED_LONGS),
        (badb::HEADER_LONGS + 2) as u32
    );

    let mut editor = RdbEditor::open(&mut disk).unwrap();
    editor.remove_bad_blocks();
    let report = editor.commit(&mut disk).unwrap();
    assert_eq!(report.blocks_zeroed.len(), 2);
    for lba in &report.blocks_zeroed {
        let off = *lba as usize * 512;
        assert_eq!(&disk.data[off..off + 512], &vec![0u8; 512][..]);
    }
    let rdb = Rdb::parse(&mut disk).unwrap();
    assert!(rdb.validate().is_empty());
    assert_eq!(rdb.bad_block_list, CHAIN_END);
    assert!(rdb.bad_blocks.is_empty());
    assert!(rdb.badb_blocks.is_empty());
}

/// Crash shape over a *structural* commit, a delete and an add in one, cut off
/// after every possible number of writes.
#[test]
fn commit_truncated_at_every_write_survives_a_structural_edit() {
    struct FlakySink {
        data: Vec<u8>,
        writes: usize,
        fail_after: usize,
    }
    impl BlockSink for FlakySink {
        type Error = ();
        fn block_size(&self) -> usize {
            512
        }
        fn write_block(&mut self, lba: u64, buf: &[u8]) -> Result<(), ()> {
            if self.writes == self.fail_after {
                return Err(());
            }
            self.writes += 1;
            let off = lba as usize * 512;
            self.data[off..off + 512].copy_from_slice(buf);
            Ok(())
        }
        fn block_count(&self) -> Option<u64> {
            Some(self.data.len() as u64 / 512)
        }
    }

    let mut disk = MemDisk {
        data: vec![0u8; TEN_MIB_BLOCKS * 512],
        block_size: 512,
    };
    let driver = fake_driver(2000);
    RdbBuilder::for_size(TEN_MIB, 512)
        .unwrap()
        .partition(PartitionSpec::by_cylinders(1, 100).named("DOOMED"))
        .partition(PartitionSpec::by_cylinders(200, 300).named("KEPT"))
        .filesystem(FileSystemSpec::new(0x444F_5307, driver.clone()))
        .build(&mut disk)
        .unwrap();
    let before = disk.data.clone();

    let mut editor = RdbEditor::open(&mut disk).unwrap();
    editor.remove_partition(0).unwrap();
    editor
        .add_partition(PartitionSpec::by_cylinders(400, 500).named("FRESH"))
        .unwrap();

    let total = editor
        .commit(&mut TrackingSink {
            data: before.clone(),
            writes: Vec::new(),
        })
        .unwrap()
        .blocks_written
        .len();
    assert!(total > 2);

    for fail_after in 0..=total {
        let mut sink = FlakySink {
            data: before.clone(),
            writes: 0,
            fail_after,
        };
        let result = editor.commit(&mut sink);
        if fail_after < total {
            assert_eq!(result.unwrap_err(), CommitError::Io(()));
        } else {
            result.unwrap();
        }

        let mut disk = MemDisk::new(sink.data);
        let rdb = Rdb::parse(&mut disk).unwrap_or_else(|e| {
            panic!("truncated at {fail_after} left no readable RDB: {e:?}")
        });
        assert!(rdb.validate().is_empty(), "truncated at {fail_after}");
        assert!(rdb.validate_seg_lists(&mut disk).unwrap().is_empty());
        let fs = &rdb.filesystems[0];
        let loaded = rdb.load_filesystem(fs, &mut disk).unwrap();
        assert_eq!(&loaded[..driver.len()], &driver[..]);
        // Old or new, whole, with nothing of the other in it.
        let table: Vec<(&str, u32, u32)> = rdb
            .partitions
            .iter()
            .map(|p| (p.name.as_str(), p.low_cyl, p.high_cyl))
            .collect();
        let old = vec![("DOOMED", 1, 100), ("KEPT", 200, 300)];
        let new = vec![("KEPT", 200, 300), ("FRESH", 400, 500)];
        assert!(
            table == old || table == new,
            "truncated at {fail_after} left a table that is neither the old \
             one nor the new one: {table:?}"
        );
    }

    // And the finished article is the new table exactly.
    let mut disk = MemDisk::new(before);
    editor.commit(&mut disk).unwrap();
    let rdb = Rdb::parse(&mut disk).unwrap();
    let names: Vec<&str> = rdb.partitions.iter().map(|p| p.name.as_str()).collect();
    assert_eq!(names, vec!["KEPT", "FRESH"]);
}

/// The failure the chain-shape rule exists for, in its destructive form: the
/// new partition takes the *deleted* one's cylinders.
#[test]
fn commit_never_publishes_a_table_mixing_a_delete_with_its_replacement() {
    struct FlakySink {
        data: Vec<u8>,
        writes: usize,
        fail_after: usize,
    }
    impl BlockSink for FlakySink {
        type Error = ();
        fn block_size(&self) -> usize {
            512
        }
        fn write_block(&mut self, lba: u64, buf: &[u8]) -> Result<(), ()> {
            if self.writes == self.fail_after {
                return Err(());
            }
            self.writes += 1;
            let off = lba as usize * 512;
            self.data[off..off + 512].copy_from_slice(buf);
            Ok(())
        }
        fn block_count(&self) -> Option<u64> {
            Some(self.data.len() as u64 / 512)
        }
    }

    let mut disk = MemDisk {
        data: vec![0u8; TEN_MIB_BLOCKS * 512],
        block_size: 512,
    };
    RdbBuilder::for_size(TEN_MIB, 512)
        .unwrap()
        .partition(PartitionSpec::by_cylinders(1, 100).named("DOOMED"))
        .partition(PartitionSpec::by_cylinders(200, 300).named("KEPT"))
        .build(&mut disk)
        .unwrap();
    let before = disk.data.clone();

    // The head of the chain goes, and the new partition lands on cylinders the
    // old one still claims.
    let mut editor = RdbEditor::open(&mut disk).unwrap();
    editor.remove_partition(0).unwrap();
    editor
        .add_partition(PartitionSpec::by_cylinders(50, 150).named("REUSED"))
        .unwrap();

    let total = editor
        .commit(&mut TrackingSink {
            data: before.clone(),
            writes: Vec::new(),
        })
        .unwrap()
        .blocks_written
        .len();

    for fail_after in 0..=total {
        let mut sink = FlakySink {
            data: before.clone(),
            writes: 0,
            fail_after,
        };
        let _ = editor.commit(&mut sink);

        let mut disk = MemDisk::new(sink.data);
        let rdb = Rdb::parse(&mut disk).unwrap_or_else(|e| {
            panic!("truncated at {fail_after} left no readable RDB: {e:?}")
        });
        let table: Vec<(&str, u32, u32)> = rdb
            .partitions
            .iter()
            .map(|p| (p.name.as_str(), p.low_cyl, p.high_cyl))
            .collect();
        let old = vec![("DOOMED", 1, 100), ("KEPT", 200, 300)];
        let new = vec![("KEPT", 200, 300), ("REUSED", 50, 150)];
        assert!(
            table == old || table == new,
            "truncated at {fail_after} published a mixture: {table:?}"
        );
        assert!(
            rdb.validate().is_empty(),
            "truncated at {fail_after}: {:?}",
            rdb.validate()
        );
    }
}

#[test]
fn editor_errors_display_as_one_useful_line() {
    let edits: [(EditError, &str); 17] = [
        (
            EditError::NoSuchPartition { index: 3, count: 2 },
            "there is no partition 3: the RDB has 2 of them",
        ),
        (
            EditError::InvalidName {
                name: String::from(""),
                max: 31,
            },
            "drive name \"\" does not fit pb_DriveName: 1..=31 characters are available",
        ),
        (
            EditError::DuplicateName {
                name: String::from("DH0"),
            },
            "another partition is already named \"DH0\"",
        ),
        (
            EditError::IdentityTooLong {
                field: "rdb_DiskRevision",
                value: String::from("12345"),
                max: 4,
            },
            "rdb_DiskRevision holds 4 characters, which \"12345\" exceeds",
        ),
        (
            EditError::NoSuchFileSystem { index: 2, count: 1 },
            "there is no filesystem 2: the RDB has 1 of them",
        ),
        (
            EditError::CylindersInverted {
                low_cyl: 9,
                high_cyl: 4,
            },
            "the cylinder range runs backwards: LowCyl 9 is above HighCyl 4",
        ),
        (
            EditError::PastEndOfDisk {
                high_cyl: 700,
                last_cylinder: 639,
            },
            "cylinder 700 is past 639, the last one the disk has",
        ),
        (
            EditError::OverlapsRdbArea {
                low_cyl: 0,
                lo_cylinder: 2,
            },
            "cylinder 0 is inside the RDB area: the first cylinder \
             available to partitions is 2",
        ),
        (
            EditError::PartitionsOverlap {
                index: 1,
                name: String::from("DH1"),
                start: 224,
                len: 64,
            },
            "the extent overlaps partition 1 (\"DH1\") on 64 blocks from block 224",
        ),
        (
            EditError::PartitionTooSmall {
                bytes: 100,
                cylinder_bytes: 16384,
            },
            "100 bytes is less than the 16384-byte cylinder that is the \
             smallest partition",
        ),
        (
            EditError::NoRoomForPartition {
                cylinders: 2,
                largest_gap: 1,
            },
            "no free run of 2 cylinders: the largest gap is 1",
        ),
        (
            EditError::UnusableGeometry {
                heads: 0,
                sectors: 32,
            },
            "a cylinder of 0 heads by 32 sectors holds no blocks",
        ),
        (
            EditError::RdbAreaWouldShrink { hi: 63, new_hi: 15 },
            "RDBBlocksHi 63 is never shrunk: 15 is below it",
        ),
        (
            EditError::RdbAreaBlocked {
                index: 0,
                name: String::from("DH0"),
                new_hi: 64,
                move_to_cylinder: 3,
            },
            "partition 0 (\"DH0\") is inside the blocks an RDBBlocksHi of 64 \
             would claim: move it to cylinder 3 or above first",
        ),
        (
            EditError::LoCylinderBlocked {
                index: 0,
                name: String::from("DH0"),
                low_cyl: 2,
                lo_cylinder: 3,
            },
            "partition 0 (\"DH0\") starts at cylinder 2, below the \
             LoCylinder 3 asked for",
        ),
        (
            EditError::CylindersBelowPartition {
                index: 1,
                name: String::from("DH1"),
                high_cyl: 8,
                cylinders: 6,
            },
            "a disk of 6 cylinders does not reach cylinder 8, \
             where partition 1 (\"DH1\") ends",
        ),
        (
            EditError::ClaimsBlocksPastEndOfDisk {
                last_block: 320,
                disk_blocks: 320,
            },
            "block 320 is past the end of a disk of 320 blocks",
        ),
    ];
    for (e, expected) in edits {
        assert_eq!(e.message(), expected);
    }

    let commits: [(CommitError<&str>, &str); 7] = [
        (
            CommitError::Io("device is read-only"),
            "writing a block failed: device is read-only",
        ),
        (
            CommitError::BlockSizeMismatch {
                rdb: 512,
                sink: 4096,
            },
            "the RDB is in 512-byte blocks but the sink writes 4096-byte blocks",
        ),
        (
            CommitError::RdbAreaInvalid { lo: 9, hi: 4 },
            "RDB area is empty or inverted: RDBBlocksLo 9 is above RDBBlocksHi 4",
        ),
        (
            CommitError::RdskOutsideRdbArea {
                rdsk_block: 3,
                hi: 1,
            },
            "the RDSK block at 3 is above RDBBlocksHi 1, \
             outside the area this edit may write",
        ),
        (
            CommitError::RdbAreaTooSmall {
                needed: 8,
                available: 7,
                lo: 0,
                hi: 6,
            },
            "the RDB area 0..=6 holds 7 blocks but the new layout needs 8; \
             grow it with expand_rdb_area",
        ),
        (
            CommitError::RdbAreaPastEndOfDisk {
                hi: 400,
                block_count: 320,
            },
            "the expanded RDB area ends at block 400, past the 320 blocks the sink has",
        ),
        (
            CommitError::OutsideRdbArea { lba: 99, hi: 15 },
            "refusing to write block 99, which is outside the RDB area 0..=15",
        ),
    ];
    for (e, expected) in commits {
        let cause = match &e {
            CommitError::Io(cause) => cause,
            _ => "",
        };
        assert_eq!(e.message(cause), expected);
    }
}

/// A `PART` block whose extent starts at block 2^55, the one value that makes
/// `lba * 512` wrap to exactly zero.
fn wrapping_start_lba_image() -> Vec<u8> {
    let bs = 512;
    let mut d = one_partition_image(2);
    let e = part::ENVIRONMENT;
    put32(&mut d, bs, 3, e + de::SURFACES * 4, 1 << 15);
    put32(&mut d, bs, 3, e + de::BLOCKS_PER_TRACK * 4, 1 << 15);
    put32(&mut d, bs, 3, e + de::LOW_CYL * 4, 1 << 25);
    put32(&mut d, bs, 3, e + de::HIGH_CYL * 4, 1 << 25);
    seal(&mut d, bs, 3, 64);
    d
}

#[test]
fn seek_block_source_refuses_an_lba_that_wraps_the_byte_offset() {
    let mut image = one_partition_image(2);
    // A recognisable block 0, which is where `lba * 512` wraps to.
    image[..512].iter_mut().for_each(|b| *b = 0x5A);
    let block0 = image[..512].to_vec();
    {
        let mut disk = SeekBlockSource::with_block_size(Cursor::new(&mut image), 512).unwrap();

        let mut buf = vec![0u8; 512];
        let err = BlockSource::read_block(&mut disk, 1 << 55, &mut buf).unwrap_err();
        assert_eq!(err.kind(), std::io::ErrorKind::InvalidInput);
        assert_ne!(buf, block0, "the read answered with block 0's contents");
        assert!(buf.iter().all(|&b| b == 0));

        let err = BlockSink::write_block(&mut disk, 1 << 55, &vec![0xAB; 512]).unwrap_err();
        assert_eq!(err.kind(), std::io::ErrorKind::InvalidInput);
    }
    assert_eq!(image[..512], block0[..], "the write landed on block 0");
}

#[test]
fn partition_source_refuses_a_wrapping_start_over_a_seek_source() {
    let image = wrapping_start_lba_image();
    let rdsk = image[1024..1536].to_vec();
    let mut disk = SeekBlockSource::with_block_size(Cursor::new(image), 512).unwrap();
    let rdb = Rdb::parse(&mut disk).unwrap();
    let p = &rdb.partitions[0];
    assert_eq!(p.start_lba, 1 << 55);
    assert_eq!(p.block_len, 1 << 30);

    let mut view = PartitionSource::new(&mut disk, p);
    let mut buf = vec![0u8; 512];
    let err = view.read_block(0, &mut buf).unwrap_err();
    // Caught by the adapter, on the parent's own block count, before the
    // parent ever sees the LBA.
    assert!(matches!(
        err,
        PartitionSourceError::BeyondParent {
            lba: 0,
            parent_lba: 0x0080_0000_0000_0000,
            block_count: 320,
        }
    ));
    assert_ne!(buf, rdsk, "the read answered with block 0's contents");
}

/// The same guard for a parent that is not a `SeekBlockSource`: the adapter
/// refuses an out-of-range parent LBA itself rather than trusting whatever the
/// parent does with one.
#[test]
fn partition_source_refuses_a_block_past_the_parent() {
    let mut disk = MemDisk::new(wrapping_start_lba_image());
    let rdb = Rdb::parse(&mut disk).unwrap();
    let p = rdb.partitions[0].clone();
    let mut view = PartitionSource::new(&mut disk, &p);
    let mut buf = vec![0u8; 512];
    assert!(matches!(
        view.read_block(1, &mut buf),
        Err(PartitionSourceError::BeyondParent { .. })
    ));
}

/// A `LSEG` chain 10 000 blocks long, a size the *image* chooses, which is the
/// point.
#[test]
fn a_long_lseg_chain_walks_in_linear_time() {
    let bs = 512;
    const CHAIN: usize = 10_000;
    // RDSK at 2, PART at 3, FSHD at 4, LSEG from 5 upward.
    let mut d = vec![0u8; (5 + CHAIN + 1) * bs];
    d[..one_partition_image(2).len()].copy_from_slice(&one_partition_image(2));
    put32(&mut d, bs, 2, rdsk::FILESYS_HEADER_LIST, 4);
    // The area has to cover the chain, or every block of it is an issue rather
    // than a walk.
    put32(&mut d, bs, 2, rdsk::RDB_BLOCKS_HI, (5 + CHAIN) as u32);
    seal(&mut d, bs, 2, 64);
    write_fshd(&mut d, bs, 4, CHAIN_END, 0x444F_5303, 5);
    for i in 0..CHAIN {
        let block = 5 + i;
        put32(&mut d, bs, block, 0, id::LSEG);
        let next = if i + 1 == CHAIN {
            CHAIN_END
        } else {
            (block + 1) as u32
        };
        put32(&mut d, bs, block, chain::NEXT, next);
        seal(&mut d, bs, block, (bs / 4) as u32);
    }

    let mut disk = MemDisk::new(d);
    let rdb = Rdb::parse(&mut disk).unwrap();
    let driver = rdb.load_filesystem(&rdb.filesystems[0], &mut disk).unwrap();
    assert_eq!(driver.len(), CHAIN * LSEG_PAYLOAD);
    assert!(rdb.validate_seg_lists(&mut disk).unwrap().is_empty());
}

/// A source that reports no `block_count` cannot have its chain pointers range-
/// checked, so nothing but [`MAX_CHAIN_BLOCKS`] bounds how long a chain it can
/// be made to walk, and before the cap, nothing did: the walk ran until the
/// visited set exhausted memory.
#[test]
fn a_chain_on_a_countless_source_stops_at_the_hop_cap() {
    /// Every block is a valid `LSEG` pointing at the next one, for ever, and
    /// the source declines to say how many blocks it has.
    struct Endless;

    impl BlockSource for Endless {
        type Error = ();

        fn block_size(&self) -> usize {
            512
        }

        fn read_block(&mut self, lba: u64, buf: &mut [u8]) -> Result<(), ()> {
            buf.iter_mut().for_each(|b| *b = 0);
            buf[..4].copy_from_slice(&id::LSEG.to_be_bytes());
            buf[chain::NEXT..chain::NEXT + 4]
                .copy_from_slice(&((lba as u32).wrapping_add(1)).to_be_bytes());
            // The shortest legal sum, so the test's cost is the walk rather
            // than 128 longwords of checksum per block.
            seal_checksum(&mut buf[..MIN_SUMMED_LONGS as usize * 4], MIN_SUMMED_LONGS)
                .expect("seal");
            Ok(())
        }

        fn block_count(&self) -> Option<u64> {
            None
        }
    }

    let mut buf = vec![0u8; 512];
    let err = walk_chain(&mut Endless, 1, id::LSEG, &mut buf);
    assert_eq!(
        err,
        Err(RdbError::ChainTooLong {
            limit: MAX_CHAIN_BLOCKS
        })
    );
}

/// Two `FSHD` blocks whose `fhb_SegListBlocks` name the *same* `LSEG` chain,
/// the amplification shape: `k` filesystems retain `k` copies of one chain, and
/// an edit to either rewrites both.
fn shared_chain_image() -> Vec<u8> {
    let (mut d, _) = fs_image();
    let bs = 512;
    // A second FSHD at block 9, chained after the first, pointing at the
    // first's LSEG head.
    put32(&mut d, bs, FSHD_BLOCK, chain::NEXT, 9);
    seal(&mut d, bs, FSHD_BLOCK, 64);
    write_fshd(&mut d, bs, 9, CHAIN_END, 0x444F_5303, LSEG_BLOCK as u32);
    d
}

/// The editor holds every block of every chain, so aliased chains are both a
/// memory amplification and an unrepresentable edit: a commit would write one
/// driver's blocks twice, from two different buffers.
#[test]
fn open_refuses_two_filesystems_sharing_an_lseg_chain() {
    let mut disk = MemDisk::new(shared_chain_image());
    // The parser is happy: it walks one chain at a time and reads each of them
    // correctly.
    let rdb = Rdb::parse(&mut disk).unwrap();
    assert_eq!(rdb.filesystems.len(), 2);
    assert_eq!(
        RdbEditor::open(&mut disk),
        Err(RdbError::SharedChain {
            lba: LSEG_BLOCK as u64
        })
    );
}

/// Validation reports the same damage rather than refusing it, and once per
/// colliding filesystem, not once per shared block, since the image chooses how
/// many of those there are.
#[test]
fn validate_seg_lists_reports_a_shared_lseg_chain() {
    let mut disk = MemDisk::new(shared_chain_image());
    let rdb = Rdb::parse(&mut disk).unwrap();
    assert_eq!(
        rdb.validate_seg_lists(&mut disk).unwrap(),
        vec![ValidationIssue::SharedLsegChain {
            index: 1,
            other: 0,
            lba: LSEG_BLOCK as u64,
        }]
    );
}

/// Three partitions that all claim the same blocks.
#[test]
fn validate_reports_every_overlapping_pair() {
    let bs = 512;
    let mut d = one_partition_image(2);
    write_part(&mut d, bs, 3, 4, "DH0", 128, (2, 5), 16);
    write_part(&mut d, bs, 4, 5, "DH1", 128, (3, 6), 16);
    write_part(&mut d, bs, 5, CHAIN_END, "DH2", 128, (4, 7), 16);
    put32(&mut d, bs, 2, rdsk::HIGH_RDSK_BLOCK, 5);
    seal(&mut d, bs, 2, 64);

    let mut disk = MemDisk::new(d);
    let rdb = Rdb::parse(&mut disk).unwrap();
    let pairs: Vec<(usize, usize)> = rdb
        .validate()
        .into_iter()
        .filter_map(|i| match i {
            ValidationIssue::PartitionsOverlap { a, b, .. } => Some((a, b)),
            _ => None,
        })
        .collect();
    assert_eq!(pairs, vec![(0, 1), (0, 2), (1, 2)]);
}

/// `rdb()` is the edited model, and a model that still named a removed `FSHD`
/// as its chain head was contradicting itself: a caller reading it between the
/// edit and the commit saw a head block with no filesystem behind it.
#[test]
fn removing_a_filesystem_updates_the_chain_head_in_the_model() {
    let (image, _) = fs_image();
    let mut disk = MemDisk::new(image);
    let mut editor = RdbEditor::open(&mut disk).unwrap();
    assert_eq!(editor.rdb().filesys_header_list, FSHD_BLOCK as u32);

    editor.remove_filesystem(0).unwrap();
    assert!(editor.rdb().filesystems.is_empty());
    assert_eq!(editor.rdb().filesys_header_list, CHAIN_END);

    // And an added one reads as unplaced, CHAIN_END until a commit gives it a
    // block, rather than as the removed one's block.
    editor
        .add_filesystem(FileSystemSpec::new(0x444F_5303, vec![0xAB; 100]))
        .unwrap();
    assert_eq!(editor.rdb().filesys_header_list, CHAIN_END);
    editor.commit(&mut disk).unwrap();
    let rdb = Rdb::parse(&mut disk).unwrap();
    assert_eq!(rdb.filesystems.len(), 1);
    assert_ne!(rdb.filesys_header_list, CHAIN_END);
}
