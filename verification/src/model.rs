//! What a partition table says: the parsed structures.
use vstd::prelude::*;

use crate::bytes::be32;
use crate::text::latin1_string;
use crate::{arith, badb, bytes, de, fshd, fshd_patch, hdr, part, rdsk, text};

verus! {

/// One partition, as read from a `PART` block.
///
/// All block quantities (`start_lba`, `block_len`, `cylinder_blocks`) are
/// *device* blocks, never `de_SizeBlock` filesystem blocks.
#[derive(Debug, Clone, PartialEq, Eq)]
pub struct Partition {
    /// LBA of the `PART` block this came from.
    pub part_block: u64,
    /// The drive name (`pb_DriveName`, BCPL string), e.g. `DH0`.
    pub name: String,
    /// `pb_Flags` bit 0: bootable.
    pub bootable: bool,
    /// `pb_Flags` bit 1: present but not to be mounted automatically.
    pub no_automount: bool,
    /// First block of the partition: `de_LowCyl * cylinder_blocks`,
    /// saturating.
    pub start_lba: u64,
    /// Number of device blocks: `(high_cyl - low_cyl + 1) * cylinder_blocks`,
    /// saturating, and zero when the cylinder range is inverted or when
    /// `de_TableSize` stops short of it.
    pub block_len: u64,
    /// `de_DosType`, e.g. `0x444F5303` (`DOS\x03`).
    pub dos_type: u32,
    /// `de_BootPri`.
    pub boot_pri: i32,
    /// `de_MaxTransfer`.
    pub max_transfer: u32,
    /// `de_Mask`.
    pub mask: u32,
    /// Device blocks per cylinder (`de_Surfaces * de_BlocksPerTrack`).
    pub cylinder_blocks: u64,
    /// `de_LowCyl`: the partition's first cylinder.
    pub low_cyl: u32,
    /// `de_HighCyl`: its last cylinder, *inclusive*.
    pub high_cyl: u32,
    /// `de_NumBuffers`.
    pub num_buffers: u32,
    /// `de_BufMemType`.
    pub buf_mem_type: u32,
    /// `de_SizeBlock` in longwords (128 is 512-byte filesystem blocks).
    pub size_block_longs: u32,
    /// `de_Baud`. `None` when `de_TableSize` stops short of it.
    pub baud: Option<u32>,
    /// `de_Control`, on the same terms.
    pub control: Option<u32>,
    /// `de_BootBlocks`, on the same terms.
    pub boot_blocks: Option<u32>,
    /// The `DosEnvec` as raw longwords, `de_TableSize` itself included,
    /// clamped to what fits the block.
    pub envec_raw: Vec<u32>,
}

/// One loadable filesystem driver, as read from a `FSHD` block.
///
/// The eight [`Option`] fields are gated by `patch_flags`: `None` means the
/// block does not override that device-node field at all.
#[derive(Debug, Clone, PartialEq, Eq)]
pub struct FileSysHeader {
    /// LBA of the `FSHD` block this came from.
    pub fshd_block: u64,
    /// `fhb_HostID`.
    pub host_id: u32,
    /// `fhb_Flags`.
    pub flags: u32,
    /// `fhb_DosType`: which partitions this driver serves.
    pub dos_type: u32,
    /// `fhb_Version`, raw: major in the high 16 bits, minor in the low.
    pub version: u32,
    /// `fhb_PatchFlags`: which of the fields below are significant.
    pub patch_flags: u32,
    /// `fhb_Type`.
    pub node_type: Option<u32>,
    /// `fhb_Task`.
    pub task: Option<u32>,
    /// `fhb_Lock`.
    pub lock: Option<u32>,
    /// `fhb_Handler`.
    pub handler: Option<u32>,
    /// `fhb_StackSize`.
    pub stack_size: Option<u32>,
    /// `fhb_Priority`.
    pub priority: Option<i32>,
    /// `fhb_Startup`.
    pub startup: Option<i32>,
    /// `fhb_GlobalVec`.
    pub global_vec: Option<i32>,
    /// `fhb_SegListBlocks`: head of this driver's `LSEG` chain, or the chain
    /// terminator when there is no binary. Read whatever the patch flags say.
    pub seg_list_blocks: u32,
}

impl FileSysHeader {
    /// Major version: `fhb_Version >> 16`.
    pub fn version_major(&self) -> (r: u16)
        ensures
            r == self.version / 0x1_0000,
    {
        (self.version / 0x1_0000) as u16
    }

    /// Minor version: the low 16 bits of `fhb_Version`.
    pub fn version_minor(&self) -> (r: u16)
        ensures
            r == self.version % 0x1_0000,
    {
        (self.version % 0x1_0000) as u16
    }
}

/// One bad-block remapping: the drive block that went bad, and the spare that
/// stands in for it.
#[derive(Debug, Clone, Copy, PartialEq, Eq, Structural)]
pub struct BadBlockEntry {
    /// The failed block.
    pub bad: u32,
    /// The block substituted for it.
    pub good: u32,
}

/// A parsed RDB: the disk-level header, its partitions, its loadable
/// filesystems and its bad-block list.
#[derive(Debug, Clone, PartialEq, Eq)]
pub struct Rdb {
    /// LBA the `RDSK` block was found at.
    pub rdsk_block: u64,
    /// `rdb_BlockBytes`: bytes per device block.
    pub block_bytes: u32,
    /// `rdb_Flags`.
    pub flags: u32,
    /// `rdb_HostID`.
    pub host_id: u32,
    /// `rdb_DriveInit`, carried and never followed.
    pub drive_init: u32,
    /// `rdb_Cylinders`.
    pub cylinders: u32,
    /// `rdb_Heads`: surfaces per cylinder.
    pub heads: u32,
    /// `rdb_Sectors`: blocks per track.
    pub sectors: u32,
    /// `rdb_Interleave`.
    pub interleave: u32,
    /// `rdb_Park`.
    pub park: u32,
    /// `rdb_WritePreComp`.
    pub write_pre_comp: u32,
    /// `rdb_ReducedWrite`.
    pub reduced_write: u32,
    /// `rdb_StepRate`.
    pub step_rate: u32,
    /// `rdb_RDBBlocksLo`: first block of the area the RDB structures occupy.
    pub rdb_blocks_lo: u32,
    /// `rdb_RDBBlocksHi`: the last block of that area, *inclusive*.
    pub rdb_blocks_hi: u32,
    /// `rdb_LoCylinder`: first cylinder available to partitions.
    pub lo_cylinder: u32,
    /// `rdb_HiCylinder`: the last such cylinder, *inclusive*.
    pub hi_cylinder: u32,
    /// `rdb_CylBlocks`: device blocks per cylinder as the drive declares it.
    pub cyl_blocks: u32,
    /// `rdb_AutoParkSeconds`.
    pub auto_park_seconds: u32,
    /// `rdb_HighRDSKBlock`: the highest block any RDB structure occupies.
    pub high_rdsk_block: u32,
    /// `rdb_DiskVendor`, meaningful only under `rdb_flags::DISK_ID`.
    pub disk_vendor: String,
    /// `rdb_DiskProduct`, on the same terms.
    pub disk_product: String,
    /// `rdb_DiskRevision`, on the same terms.
    pub disk_revision: String,
    /// `rdb_ControllerVendor`, meaningful only under `rdb_flags::CTRLR_ID`.
    pub controller_vendor: String,
    /// `rdb_ControllerProduct`, on the same terms.
    pub controller_product: String,
    /// `rdb_ControllerRevision`, on the same terms.
    pub controller_revision: String,
    /// Head of the `FSHD` chain.
    pub filesys_header_list: u32,
    /// Head of the `BADB` chain.
    pub bad_block_list: u32,
    /// Partitions in on-disk chain order.
    pub partitions: Vec<Partition>,
    /// Loadable filesystems in `FSHD` chain order.
    pub filesystems: Vec<FileSysHeader>,
    /// Bad-block remappings, flattened across every `BADB` block in the chain.
    pub bad_blocks: Vec<BadBlockEntry>,
    /// LBAs of the `BADB` blocks, in chain order.
    pub badb_blocks: Vec<u64>,
}

/// Envec longword `i` of a `PART` block.
pub open spec fn envec(b: Seq<u8>, i: int) -> u32 {
    bytes::long_at(b, part::ENVIRONMENT + 4 * i)
}

/// How many envec longwords a `PART` block physically holds.
pub open spec fn envec_capacity(b: Seq<u8>) -> int {
    (b.len() - part::ENVIRONMENT) / 4
}

/// Envec longword `i`, where the envec declares it and the block holds it.
pub open spec fn envec_present(b: Seq<u8>, i: int) -> Option<u32> {
    if envec(b, de::TABLE_SIZE as int) >= i && i < envec_capacity(b) {
        Some(envec(b, i))
    } else {
        None
    }
}

/// Envec longword `i`, or zero where it is absent.
pub open spec fn envec_field(b: Seq<u8>, i: int) -> u32 {
    match envec_present(b, i) {
        Some(v) => v,
        None => 0,
    }
}

/// How many longwords the envec declares, itself included, clamped to what the
/// block holds.
pub open spec fn envec_len(b: Seq<u8>) -> int {
    if envec(b, de::TABLE_SIZE as int) + 1 <= envec_capacity(b) {
        envec(b, de::TABLE_SIZE as int) + 1
    } else {
        envec_capacity(b)
    }
}

/// How many characters a `PART` block's name has, at most 31.
pub open spec fn drive_name_len(b: Seq<u8>) -> int {
    if b[part::DRIVE_NAME as int] <= 31 {
        b[part::DRIVE_NAME as int] as int
    } else {
        31
    }
}

/// The name in a `PART` block.
pub open spec fn drive_name(b: Seq<u8>) -> Seq<char> {
    text::latin1(
        b.subrange(part::DRIVE_NAME + 1, part::DRIVE_NAME + 1 + drive_name_len(b)),
    )
}

/// How many blocks an extent of cylinders `low..=high` has, saturating; none
/// where the range is inverted.
pub open spec fn extent_len(low: u32, high: u32, cylinder_blocks: int) -> u64 {
    if high >= low {
        arith::saturated((high - low + 1) * cylinder_blocks)
    } else {
        0
    }
}

/// `p` is what the `PART` block `b`, found at `lba`, says.
pub open spec fn part_reads(p: Partition, b: Seq<u8>, lba: u64) -> bool {
    let flags = bytes::long_at(b, part::FLAGS as int);
    &&& p.part_block == lba
    &&& p.name@ == drive_name(b)
    &&& p.bootable == (flags & 1 != 0)
    &&& p.no_automount == (flags & 2 != 0)
    &&& p.cylinder_blocks == envec_field(b, de::SURFACES as int) * envec_field(
        b,
        de::BLOCKS_PER_TRACK as int,
    )
    &&& p.low_cyl == envec_field(b, de::LOW_CYL as int)
    &&& p.high_cyl == envec_field(b, de::HIGH_CYL as int)
    &&& p.start_lba == arith::saturated(p.low_cyl * p.cylinder_blocks)
    &&& p.block_len == if envec_present(b, de::HIGH_CYL as int) is Some {
        extent_len(p.low_cyl, p.high_cyl, p.cylinder_blocks as int)
    } else {
        0
    }
    &&& p.dos_type == envec_field(b, de::DOS_TYPE as int)
    &&& p.boot_pri == envec_field(b, de::BOOT_PRI as int) as i32
    &&& p.max_transfer == envec_field(b, de::MAX_TRANSFER as int)
    &&& p.mask == envec_field(b, de::MASK as int)
    &&& p.num_buffers == envec_field(b, de::NUM_BUFFERS as int)
    &&& p.buf_mem_type == envec_field(b, de::BUF_MEM_TYPE as int)
    &&& p.size_block_longs == envec_field(b, de::SIZE_BLOCK as int)
    &&& p.baud == envec_present(b, de::BAUD as int)
    &&& p.control == envec_present(b, de::CONTROL as int)
    &&& p.boot_blocks == envec_present(b, de::BOOT_BLOCKS as int)
    &&& p.envec_raw@ == Seq::new(envec_len(b) as nat, |i: int| envec(b, i))
}

/// Envec longword `i` of `block`, where the envec declares it and the block
/// holds it.
fn present(block: &[u8], i: usize) -> (r: Option<u32>)
    requires
        block@.len() >= 512,
        i < 96,
    ensures
        r == envec_present(block@, i as int),
{
    let table_size: u32 = be32(block, part::ENVIRONMENT);
    if table_size as usize >= i && i < (block.len() - part::ENVIRONMENT) / 4 {
        Some(be32(block, part::ENVIRONMENT + i * 4))
    } else {
        None
    }
}

/// Envec longword `i` of `block`, or zero where it is absent.
fn field(block: &[u8], i: usize) -> (r: u32)
    requires
        block@.len() >= 512,
        i < 96,
    ensures
        r == envec_field(block@, i as int),
{
    match present(block, i) {
        Some(v) => v,
        None => 0,
    }
}

/// The envec's longwords, as many as it declares and the block holds.
fn raw_envec(block: &[u8]) -> (r: Vec<u32>)
    requires
        block@.len() >= 512,
    ensures
        r@ == Seq::new(envec_len(block@) as nat, |i: int| envec(block@, i)),
{
    let table_size: u32 = be32(block, part::ENVIRONMENT);
    let capacity: usize = (block.len() - part::ENVIRONMENT) / 4;
    let len: usize = if (table_size as usize) < capacity {
        table_size as usize + 1
    } else {
        capacity
    };
    let mut raw: Vec<u32> = Vec::new();
    let mut i: usize = 0;
    while i < len
        invariant
            i <= len,
            len <= capacity,
            capacity == (block.len() - part::ENVIRONMENT) / 4,
            block.len() >= 512,
            raw@ =~= Seq::new(i as nat, |j: int| envec(block@, j)),
        decreases len - i,
    {
        raw.push(be32(block, part::ENVIRONMENT + i * 4));
        i += 1;
    }
    raw
}

/// Parse one `PART` block. Infallible: every field is either present, or
/// absent and reported as such. A field the declared envec does not reach
/// reads as zero. An envec that stops short of `de_HighCyl` describes no
/// extent: the partition has no blocks.
pub fn parse_part(block: &[u8], lba: u64) -> (p: Partition)
    requires
        block@.len() >= 512,
    ensures
        part_reads(p, block@, lba),
{
    let name_byte: u8 = block[part::DRIVE_NAME];
    let name_len: usize = if name_byte <= 31 {
        name_byte as usize
    } else {
        31
    };
    let name: String = latin1_string(
        vstd::slice::slice_subrange(block, part::DRIVE_NAME + 1, part::DRIVE_NAME + 1 + name_len),
    );
    let surfaces: u32 = field(block, de::SURFACES);
    let blocks_per_track: u32 = field(block, de::BLOCKS_PER_TRACK);
    let cylinder_blocks: u64 = arith::mul32(surfaces, blocks_per_track);
    let low_cyl: u32 = field(block, de::LOW_CYL);
    let high_cyl: u32 = field(block, de::HIGH_CYL);
    let flags: u32 = be32(block, part::FLAGS);
    let block_len: u64 = if present(block, de::HIGH_CYL).is_some() && high_cyl >= low_cyl {
        arith::sat_mul((high_cyl - low_cyl) as u64 + 1, cylinder_blocks)
    } else {
        0
    };
    Partition {
        part_block: lba,
        name,
        bootable: flags & 1 != 0,
        no_automount: flags & 2 != 0,
        start_lba: arith::sat_mul(low_cyl as u64, cylinder_blocks),
        block_len,
        dos_type: field(block, de::DOS_TYPE),
        boot_pri: field(block, de::BOOT_PRI) as i32,
        max_transfer: field(block, de::MAX_TRANSFER),
        mask: field(block, de::MASK),
        cylinder_blocks,
        low_cyl,
        high_cyl,
        num_buffers: field(block, de::NUM_BUFFERS),
        buf_mem_type: field(block, de::BUF_MEM_TYPE),
        size_block_longs: field(block, de::SIZE_BLOCK),
        baud: present(block, de::BAUD),
        control: present(block, de::CONTROL),
        boot_blocks: present(block, de::BOOT_BLOCKS),
        envec_raw: raw_envec(block),
    }
}

/// Patched longword `i` of a `FSHD` block.
pub open spec fn patched_long(b: Seq<u8>, i: int) -> u32 {
    bytes::long_at(b, fshd::PATCHED + 4 * i)
}

/// Patched longword `i`, where the patch flags have `bit`.
pub open spec fn gated_long(b: Seq<u8>, bit: u32, i: int) -> Option<u32> {
    if bytes::long_at(b, fshd::PATCH_FLAGS as int) & bit != 0 {
        Some(patched_long(b, i))
    } else {
        None
    }
}

/// The same, signed.
pub open spec fn gated_signed(b: Seq<u8>, bit: u32, i: int) -> Option<i32> {
    match gated_long(b, bit, i) {
        Some(v) => Some(v as i32),
        None => None,
    }
}

/// The `fhb_SegListBlocks` pointer of a `FSHD` block.
pub open spec fn seg_list_of(b: Seq<u8>) -> u32 {
    bytes::long_at(b, fshd::SEG_LIST as int)
}

/// `f` is what the `FSHD` block `b`, found at `lba`, says, its driver chain's
/// head aside.
pub open spec fn fshd_reads_but_head(f: FileSysHeader, b: Seq<u8>, lba: u64) -> bool {
    &&& f.fshd_block == lba
    &&& f.host_id == bytes::long_at(b, fshd::HOST_ID as int)
    &&& f.flags == bytes::long_at(b, fshd::FLAGS as int)
    &&& f.dos_type == bytes::long_at(b, fshd::DOS_TYPE as int)
    &&& f.version == bytes::long_at(b, fshd::VERSION as int)
    &&& f.patch_flags == bytes::long_at(b, fshd::PATCH_FLAGS as int)
    &&& f.node_type == gated_long(b, fshd_patch::TYPE, 0)
    &&& f.task == gated_long(b, fshd_patch::TASK, 1)
    &&& f.lock == gated_long(b, fshd_patch::LOCK, 2)
    &&& f.handler == gated_long(b, fshd_patch::HANDLER, 3)
    &&& f.stack_size == gated_long(b, fshd_patch::STACK_SIZE, 4)
    &&& f.priority == gated_signed(b, fshd_patch::PRIORITY, 5)
    &&& f.startup == gated_signed(b, fshd_patch::STARTUP, 6)
    &&& f.global_vec == gated_signed(b, fshd_patch::GLOBAL_VEC, 8)
}

/// `f` is what the `FSHD` block `b`, found at `lba`, says.
pub open spec fn fshd_reads(f: FileSysHeader, b: Seq<u8>, lba: u64) -> bool {
    fshd_reads_but_head(f, b, lba) && f.seg_list_blocks == seg_list_of(b)
}

/// Patched longword `i`, where the patch flags have `bit`.
fn gated(block: &[u8], bit: u32, i: usize) -> (r: Option<u32>)
    requires
        block@.len() >= 512,
        i < 9,
    ensures
        r == gated_long(block@, bit, i as int),
{
    if be32(block, fshd::PATCH_FLAGS) & bit != 0 {
        Some(be32(block, fshd::PATCHED + i * 4))
    } else {
        None
    }
}

/// The same, signed.
fn gated_i32(block: &[u8], bit: u32, i: usize) -> (r: Option<i32>)
    requires
        block@.len() >= 512,
        i < 9,
    ensures
        r == gated_signed(block@, bit, i as int),
{
    match gated(block, bit, i) {
        Some(v) => Some(v as i32),
        None => None,
    }
}

/// Parse a verified `FSHD` block.
pub fn parse_fshd(block: &[u8], lba: u64) -> (f: FileSysHeader)
    requires
        block@.len() >= 512,
    ensures
        fshd_reads(f, block@, lba),
{
    FileSysHeader {
        fshd_block: lba,
        host_id: be32(block, fshd::HOST_ID),
        flags: be32(block, fshd::FLAGS),
        dos_type: be32(block, fshd::DOS_TYPE),
        version: be32(block, fshd::VERSION),
        patch_flags: be32(block, fshd::PATCH_FLAGS),
        node_type: gated(block, fshd_patch::TYPE, 0),
        task: gated(block, fshd_patch::TASK, 1),
        lock: gated(block, fshd_patch::LOCK, 2),
        handler: gated(block, fshd_patch::HANDLER, 3),
        stack_size: gated(block, fshd_patch::STACK_SIZE, 4),
        priority: gated_i32(block, fshd_patch::PRIORITY, 5),
        startup: gated_i32(block, fshd_patch::STARTUP, 6),
        global_vec: gated_i32(block, fshd_patch::GLOBAL_VEC, 8),
        seg_list_blocks: be32(block, fshd::SEG_LIST),
    }
}

/// How many entries a `BADB` block declares, clamped to what it holds.
pub open spec fn badb_pairs(b: Seq<u8>) -> int {
    let declared = bytes::long_at(b, hdr::SUMMED_LONGS as int) - badb::HEADER_LONGS;
    let capacity = (b.len() - badb::ENTRIES) / 4;
    if declared < 0 {
        0
    } else if declared <= capacity {
        declared / 2
    } else {
        capacity / 2
    }
}

/// Entry `i` of a `BADB` block.
pub open spec fn badb_entry(b: Seq<u8>, i: int) -> BadBlockEntry {
    BadBlockEntry {
        bad: bytes::long_at(b, badb::ENTRIES + 8 * i),
        good: bytes::long_at(b, badb::ENTRIES + 8 * i + 4),
    }
}

/// The entries of a `BADB` block.
pub open spec fn badb_entries(b: Seq<u8>) -> Seq<BadBlockEntry> {
    Seq::new(badb_pairs(b) as nat, |i: int| badb_entry(b, i))
}

/// Append a verified `BADB` block's entries to `out`. The entry count is
/// clamped to what the block holds, whatever `SummedLongs` says.
pub fn parse_badb(block: &[u8], out: &mut Vec<BadBlockEntry>)
    requires
        block@.len() >= 512,
    ensures
        final(out)@ == old(out)@ + badb_entries(block@),
{
    let summed_longs: u32 = be32(block, hdr::SUMMED_LONGS);
    let entry_longs: usize = if summed_longs as usize >= badb::HEADER_LONGS {
        summed_longs as usize - badb::HEADER_LONGS
    } else {
        0
    };
    let capacity: usize = (block.len() - badb::ENTRIES) / 4;
    let pairs: usize = if entry_longs <= capacity {
        entry_longs / 2
    } else {
        capacity / 2
    };
    assert(pairs == badb_pairs(block@));
    let mut i: usize = 0;
    while i < pairs
        invariant
            i <= pairs,
            pairs <= capacity / 2,
            capacity == (block.len() - badb::ENTRIES) / 4,
            block.len() >= 512,
            pairs == badb_pairs(block@),
            out@ =~= old(out)@ + badb_entries(block@).subrange(0, i as int),
        decreases pairs - i,
    {
        let off: usize = badb::ENTRIES + i * 8;
        out.push(BadBlockEntry { bad: be32(block, off), good: be32(block, off + 4) });
        assert(badb_entries(block@).subrange(0, i + 1) =~= badb_entries(block@).subrange(
            0,
            i as int,
        ).push(badb_entry(block@, i as int)));
        i += 1;
    }
    assert(badb_entries(block@).subrange(0, pairs as int) =~= badb_entries(block@));
}

/// `s` without the spaces and NULs at its end.
pub open spec fn trimmed(s: Seq<u8>) -> Seq<u8>
    decreases s.len(),
{
    if s.len() > 0 && (s.last() == 0x20 || s.last() == 0) {
        trimmed(s.drop_last())
    } else {
        s
    }
}

/// The text of a fixed-width, space-padded field, `at` giving its offset and
/// its length.
pub open spec fn padded_text(b: Seq<u8>, at: (usize, usize)) -> Seq<char> {
    text::latin1(trimmed(b.subrange(at.0 as int, at.0 + at.1)))
}

/// Read a fixed-width, space-padded field. Bytes become characters one for
/// one; spaces and NULs at the end are trimmed.
pub fn padded_ascii(block: &[u8], at: (usize, usize)) -> (r: String)
    requires
        at.0 + at.1 <= block@.len(),
    ensures
        r@ == padded_text(block@, at),
{
    let (off, len) = at;
    let mut end: usize = len;
    assert(block@.len() == block.len());
    let ghost field = block@.subrange(off as int, off + len);
    assert(field.subrange(0, len as int) =~= field);
    while end > 0 && (block[off + end - 1] == 0x20 || block[off + end - 1] == 0)
        invariant
            end <= len,
            off + len <= block.len(),
            field == block@.subrange(off as int, off + len),
            trimmed(field.subrange(0, end as int)) == trimmed(field),
        decreases end,
    {
        assert(field.subrange(0, end as int).drop_last() =~= field.subrange(0, end - 1));
        assert(field.subrange(0, end as int).last() == block@[off + end - 1]);
        end -= 1;
    }
    assert(trimmed(field.subrange(0, end as int)) == field.subrange(0, end as int)) by {
        if end > 0 {
            assert(field.subrange(0, end as int).last() == block@[off + end - 1]);
        }
    }
    let text = vstd::slice::slice_subrange(block, off, off + end);
    assert(text@ =~= field.subrange(0, end as int));
    latin1_string(text)
}

/// The disk-level fields of `rdb` are what the `RDSK` block `b`, found at
/// `lba`, says, the heads of its chains aside.
pub open spec fn rdsk_reads_but_heads(rdb: Rdb, b: Seq<u8>, lba: u64) -> bool {
    &&& rdb.rdsk_block == lba
    &&& rdb.block_bytes == bytes::long_at(b, rdsk::BLOCK_BYTES as int)
    &&& rdb.flags == bytes::long_at(b, rdsk::FLAGS as int)
    &&& rdb.host_id == bytes::long_at(b, rdsk::HOST_ID as int)
    &&& rdb.drive_init == bytes::long_at(b, rdsk::DRIVE_INIT as int)
    &&& rdb.cylinders == bytes::long_at(b, rdsk::CYLINDERS as int)
    &&& rdb.heads == bytes::long_at(b, rdsk::HEADS as int)
    &&& rdb.sectors == bytes::long_at(b, rdsk::SECTORS as int)
    &&& rdb.interleave == bytes::long_at(b, rdsk::INTERLEAVE as int)
    &&& rdb.park == bytes::long_at(b, rdsk::PARK as int)
    &&& rdb.write_pre_comp == bytes::long_at(b, rdsk::WRITE_PRE_COMP as int)
    &&& rdb.reduced_write == bytes::long_at(b, rdsk::REDUCED_WRITE as int)
    &&& rdb.step_rate == bytes::long_at(b, rdsk::STEP_RATE as int)
    &&& rdb.rdb_blocks_lo == bytes::long_at(b, rdsk::RDB_BLOCKS_LO as int)
    &&& rdb.rdb_blocks_hi == bytes::long_at(b, rdsk::RDB_BLOCKS_HI as int)
    &&& rdb.lo_cylinder == bytes::long_at(b, rdsk::LO_CYLINDER as int)
    &&& rdb.hi_cylinder == bytes::long_at(b, rdsk::HI_CYLINDER as int)
    &&& rdb.cyl_blocks == bytes::long_at(b, rdsk::CYL_BLOCKS as int)
    &&& rdb.auto_park_seconds == bytes::long_at(b, rdsk::AUTO_PARK_SECONDS as int)
    &&& rdb.high_rdsk_block == bytes::long_at(b, rdsk::HIGH_RDSK_BLOCK as int)
    &&& rdb.disk_vendor@ == padded_text(b, rdsk::DISK_VENDOR)
    &&& rdb.disk_product@ == padded_text(b, rdsk::DISK_PRODUCT)
    &&& rdb.disk_revision@ == padded_text(b, rdsk::DISK_REVISION)
    &&& rdb.controller_vendor@ == padded_text(b, rdsk::CONTROLLER_VENDOR)
    &&& rdb.controller_product@ == padded_text(b, rdsk::CONTROLLER_PRODUCT)
    &&& rdb.controller_revision@ == padded_text(b, rdsk::CONTROLLER_REVISION)
}

/// The disk-level fields of `rdb` are what the `RDSK` block `b`, found at
/// `lba`, says.
pub open spec fn rdsk_reads(rdb: Rdb, b: Seq<u8>, lba: u64) -> bool {
    &&& rdsk_reads_but_heads(rdb, b, lba)
    &&& rdb.filesys_header_list == bytes::long_at(b, rdsk::FILESYS_HEADER_LIST as int)
    &&& rdb.bad_block_list == bytes::long_at(b, rdsk::BAD_BLOCK_LIST as int)
}

/// Parse the disk-level fields of a `RDSK` block; the lists are left empty.
pub fn parse_rdsk(block: &[u8], lba: u64) -> (rdb: Rdb)
    requires
        block@.len() >= 512,
    ensures
        rdsk_reads(rdb, block@, lba),
        rdb.partitions@.len() == 0,
        rdb.filesystems@.len() == 0,
        rdb.bad_blocks@.len() == 0,
        rdb.badb_blocks@.len() == 0,
{
    Rdb {
        rdsk_block: lba,
        block_bytes: be32(block, rdsk::BLOCK_BYTES),
        flags: be32(block, rdsk::FLAGS),
        host_id: be32(block, rdsk::HOST_ID),
        drive_init: be32(block, rdsk::DRIVE_INIT),
        cylinders: be32(block, rdsk::CYLINDERS),
        heads: be32(block, rdsk::HEADS),
        sectors: be32(block, rdsk::SECTORS),
        interleave: be32(block, rdsk::INTERLEAVE),
        park: be32(block, rdsk::PARK),
        write_pre_comp: be32(block, rdsk::WRITE_PRE_COMP),
        reduced_write: be32(block, rdsk::REDUCED_WRITE),
        step_rate: be32(block, rdsk::STEP_RATE),
        rdb_blocks_lo: be32(block, rdsk::RDB_BLOCKS_LO),
        rdb_blocks_hi: be32(block, rdsk::RDB_BLOCKS_HI),
        lo_cylinder: be32(block, rdsk::LO_CYLINDER),
        hi_cylinder: be32(block, rdsk::HI_CYLINDER),
        cyl_blocks: be32(block, rdsk::CYL_BLOCKS),
        auto_park_seconds: be32(block, rdsk::AUTO_PARK_SECONDS),
        high_rdsk_block: be32(block, rdsk::HIGH_RDSK_BLOCK),
        disk_vendor: padded_ascii(block, rdsk::DISK_VENDOR),
        disk_product: padded_ascii(block, rdsk::DISK_PRODUCT),
        disk_revision: padded_ascii(block, rdsk::DISK_REVISION),
        controller_vendor: padded_ascii(block, rdsk::CONTROLLER_VENDOR),
        controller_product: padded_ascii(block, rdsk::CONTROLLER_PRODUCT),
        controller_revision: padded_ascii(block, rdsk::CONTROLLER_REVISION),
        filesys_header_list: be32(block, rdsk::FILESYS_HEADER_LIST),
        bad_block_list: be32(block, rdsk::BAD_BLOCK_LIST),
        partitions: Vec::new(),
        filesystems: Vec::new(),
        bad_blocks: Vec::new(),
        badb_blocks: Vec::new(),
    }
}

/// The two are the same partition, wherever their `PART` blocks are.
pub open spec fn same_partition(p: Partition, q: Partition) -> bool {
    &&& p.name@ == q.name@
    &&& p.bootable == q.bootable
    &&& p.no_automount == q.no_automount
    &&& p.start_lba == q.start_lba
    &&& p.block_len == q.block_len
    &&& p.dos_type == q.dos_type
    &&& p.boot_pri == q.boot_pri
    &&& p.max_transfer == q.max_transfer
    &&& p.mask == q.mask
    &&& p.cylinder_blocks == q.cylinder_blocks
    &&& p.low_cyl == q.low_cyl
    &&& p.high_cyl == q.high_cyl
    &&& p.num_buffers == q.num_buffers
    &&& p.buf_mem_type == q.buf_mem_type
    &&& p.size_block_longs == q.size_block_longs
    &&& p.baud == q.baud
    &&& p.control == q.control
    &&& p.boot_blocks == q.boot_blocks
    &&& p.envec_raw@ == q.envec_raw@
}

/// The two are the same filesystem, wherever its blocks are.
pub open spec fn same_filesystem(f: FileSysHeader, g: FileSysHeader) -> bool {
    f == (FileSysHeader {
        fshd_block: f.fshd_block,
        seg_list_blocks: f.seg_list_blocks,
        ..g
    })
}

/// The two say the same of the disk, the heads of the chains and the high-water
/// mark aside.
pub open spec fn same_disk(a: Rdb, b: Rdb) -> bool {
    &&& a.rdsk_block == b.rdsk_block
    &&& a.block_bytes == b.block_bytes
    &&& a.flags == b.flags
    &&& a.host_id == b.host_id
    &&& a.drive_init == b.drive_init
    &&& a.cylinders == b.cylinders
    &&& a.heads == b.heads
    &&& a.sectors == b.sectors
    &&& a.interleave == b.interleave
    &&& a.park == b.park
    &&& a.write_pre_comp == b.write_pre_comp
    &&& a.reduced_write == b.reduced_write
    &&& a.step_rate == b.step_rate
    &&& a.rdb_blocks_lo == b.rdb_blocks_lo
    &&& a.rdb_blocks_hi == b.rdb_blocks_hi
    &&& a.lo_cylinder == b.lo_cylinder
    &&& a.hi_cylinder == b.hi_cylinder
    &&& a.cyl_blocks == b.cyl_blocks
    &&& a.auto_park_seconds == b.auto_park_seconds
    &&& a.disk_vendor@ == b.disk_vendor@
    &&& a.disk_product@ == b.disk_product@
    &&& a.disk_revision@ == b.disk_revision@
    &&& a.controller_vendor@ == b.controller_vendor@
    &&& a.controller_product@ == b.controller_product@
    &&& a.controller_revision@ == b.controller_revision@
}

/// A `PART` block says nothing of its partition in the fields every block has.
pub proof fn lemma_part_reads_past_header(p: Partition, b: Seq<u8>, c: Seq<u8>, lba: u64)
    requires
        b.len() == c.len(),
        b.len() >= 512,
        forall|j: int| 20 <= j < b.len() ==> #[trigger] b[j] == c[j],
        part_reads(p, b, lba),
    ensures
        part_reads(p, c, lba),
{
    assert forall|off: int| 20 <= off && off + 4 <= b.len() implies #[trigger] bytes::long_at(
        c,
        off,
    ) == bytes::long_at(b, off) by {
        bytes::lemma_long_at_same_bytes(b, c, off);
    }
    assert forall|i: int| 0 <= i < envec_capacity(b) implies #[trigger] envec(c, i) == envec(
        b,
        i,
    ) by {}
    assert(b[part::DRIVE_NAME as int] == c[part::DRIVE_NAME as int]);
    let end = part::DRIVE_NAME + 1 + drive_name_len(b);
    assert(b.subrange(part::DRIVE_NAME + 1, end) =~= c.subrange(part::DRIVE_NAME + 1, end));
    assert(p.envec_raw@ =~= Seq::new(envec_len(c) as nat, |i: int| envec(c, i)));
}

/// A `FSHD` block says nothing of its filesystem but the head of its driver in
/// its pointers and its `ChkSum`.
pub proof fn lemma_fshd_reads_past_pointers(f: FileSysHeader, b: Seq<u8>, c: Seq<u8>, lba: u64)
    requires
        b.len() == c.len(),
        b.len() >= 512,
        forall|j: int|
            12 <= j < b.len() && !(16 <= j < 20) && !(fshd::SEG_LIST <= j < fshd::SEG_LIST + 4)
                ==> #[trigger] b[j] == c[j],
        fshd_reads_but_head(f, b, lba),
    ensures
        fshd_reads_but_head(f, c, lba),
{
    assert forall|off: int|
        12 <= off && off + 4 <= b.len() && (off + 4 <= 16 || 20 <= off) && (off + 4
            <= fshd::SEG_LIST || fshd::SEG_LIST + 4 <= off) implies #[trigger] bytes::long_at(
        c,
        off,
    ) == bytes::long_at(b, off) by {
        bytes::lemma_long_at_same_bytes(b, c, off);
    }
    assert(forall|i: int|
        0 <= i < 9 && i != 7 ==> #[trigger] patched_long(c, i) == patched_long(b, i));
}

/// A `BADB` block says nothing of its entries in its pointer and its `ChkSum`.
pub proof fn lemma_badb_entries_past_pointer(b: Seq<u8>, c: Seq<u8>)
    requires
        b.len() == c.len(),
        b.len() >= 512,
        forall|j: int| 4 <= j < b.len() && !(8 <= j < 12) && !(16 <= j < 20) ==> #[trigger] b[j] == c[j],
    ensures
        badb_entries(b) == badb_entries(c),
{
    bytes::lemma_long_at_same_bytes(b, c, hdr::SUMMED_LONGS as int);
    assert forall|i: int| 0 <= i < badb_pairs(b) implies #[trigger] badb_entry(b, i)
        == badb_entry(c, i) by {
        bytes::lemma_long_at_same_bytes(b, c, badb::ENTRIES + 8 * i);
        bytes::lemma_long_at_same_bytes(b, c, badb::ENTRIES + 8 * i + 4);
    }
    assert(badb_entries(b) =~= badb_entries(c));
}

} // verus!
