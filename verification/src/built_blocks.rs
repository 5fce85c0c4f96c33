//! What the blocks of a new table read as.
use vstd::prelude::*;
use vstd::utf8::*;

use crate::image::{PartContext, HEADER_SUMMED_LONGS};
use crate::layout::Request;
use crate::model::{FileSysHeader, Partition, Rdb};
use crate::specs::{FileSystemSpec, PartitionSpec};
use crate::{
    arith, bytes, checksum, fshd_patch, hdr, id, image, lseg, model, part, rdsk, text, walk,
};

verus! {

broadcast use crate::bytes::group_long_axioms;

/// Sealing changes `SummedLongs` and `ChkSum` alone.
proof fn lemma_sealed(s: Seq<u8>, longs: u32)
    requires
        checksum::sealable(s, longs),
        s.len() >= 20,
    ensures
        checksum::checksum_holds(checksum::sealed(s, longs)),
        checksum::sealed(s, longs).len() == s.len(),
        forall|at: int|
            0 <= at && at + 4 <= s.len() && (at + 4 <= hdr::SUMMED_LONGS || hdr::CHK_SUM + 4 <= at)
                ==> #[trigger] bytes::long_at(checksum::sealed(s, longs), at) == bytes::long_at(s, at),
        forall|i: int|
            hdr::CHK_SUM + 4 <= i < s.len() ==> #[trigger] checksum::sealed(s, longs)[i] == s[i],
{
    checksum::law_sealed_block_checks_out(s, longs);
}

/// `p` is what the `PART` block of a new partition reads as.
pub open spec fn reads_as_new_part(
    p: Partition,
    lba: u64,
    spec: PartitionSpec,
    name: Seq<char>,
    low: u32,
    high: u32,
    ctx: PartContext,
) -> bool {
    &&& p.part_block == lba
    &&& p.name@ == text::latin1(encode_utf8(name))
    &&& p.bootable == spec.bootable
    &&& p.no_automount == spec.no_automount
    &&& p.cylinder_blocks == ctx.heads * ctx.sectors
    &&& p.low_cyl == low
    &&& p.high_cyl == high
    &&& p.start_lba == arith::saturated(low * (ctx.heads * ctx.sectors))
    &&& p.block_len == model::extent_len(low, high, ctx.heads * ctx.sectors)
    &&& p.dos_type == spec.dos_type
    &&& p.boot_pri == spec.boot_pri
    &&& p.max_transfer == spec.max_transfer
    &&& p.mask == spec.mask
    &&& p.num_buffers == spec.num_buffers
    &&& p.buf_mem_type == spec.buf_mem_type
    &&& p.size_block_longs == match spec.size_block_longs {
        Some(longs) => longs,
        None => (ctx.block_size / 4) as u32,
    }
    &&& p.baud is None
    &&& p.control is None
    &&& p.boot_blocks is None
    &&& p.envec_raw@ == Seq::new(17, |i: int| image::new_envec(spec, low, high, ctx, i))
}

/// The flag word of a new partition has the bits it was made of.
proof fn lemma_part_flags(spec: PartitionSpec)
    ensures
        (image::part_flags(spec) & 1 != 0) == spec.bootable,
        (image::part_flags(spec) & 2 != 0) == spec.no_automount,
{
    assert((1u32 | 2u32) & 1 != 0 && (1u32 | 2u32) & 2 != 0 && (1u32 | 0u32) & 1 != 0 && (1u32
        | 0u32) & 2 == 0 && (0u32 | 2u32) & 1 == 0 && (0u32 | 2u32) & 2 != 0 && (0u32 | 0u32) & 1
        == 0 && (0u32 | 0u32) & 2 == 0) by (bit_vector);
}

/// A signed value comes back from the longword it was written as.
proof fn lemma_signed_round_trip(v: i32)
    ensures
        (v as u32) as i32 == v,
{
    assert((v as u32) as i32 == v) by (bit_vector);
}

/// A new `PART` block is a good one, leads to `next`, and reads as the
/// partition it was made for.
pub proof fn lemma_new_part_reads(
    size: nat,
    spec: PartitionSpec,
    name: Seq<char>,
    low: u32,
    high: u32,
    next: u32,
    ctx: PartContext,
)
    requires
        bytes::supported_block_size(size as int),
        encode_utf8(name).len() <= 31,
    ensures
        ({
            let b = checksum::sealed(
                image::new_part(size, spec, name, low, high, next, ctx),
                HEADER_SUMMED_LONGS,
            );
            &&& b.len() == size
            &&& walk::good_block(b, id::PART)
            &&& walk::next_of(b) == next
            &&& forall|p: Partition, lba: u64| #[trigger]
                model::part_reads(p, b, lba) ==> reads_as_new_part(
                    p,
                    lba,
                    spec,
                    name,
                    low,
                    high,
                    ctx,
                )
        }),
{
    let longs = |k: int| image::new_part_long(spec, low, high, next, ctx, k);
    let plain = image::block_of(size, longs);
    let label = image::bcpl(encode_utf8(name));
    let s = image::new_part(size, spec, name, low, high, next, ctx);
    let b = checksum::sealed(s, HEADER_SUMMED_LONGS);
    lemma_sealed(s, HEADER_SUMMED_LONGS);
    assert forall|k: int|
        (0 <= k < 9 && k != 1 && k != 2 || 32 <= k < size / 4) implies #[trigger] bytes::long_at(
        b,
        4 * k,
    ) == longs(k) by {
        image::lemma_block_of_long(size, longs, k);
        image::lemma_with_bytes_long(plain, part::DRIVE_NAME as int, label, 4 * k);
    }
    assert(bytes::long_at(b, 4int * 0) == id::PART);
    assert(bytes::long_at(b, 4int * 4) == next);
    assert(bytes::long_at(b, 4int * 5) == image::part_flags(spec));
    assert forall|i: int| 0 <= i < 96 implies #[trigger] model::envec(b, i) == image::new_envec(
        spec,
        low,
        high,
        ctx,
        i,
    ) by {
        assert(bytes::long_at(b, 4 * (32 + i)) == longs(32 + i));
    }
    assert(model::envec_capacity(b) >= 96);
    assert(model::envec(b, 0) == 16);
    lemma_part_flags(spec);
    lemma_signed_round_trip(spec.boot_pri);
    let n = encode_utf8(name).len() as int;
    assert(b[part::DRIVE_NAME as int] == label[0]);
    assert(b.subrange(part::DRIVE_NAME + 1, part::DRIVE_NAME + 1 + n) =~= encode_utf8(name)) by {
        assert forall|i: int| 0 <= i < n implies b[part::DRIVE_NAME + 1 + i] == encode_utf8(
            name,
        )[i] by {
            assert(s[part::DRIVE_NAME + 1 + i] == label[1 + i]);
        }
    }
    assert forall|p: Partition, lba: u64| #[trigger]
        model::part_reads(p, b, lba) implies reads_as_new_part(
        p,
        lba,
        spec,
        name,
        low,
        high,
        ctx,
    ) by {
        assert(model::envec_len(b) == 17);
        assert(p.envec_raw@ =~= Seq::new(17, |i: int| image::new_envec(spec, low, high, ctx, i)));
    }
}

/// What a patched field of a new `FSHD` block reads as: `written`, where the
/// patch flags have its bit.
pub open spec fn gated(flags: u32, bit: u32, written: u32) -> Option<u32> {
    if flags & bit != 0 {
        Some(written)
    } else {
        None
    }
}

/// The same, signed.
pub open spec fn gated_signed(flags: u32, bit: u32, written: Option<i32>) -> Option<i32> {
    if flags & bit != 0 {
        match written {
            Some(v) => Some(v),
            None => Some(0i32),
        }
    } else {
        None
    }
}

/// `f` is what the `FSHD` block of a new filesystem reads as.
pub open spec fn reads_as_new_fshd(
    f: FileSysHeader,
    lba: u64,
    spec: FileSystemSpec,
    seg_list: u32,
) -> bool {
    let flags = image::patch_flags_of(spec, seg_list);
    &&& f.fshd_block == lba
    &&& f.host_id == spec.host_id
    &&& f.flags == spec.flags
    &&& f.dos_type == spec.dos_type
    &&& f.version == spec.version_major * 0x1_0000 + spec.version_minor
    &&& f.patch_flags == flags
    &&& f.node_type == gated(flags, fshd_patch::TYPE, image::or_zero(spec.node_type))
    &&& f.task == gated(flags, fshd_patch::TASK, image::or_zero(spec.task))
    &&& f.lock == gated(flags, fshd_patch::LOCK, image::or_zero(spec.lock))
    &&& f.handler == gated(flags, fshd_patch::HANDLER, image::or_zero(spec.handler))
    &&& f.stack_size == gated(flags, fshd_patch::STACK_SIZE, image::or_zero(spec.stack_size))
    &&& f.priority == gated_signed(flags, fshd_patch::PRIORITY, spec.priority)
    &&& f.startup == gated_signed(flags, fshd_patch::STARTUP, spec.startup)
    &&& f.global_vec == gated_signed(flags, fshd_patch::GLOBAL_VEC, spec.global_vec)
    &&& f.seg_list_blocks == seg_list
}

/// What a signed field reads as.
proof fn lemma_signed_field(v: Option<i32>)
    ensures
        image::signed_or_zero(v) as i32 == match v {
            Some(v) => v,
            None => 0,
        },
{
    if let Some(x) = v {
        lemma_signed_round_trip(x);
    }
}

/// A new `FSHD` block is a good one, leads to `next`, and reads as the
/// filesystem it was made for.
pub proof fn lemma_new_fshd_reads(size: nat, spec: FileSystemSpec, seg_list: u32, next: u32)
    requires
        bytes::supported_block_size(size as int),
    ensures
        ({
            let b = checksum::sealed(
                image::new_fshd(size, spec, seg_list, next),
                HEADER_SUMMED_LONGS,
            );
            &&& b.len() == size
            &&& walk::good_block(b, id::FSHD)
            &&& walk::next_of(b) == next
            &&& model::seg_list_of(b) == seg_list
            &&& forall|f: FileSysHeader, lba: u64| #[trigger]
                model::fshd_reads(f, b, lba) ==> reads_as_new_fshd(f, lba, spec, seg_list)
        }),
{
    let longs = |k: int| image::new_fshd_long(spec, seg_list, next, k);
    let s = image::new_fshd(size, spec, seg_list, next);
    let b = checksum::sealed(s, HEADER_SUMMED_LONGS);
    lemma_sealed(s, HEADER_SUMMED_LONGS);
    assert forall|k: int| (0 <= k < size / 4 && k != 1 && k != 2) implies #[trigger] bytes::long_at(
        b,
        4 * k,
    ) == longs(k) by {
        image::lemma_block_of_long(size, longs, k);
    }
    assert(bytes::long_at(b, 4int * 0) == id::FSHD);
    assert(bytes::long_at(b, 4int * 3) == spec.host_id);
    assert(bytes::long_at(b, 4int * 4) == next);
    assert(bytes::long_at(b, 4int * 5) == spec.flags);
    assert(bytes::long_at(b, 4int * 8) == spec.dos_type);
    assert(bytes::long_at(b, 4int * 9) == image::packed_version(spec));
    assert(bytes::long_at(b, 4int * 10) == image::patch_flags_of(spec, seg_list));
    assert forall|i: int| 0 <= i < 9 implies #[trigger] model::patched_long(b, i)
        == image::new_patched(spec, seg_list, i) by {
        assert(bytes::long_at(b, 4 * (11 + i)) == longs(11 + i));
    }
    assert(model::patched_long(b, 7) == seg_list);
    lemma_signed_field(spec.priority);
    lemma_signed_field(spec.startup);
    lemma_signed_field(spec.global_vec);
}

/// Where no patch flags were asked for, every field of a new filesystem reads
/// back as it was asked for, the fields that were left out too.
pub proof fn lemma_derived_flags_read_back(
    f: FileSysHeader,
    lba: u64,
    spec: FileSystemSpec,
    seg_list: u32,
)
    requires
        reads_as_new_fshd(f, lba, spec, seg_list),
        spec.patch_flags is None,
    ensures
        f.node_type == spec.node_type,
        f.task == spec.task,
        f.lock == spec.lock,
        f.handler == spec.handler,
        f.stack_size == spec.stack_size,
        f.priority == spec.priority,
        f.startup == spec.startup,
        f.global_vec == spec.global_vec,
{
    let has_driver = seg_list != bytes::CHAIN_END;
    lemma_mask(
        image::bit_if(spec.node_type is Some, fshd_patch::TYPE),
        image::bit_if(spec.task is Some, fshd_patch::TASK),
        image::bit_if(spec.lock is Some, fshd_patch::LOCK),
        image::bit_if(spec.handler is Some, fshd_patch::HANDLER),
        image::bit_if(spec.stack_size is Some, fshd_patch::STACK_SIZE),
        image::bit_if(spec.priority is Some, fshd_patch::PRIORITY),
        image::bit_if(spec.startup is Some, fshd_patch::STARTUP),
        image::bit_if(has_driver, fshd_patch::SEG_LIST),
        image::bit_if(spec.global_vec is Some, fshd_patch::GLOBAL_VEC),
    );
}

/// A mask put together from single bits has the bits it was put together from.
proof fn lemma_mask(a: u32, b: u32, c: u32, d: u32, e: u32, f: u32, g: u32, h: u32, i: u32)
    by (bit_vector)
    requires
        a == 0 || a == 1,
        b == 0 || b == 2,
        c == 0 || c == 4,
        d == 0 || d == 8,
        e == 0 || e == 0x10,
        f == 0 || f == 0x20,
        g == 0 || g == 0x40,
        h == 0 || h == 0x80,
        i == 0 || i == 0x100,
    ensures
        (a | b | c | d | e | f | g | h | i) & 1 == a,
        (a | b | c | d | e | f | g | h | i) & 2 == b,
        (a | b | c | d | e | f | g | h | i) & 4 == c,
        (a | b | c | d | e | f | g | h | i) & 8 == d,
        (a | b | c | d | e | f | g | h | i) & 0x10 == e,
        (a | b | c | d | e | f | g | h | i) & 0x20 == f,
        (a | b | c | d | e | f | g | h | i) & 0x40 == g,
        (a | b | c | d | e | f | g | h | i) & 0x100 == i,
{
}

/// A new `LSEG` block is a good one, leads to `next`, and carries its data,
/// followed by zeros.
pub proof fn lemma_new_lseg_reads(size: nat, host_id: u32, data: Seq<u8>, next: u32)
    requires
        bytes::supported_block_size(size as int),
        data.len() + lseg::LOAD_DATA <= size,
    ensures
        ({
            let b = checksum::sealed(
                image::new_lseg(size, host_id, data, next),
                image::lseg_summed(data),
            );
            &&& b.len() == size
            &&& walk::good_block(b, id::LSEG)
            &&& walk::next_of(b) == next
            &&& b.subrange(lseg::LOAD_DATA as int, b.len() as int) == data + image::zeros(
                (size - lseg::LOAD_DATA - data.len()) as nat,
            )
        }),
{
    let summed = image::lseg_summed(data);
    let longs = |k: int| image::new_lseg_long(host_id, summed, next, k);
    let plain = image::block_of(size, longs);
    let s = image::new_lseg(size, host_id, data, next);
    let b = checksum::sealed(s, summed);
    assert(data.len() / 4 <= size / 4 - 5);
    lemma_sealed(s, summed);
    assert forall|k: int| (0 <= k < 5 && k != 1 && k != 2) implies #[trigger] bytes::long_at(
        b,
        4 * k,
    ) == longs(k) by {
        image::lemma_block_of_long(size, longs, k);
        image::lemma_with_bytes_long(plain, lseg::LOAD_DATA as int, data, 4 * k);
    }
    assert(bytes::long_at(b, 4int * 0) == id::LSEG);
    assert(bytes::long_at(b, 4int * 4) == next);
    let tail = image::zeros((size - lseg::LOAD_DATA - data.len()) as nat);
    assert forall|i: int| lseg::LOAD_DATA <= i < size implies b[i] == (data + tail)[i
        - lseg::LOAD_DATA] by {
        assert(b[i] == s[i]);
        if i >= lseg::LOAD_DATA + data.len() {
            assert(s[i] == plain[i]);
            assert(longs(i / 4) == 0);
            assert(plain[i] == bytes::byte_of(0, i % 4));
        }
    }
    assert(b.subrange(lseg::LOAD_DATA as int, b.len() as int) =~= data + tail);
}

/// The disk-level fields of `rdb` are those of the table that was asked for.
pub open spec fn reads_as_new_rdsk(rdb: Rdb, req: Request) -> bool {
    let g = req.geometry;
    let l = req.layout();
    &&& rdb.rdsk_block == req.rdsk_block
    &&& rdb.block_bytes == g.block_size
    &&& rdb.flags == req.flags
    &&& rdb.host_id == req.host_id
    &&& rdb.drive_init == bytes::CHAIN_END
    &&& rdb.cylinders == g.cylinders
    &&& rdb.heads == g.heads
    &&& rdb.sectors == g.sectors
    &&& rdb.interleave == 1
    &&& rdb.park == g.cylinders
    &&& rdb.write_pre_comp == g.cylinders
    &&& rdb.reduced_write == g.cylinders
    &&& rdb.step_rate == 3
    &&& rdb.rdb_blocks_lo == l.rdb_blocks_lo
    &&& rdb.rdb_blocks_hi == l.rdb_blocks_hi
    &&& rdb.lo_cylinder == l.lo_cylinder
    &&& rdb.hi_cylinder == l.hi_cylinder
    &&& rdb.cyl_blocks == req.cyl() as u32
    &&& rdb.auto_park_seconds == 0
    &&& rdb.high_rdsk_block == l.high_rdsk_block
    &&& rdb.filesys_header_list == if req.filesystems.len() > 0 {
        req.fshd_block(0) as u32
    } else {
        bytes::CHAIN_END
    }
    &&& rdb.bad_block_list == bytes::CHAIN_END
    &&& rdb.disk_vendor@.len() == 0
    &&& rdb.disk_product@.len() == 0
    &&& rdb.disk_revision@.len() == 0
    &&& rdb.controller_vendor@.len() == 0
    &&& rdb.controller_product@.len() == 0
    &&& rdb.controller_revision@.len() == 0
}

/// A field of NULs is trimmed to nothing.
proof fn lemma_trimmed_zeros(s: Seq<u8>)
    requires
        forall|i: int| 0 <= i < s.len() ==> s[i] == 0,
    ensures
        model::trimmed(s).len() == 0,
    decreases s.len(),
{
    if s.len() > 0 {
        lemma_trimmed_zeros(s.drop_last());
    }
}

/// A new `RDSK` block is a good one, heads the chains of the table, and reads
/// as the table that was asked for.
#[verifier::rlimit(40)]
pub proof fn lemma_new_rdsk_reads(req: Request)
    requires
        bytes::supported_block_size(req.geometry.block_size as int),
    ensures
        req.rdsk_image().len() == req.geometry.block_size,
        walk::good_block(req.rdsk_image(), id::RDSK),
        bytes::long_at(req.rdsk_image(), rdsk::BLOCK_BYTES as int) == req.geometry.block_size,
        bytes::long_at(req.rdsk_image(), rdsk::PARTITION_LIST as int) == if req.specs.len() > 0 {
            req.part_block(0) as u32
        } else {
            bytes::CHAIN_END
        },
        bytes::long_at(req.rdsk_image(), rdsk::FILESYS_HEADER_LIST as int)
            == if req.filesystems.len() > 0 {
            req.fshd_block(0) as u32
        } else {
            bytes::CHAIN_END
        },
        bytes::long_at(req.rdsk_image(), rdsk::BAD_BLOCK_LIST as int) == bytes::CHAIN_END,
        forall|rdb: Rdb| #[trigger]
            model::rdsk_reads(rdb, req.rdsk_image(), req.rdsk_block as u64) ==> reads_as_new_rdsk(
                rdb,
                req,
            ),
{
    let size = req.geometry.block_size as nat;
    let longs = |k: int| req.rdsk_long(k);
    let s = image::block_of(size, longs);
    let b = req.rdsk_image();
    lemma_sealed(s, HEADER_SUMMED_LONGS);
    assert forall|k: int| (0 <= k < size / 4 && k != 1 && k != 2) implies #[trigger] bytes::long_at(
        b,
        4 * k,
    ) == req.rdsk_long(k) by {
        image::lemma_block_of_long(size, longs, k);
    }
    assert(bytes::long_at(b, 4int * 0) == id::RDSK);
    assert(bytes::long_at(b, 4int * 3) == req.host_id);
    assert(bytes::long_at(b, 4int * 4) == req.rdsk_long(4));
    assert(bytes::long_at(b, 4int * 5) == req.flags);
    assert(bytes::long_at(b, 4int * 6) == bytes::CHAIN_END);
    assert(bytes::long_at(b, 4int * 7) == req.rdsk_long(7));
    assert(bytes::long_at(b, 4int * 8) == req.rdsk_long(8));
    assert(bytes::long_at(b, 4int * 9) == bytes::CHAIN_END);
    assert(bytes::long_at(b, 4int * 16) == req.rdsk_long(16));
    assert(bytes::long_at(b, 4int * 17) == req.rdsk_long(17));
    assert(bytes::long_at(b, 4int * 18) == req.rdsk_long(18));
    assert(bytes::long_at(b, 4int * 19) == req.rdsk_long(19));
    assert(bytes::long_at(b, 4int * 20) == req.rdsk_long(20));
    assert(bytes::long_at(b, 4int * 24) == req.rdsk_long(24));
    assert(bytes::long_at(b, 4int * 25) == req.rdsk_long(25));
    assert(bytes::long_at(b, 4int * 26) == req.rdsk_long(26));
    assert(bytes::long_at(b, 4int * 32) == 0);
    assert(bytes::long_at(b, 4int * 33) == req.rdsk_long(33));
    assert(bytes::long_at(b, 4int * 34) == req.rdsk_long(34));
    assert(bytes::long_at(b, 4int * 35) == req.rdsk_long(35));
    assert(bytes::long_at(b, 4int * 36) == req.rdsk_long(36));
    assert(bytes::long_at(b, 4int * 37) == 0);
    assert(bytes::long_at(b, 4int * 38) == req.rdsk_long(38));
    assert forall|i: int| 160 <= i < 216 implies #[trigger] b[i] == 0 by {
        assert(b[i] == s[i]);
        assert(longs(i / 4) == 0);
    }
    lemma_trimmed_zeros(b.subrange(160, 168));
    lemma_trimmed_zeros(b.subrange(168, 184));
    lemma_trimmed_zeros(b.subrange(184, 188));
    lemma_trimmed_zeros(b.subrange(188, 196));
    lemma_trimmed_zeros(b.subrange(196, 212));
    lemma_trimmed_zeros(b.subrange(212, 216));
}

} // verus!
