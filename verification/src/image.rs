//! New blocks: what is written where a table is created or grows.
use vstd::arithmetic::div_mod::*;
use vstd::arithmetic::mul::*;
use vstd::prelude::*;
use vstd::utf8::*;

use crate::bytes::{put_be32, CHAIN_END};
use crate::model::BadBlockEntry;
use crate::specs::{FileSystemSpec, PartitionSpec};
use crate::{badb, bytes, chain, de, envec_defaults, fshd, fshd_patch, hdr, id, lseg, model, part};

verus! {

broadcast use crate::bytes::group_long_axioms;

/// Longest `pb_DriveName` the 32-byte BCPL field holds: one length byte and 31
/// characters.
pub const MAX_DRIVE_NAME: usize = 31;

/// How many longwords a `RDSK`, `PART` or `FSHD` block sums over: the first 256
/// bytes, whatever the device block size.
pub const HEADER_SUMMED_LONGS: u32 = 64;

/// Longwords of `LSEG` header before the payload: ID, SummedLongs, ChkSum,
/// HostID, Next.
pub const LSEG_HEADER_LONGS: u32 = 5;

/// How many bytes of a driver one `LSEG` block carries: the whole block past
/// its header.
pub fn lseg_payload_bytes(block_size: usize) -> (n: usize)
    requires
        block_size >= lseg::LOAD_DATA,
    ensures
        n == block_size - lseg::LOAD_DATA,
{
    block_size - lseg::LOAD_DATA
}

/// A block of `size` bytes whose longword `k` is `longs(k)`.
pub open spec fn block_of(size: nat, longs: spec_fn(int) -> u32) -> Seq<u8> {
    Seq::new(size, |i: int| bytes::byte_of(longs(i / 4), i % 4))
}

/// `s` with the bytes from `off` on replaced by `data`.
pub open spec fn with_bytes(s: Seq<u8>, off: int, data: Seq<u8>) -> Seq<u8> {
    Seq::new(
        s.len(),
        |i: int|
            if off <= i < off + data.len() {
                data[i - off]
            } else {
                s[i]
            },
    )
}

/// `size` zero bytes.
pub open spec fn zeros(size: nat) -> Seq<u8> {
    Seq::new(size, |i: int| 0u8)
}

/// The longwords of a block are those it was made of.
pub proof fn lemma_block_of_long(size: nat, longs: spec_fn(int) -> u32, k: int)
    requires
        0 <= k,
        4 * k + 4 <= size,
    ensures
        bytes::long_at(block_of(size, longs), 4 * k) == longs(k),
{
    let b = block_of(size, longs);
    let v = longs(k);
    reveal(bytes::long_at);
    assert((4 * k) / 4 == k && (4 * k + 1) / 4 == k && (4 * k + 2) / 4 == k && (4 * k + 3) / 4
        == k);
    assert(b[4 * k] == bytes::byte_of(v, 0));
    assert(b[4 * k + 1] == bytes::byte_of(v, 1));
    assert(b[4 * k + 2] == bytes::byte_of(v, 2));
    assert(b[4 * k + 3] == bytes::byte_of(v, 3));
}

/// Blocks with the same longwords are the same.
pub proof fn lemma_block_is(b: Seq<u8>, longs: spec_fn(int) -> u32)
    requires
        b.len() % 4 == 0,
        forall|k: int| 0 <= k < b.len() / 4 ==> #[trigger] bytes::long_at(b, 4 * k) == longs(k),
    ensures
        b == block_of(b.len(), longs),
{
    let c = block_of(b.len(), longs);
    assert forall|i: int| 0 <= i < b.len() implies b[i] == c[i] by {
        let k = i / 4;
        assert(bytes::long_at(b, 4 * k) == longs(k));
        bytes::lemma_with_long_same_value(b, 4 * k);
        reveal(bytes::with_long);
        assert(i == 4 * k + i % 4);
        assert(bytes::with_long(b, 4 * k, longs(k))[i] == bytes::byte_of(longs(k), i % 4));
    }
    assert(b =~= c);
}

/// A zero longword's place in a block of zeros.
pub proof fn lemma_zeros_long(size: nat, off: int)
    requires
        0 <= off,
        off + 4 <= size,
    ensures
        bytes::long_at(zeros(size), off) == 0,
{
    reveal(bytes::long_at);
}

/// Copy `data` into `buf` from `off` on.
pub fn put_bytes(buf: &mut [u8], off: usize, data: &[u8])
    requires
        off + data@.len() <= old(buf)@.len(),
    ensures
        final(buf)@ == with_bytes(old(buf)@, off as int, data@),
{
    assert(buf@.len() == buf.len());
    let mut i: usize = 0;
    while i < data.len()
        invariant
            i <= data.len(),
            off + data.len() <= buf.len(),
            buf@.len() == old(buf)@.len(),
            buf@ =~= with_bytes(old(buf)@, off as int, data@.subrange(0, i as int)),
        decreases data.len() - i,
    {
        buf[off + i] = data[i];
        i += 1;
    }
    assert(data@.subrange(0, data@.len() as int) =~= data@);
}

/// The disk-level values one `PART` block copies out of the `RDSK`.
#[derive(Debug, Clone, Copy, PartialEq, Eq, Structural)]
pub struct PartContext {
    /// `pb_HostID`.
    pub host_id: u32,
    /// `de_Surfaces`.
    pub heads: u32,
    /// `de_BlocksPerTrack`.
    pub sectors: u32,
    /// The device block size.
    pub block_size: usize,
}

/// `pb_Flags` of a new partition.
pub open spec fn part_flags(spec: PartitionSpec) -> u32 {
    (if spec.bootable {
        1u32
    } else {
        0u32
    }) | (if spec.no_automount {
        2u32
    } else {
        0u32
    })
}

/// Envec longword `i` of a new partition on cylinders `low..=high`.
pub open spec fn new_envec(
    spec: PartitionSpec,
    low: u32,
    high: u32,
    ctx: PartContext,
    i: int,
) -> u32 {
    if i == de::TABLE_SIZE {
        envec_defaults::TABLE_SIZE
    } else if i == de::SIZE_BLOCK {
        match spec.size_block_longs {
            Some(longs) => longs,
            None => (ctx.block_size / 4) as u32,
        }
    } else if i == de::SEC_ORG {
        spec.sec_org
    } else if i == de::SURFACES {
        ctx.heads
    } else if i == de::SECTORS_PER_BLOCK {
        spec.sectors_per_block
    } else if i == de::BLOCKS_PER_TRACK {
        ctx.sectors
    } else if i == de::RESERVED {
        spec.reserved
    } else if i == de::PRE_ALLOC {
        spec.pre_alloc
    } else if i == de::INTERLEAVE {
        spec.interleave
    } else if i == de::LOW_CYL {
        low
    } else if i == de::HIGH_CYL {
        high
    } else if i == de::NUM_BUFFERS {
        spec.num_buffers
    } else if i == de::BUF_MEM_TYPE {
        spec.buf_mem_type
    } else if i == de::MAX_TRANSFER {
        spec.max_transfer
    } else if i == de::MASK {
        spec.mask
    } else if i == de::BOOT_PRI {
        spec.boot_pri as u32
    } else if i == de::DOS_TYPE {
        spec.dos_type
    } else {
        0
    }
}

/// Longword `k` of a new `PART` block, its name and its `ChkSum` aside.
pub open spec fn new_part_long(
    spec: PartitionSpec,
    low: u32,
    high: u32,
    next: u32,
    ctx: PartContext,
    k: int,
) -> u32 {
    if 4 * k == hdr::ID {
        id::PART
    } else if 4 * k == hdr::SUMMED_LONGS {
        HEADER_SUMMED_LONGS
    } else if 4 * k == hdr::HOST_ID {
        ctx.host_id
    } else if 4 * k == chain::NEXT {
        next
    } else if 4 * k == part::FLAGS {
        part_flags(spec)
    } else if 4 * k >= part::ENVIRONMENT {
        new_envec(spec, low, high, ctx, k - part::ENVIRONMENT as int / 4)
    } else {
        0
    }
}

/// A BCPL string: a length byte, then the characters.
pub open spec fn bcpl(name: Seq<u8>) -> Seq<u8> {
    seq![name.len() as u8] + name
}

/// A new `PART` block, `ChkSum` aside.
pub open spec fn new_part(
    size: nat,
    spec: PartitionSpec,
    name: Seq<char>,
    low: u32,
    high: u32,
    next: u32,
    ctx: PartContext,
) -> Seq<u8> {
    with_bytes(
        block_of(size, |k: int| new_part_long(spec, low, high, next, ctx, k)),
        part::DRIVE_NAME as int,
        bcpl(encode_utf8(name)),
    )
}

/// Fill a zeroed buffer with one `PART` block's fields: everything including
/// `SummedLongs`, everything except the `ChkSum`.
#[verifier::rlimit(40)]
pub fn fill_part_fields(
    buf: &mut [u8],
    spec: &PartitionSpec,
    name: &str,
    low_cyl: u32,
    high_cyl: u32,
    next: u32,
    ctx: PartContext,
)
    requires
        old(buf)@ == zeros(old(buf)@.len()),
        old(buf)@.len() >= 512,
        old(buf)@.len() % 4 == 0,
        encode_utf8(name@).len() <= MAX_DRIVE_NAME,
    ensures
        final(buf)@ == new_part(
            old(buf)@.len(),
            *spec,
            name@,
            low_cyl,
            high_cyl,
            next,
            ctx,
        ),
{
    let size_block: u32 = match spec.size_block_longs {
        Some(longs) => longs,
        None => envec_defaults::size_block_longs(ctx.block_size),
    };
    let bootable: u32 = if spec.bootable {
        1
    } else {
        0
    };
    let no_automount: u32 = if spec.no_automount {
        2
    } else {
        0
    };
    put_be32(buf, hdr::ID, id::PART);
    put_be32(buf, hdr::SUMMED_LONGS, HEADER_SUMMED_LONGS);
    put_be32(buf, hdr::HOST_ID, ctx.host_id);
    put_be32(buf, chain::NEXT, next);
    put_be32(buf, part::FLAGS, bootable | no_automount);
    put_be32(buf, part::ENVIRONMENT + 4 * de::TABLE_SIZE, envec_defaults::TABLE_SIZE);
    put_be32(buf, part::ENVIRONMENT + 4 * de::SIZE_BLOCK, size_block);
    put_be32(buf, part::ENVIRONMENT + 4 * de::SEC_ORG, spec.sec_org);
    put_be32(buf, part::ENVIRONMENT + 4 * de::SURFACES, ctx.heads);
    put_be32(buf, part::ENVIRONMENT + 4 * de::SECTORS_PER_BLOCK, spec.sectors_per_block);
    put_be32(buf, part::ENVIRONMENT + 4 * de::BLOCKS_PER_TRACK, ctx.sectors);
    put_be32(buf, part::ENVIRONMENT + 4 * de::RESERVED, spec.reserved);
    put_be32(buf, part::ENVIRONMENT + 4 * de::PRE_ALLOC, spec.pre_alloc);
    put_be32(buf, part::ENVIRONMENT + 4 * de::INTERLEAVE, spec.interleave);
    put_be32(buf, part::ENVIRONMENT + 4 * de::LOW_CYL, low_cyl);
    put_be32(buf, part::ENVIRONMENT + 4 * de::HIGH_CYL, high_cyl);
    put_be32(buf, part::ENVIRONMENT + 4 * de::NUM_BUFFERS, spec.num_buffers);
    put_be32(buf, part::ENVIRONMENT + 4 * de::BUF_MEM_TYPE, spec.buf_mem_type);
    put_be32(buf, part::ENVIRONMENT + 4 * de::MAX_TRANSFER, spec.max_transfer);
    put_be32(buf, part::ENVIRONMENT + 4 * de::MASK, spec.mask);
    put_be32(buf, part::ENVIRONMENT + 4 * de::BOOT_PRI, spec.boot_pri as u32);
    put_be32(buf, part::ENVIRONMENT + 4 * de::DOS_TYPE, spec.dos_type);
    let ghost longs = |k: int| new_part_long(*spec, low_cyl, high_cyl, next, ctx, k);
    proof {
        assert forall|k: int| 0 <= k < buf@.len() / 4 implies #[trigger] bytes::long_at(
            buf@,
            4 * k,
        ) == longs(k) by {
            lemma_zeros_long(buf@.len(), 4 * k);
        }
        lemma_block_is(buf@, longs);
    }
    let ghost made = buf@;
    let name_bytes: &[u8] = name.as_bytes();
    assert(name_bytes@.len() == name_bytes.len());
    buf[part::DRIVE_NAME] = name_bytes.len() as u8;
    put_bytes(buf, part::DRIVE_NAME + 1, name_bytes);
    assert(buf@ =~= with_bytes(made, part::DRIVE_NAME as int, bcpl(encode_utf8(name@))));
}

/// `fhb_Version` as the format packs it: major in the high half.
pub open spec fn packed_version(spec: FileSystemSpec) -> u32 {
    (spec.version_major * 0x1_0000 + spec.version_minor) as u32
}

/// The longword an optional field is written as.
pub open spec fn or_zero(v: Option<u32>) -> u32 {
    match v {
        Some(v) => v,
        None => 0,
    }
}

/// The same, of a signed field.
pub open spec fn signed_or_zero(v: Option<i32>) -> u32 {
    match v {
        Some(v) => v as u32,
        None => 0,
    }
}

/// Patched longword `i` of a new `FSHD` block whose driver chain starts at
/// `seg_list`. A field that is not set is a zero behind a clear bit.
pub open spec fn new_patched(spec: FileSystemSpec, seg_list: u32, i: int) -> u32 {
    if i == 0 {
        or_zero(spec.node_type)
    } else if i == 1 {
        or_zero(spec.task)
    } else if i == 2 {
        or_zero(spec.lock)
    } else if i == 3 {
        or_zero(spec.handler)
    } else if i == 4 {
        or_zero(spec.stack_size)
    } else if i == 5 {
        signed_or_zero(spec.priority)
    } else if i == 6 {
        signed_or_zero(spec.startup)
    } else if i == 7 {
        seg_list
    } else if i == 8 {
        signed_or_zero(spec.global_vec)
    } else {
        0
    }
}

/// `bit`, where `set`.
pub open spec fn bit_if(set: bool, bit: u32) -> u32 {
    if set {
        bit
    } else {
        0
    }
}

/// The mask that says which patched longwords are set.
pub open spec fn derived_flags(spec: FileSystemSpec, has_driver: bool) -> u32 {
    bit_if(spec.node_type is Some, fshd_patch::TYPE) | bit_if(spec.task is Some, fshd_patch::TASK)
        | bit_if(spec.lock is Some, fshd_patch::LOCK) | bit_if(
        spec.handler is Some,
        fshd_patch::HANDLER,
    ) | bit_if(spec.stack_size is Some, fshd_patch::STACK_SIZE) | bit_if(
        spec.priority is Some,
        fshd_patch::PRIORITY,
    ) | bit_if(spec.startup is Some, fshd_patch::STARTUP) | bit_if(has_driver, fshd_patch::SEG_LIST)
        | bit_if(spec.global_vec is Some, fshd_patch::GLOBAL_VEC)
}

/// `fhb_PatchFlags` of a new filesystem: the override, or the derived mask.
pub open spec fn patch_flags_of(spec: FileSystemSpec, seg_list: u32) -> u32 {
    match spec.patch_flags {
        Some(flags) => flags,
        None => derived_flags(spec, seg_list != CHAIN_END),
    }
}

/// Longword `k` of a new `FSHD` block, its `ChkSum` aside.
pub open spec fn new_fshd_long(spec: FileSystemSpec, seg_list: u32, next: u32, k: int) -> u32 {
    if 4 * k == hdr::ID {
        id::FSHD
    } else if 4 * k == hdr::SUMMED_LONGS {
        HEADER_SUMMED_LONGS
    } else if 4 * k == fshd::HOST_ID {
        spec.host_id
    } else if 4 * k == chain::NEXT {
        next
    } else if 4 * k == fshd::FLAGS {
        spec.flags
    } else if 4 * k == fshd::DOS_TYPE {
        spec.dos_type
    } else if 4 * k == fshd::VERSION {
        packed_version(spec)
    } else if 4 * k == fshd::PATCH_FLAGS {
        patch_flags_of(spec, seg_list)
    } else if 4 * k >= fshd::PATCHED {
        new_patched(spec, seg_list, k - fshd::PATCHED as int / 4)
    } else {
        0
    }
}

/// A new `FSHD` block, `ChkSum` aside.
pub open spec fn new_fshd(size: nat, spec: FileSystemSpec, seg_list: u32, next: u32) -> Seq<u8> {
    block_of(size, |k: int| new_fshd_long(spec, seg_list, next, k))
}

/// The longword an optional field is written as.
fn long_or_zero(v: Option<u32>) -> (r: u32)
    ensures
        r == or_zero(v),
{
    match v {
        Some(v) => v,
        None => 0,
    }
}

/// The same, of a signed field.
fn signed_long_or_zero(v: Option<i32>) -> (r: u32)
    ensures
        r == signed_or_zero(v),
{
    match v {
        Some(v) => v as u32,
        None => 0,
    }
}

/// `bit`, where `set`.
fn bit_where(set: bool, bit: u32) -> (r: u32)
    ensures
        r == bit_if(set, bit),
{
    if set {
        bit
    } else {
        0
    }
}

/// `fhb_PatchFlags` of a new filesystem: the override, or the derived mask.
fn patch_mask(spec: &FileSystemSpec, seg_list_blocks: u32) -> (r: u32)
    ensures
        r == patch_flags_of(*spec, seg_list_blocks),
{
    let derived: u32 = bit_where(spec.node_type.is_some(), fshd_patch::TYPE) | bit_where(
        spec.task.is_some(),
        fshd_patch::TASK,
    ) | bit_where(spec.lock.is_some(), fshd_patch::LOCK) | bit_where(
        spec.handler.is_some(),
        fshd_patch::HANDLER,
    ) | bit_where(spec.stack_size.is_some(), fshd_patch::STACK_SIZE) | bit_where(
        spec.priority.is_some(),
        fshd_patch::PRIORITY,
    ) | bit_where(spec.startup.is_some(), fshd_patch::STARTUP) | bit_where(
        seg_list_blocks != CHAIN_END,
        fshd_patch::SEG_LIST,
    ) | bit_where(spec.global_vec.is_some(), fshd_patch::GLOBAL_VEC);
    match spec.patch_flags {
        Some(flags) => flags,
        None => derived,
    }
}

/// Fill a zeroed buffer with one `FSHD` block's fields, `ChkSum` aside. The
/// patch mask is derived from which fields are set, plus the driver-chain bit
/// where `seg_list_blocks` heads a chain, unless the spec overrides it.
#[verifier::rlimit(30)]
pub fn fill_fshd_fields(buf: &mut [u8], spec: &FileSystemSpec, seg_list_blocks: u32, next: u32)
    requires
        old(buf)@ == zeros(old(buf)@.len()),
        old(buf)@.len() >= 512,
        old(buf)@.len() % 4 == 0,
    ensures
        final(buf)@ == new_fshd(old(buf)@.len(), *spec, seg_list_blocks, next),
{
    let patch_flags: u32 = patch_mask(spec, seg_list_blocks);
    put_be32(buf, hdr::ID, id::FSHD);
    put_be32(buf, hdr::SUMMED_LONGS, HEADER_SUMMED_LONGS);
    put_be32(buf, fshd::HOST_ID, spec.host_id);
    put_be32(buf, chain::NEXT, next);
    put_be32(buf, fshd::FLAGS, spec.flags);
    put_be32(buf, fshd::DOS_TYPE, spec.dos_type);
    put_be32(
        buf,
        fshd::VERSION,
        spec.version_major as u32 * 0x1_0000 + spec.version_minor as u32,
    );
    put_be32(buf, fshd::PATCH_FLAGS, patch_flags);
    put_be32(buf, fshd::PATCHED, long_or_zero(spec.node_type));
    put_be32(buf, fshd::PATCHED + 4, long_or_zero(spec.task));
    put_be32(buf, fshd::PATCHED + 8, long_or_zero(spec.lock));
    put_be32(buf, fshd::PATCHED + 12, long_or_zero(spec.handler));
    put_be32(buf, fshd::PATCHED + 16, long_or_zero(spec.stack_size));
    put_be32(buf, fshd::PATCHED + 20, signed_long_or_zero(spec.priority));
    put_be32(buf, fshd::PATCHED + 24, signed_long_or_zero(spec.startup));
    put_be32(buf, fshd::PATCHED + 4 * fshd::SEG_LIST_INDEX, seg_list_blocks);
    put_be32(buf, fshd::PATCHED + 32, signed_long_or_zero(spec.global_vec));
    let ghost longs = |k: int| new_fshd_long(*spec, seg_list_blocks, next, k);
    proof {
        assert forall|k: int| 0 <= k < buf@.len() / 4 implies #[trigger] bytes::long_at(
            buf@,
            4 * k,
        ) == longs(k) by {
            lemma_zeros_long(buf@.len(), 4 * k);
        }
        lemma_block_is(buf@, longs);
    }
}

/// How many longwords a `LSEG` block sums: its header and the whole longwords
/// of its payload. Up to three bytes at the end of the last payload lie outside
/// the sum.
pub open spec fn lseg_summed(data: Seq<u8>) -> u32 {
    (LSEG_HEADER_LONGS + data.len() / 4) as u32
}

/// Longword `k` of a new `LSEG` block's header, its `ChkSum` aside.
pub open spec fn new_lseg_long(host_id: u32, summed: u32, next: u32, k: int) -> u32 {
    if 4 * k == hdr::ID {
        id::LSEG
    } else if 4 * k == hdr::SUMMED_LONGS {
        summed
    } else if 4 * k == hdr::HOST_ID {
        host_id
    } else if 4 * k == chain::NEXT {
        next
    } else {
        0
    }
}

/// A new `LSEG` block carrying `data`, `ChkSum` aside.
pub open spec fn new_lseg(size: nat, host_id: u32, data: Seq<u8>, next: u32) -> Seq<u8> {
    with_bytes(
        block_of(size, |k: int| new_lseg_long(host_id, lseg_summed(data), next, k)),
        lseg::LOAD_DATA as int,
        data,
    )
}

/// Fill a zeroed buffer with one `LSEG` block carrying `data`, and return the
/// `SummedLongs` it declares.
pub fn fill_lseg_fields(buf: &mut [u8], host_id: u32, data: &[u8], next: u32) -> (summed: u32)
    requires
        old(buf)@ == zeros(old(buf)@.len()),
        512 <= old(buf)@.len() <= bytes::MAX_BLOCK_SIZE,
        old(buf)@.len() % 4 == 0,
        lseg::LOAD_DATA + data@.len() <= old(buf)@.len(),
    ensures
        final(buf)@ == new_lseg(old(buf)@.len(), host_id, data@, next),
        summed == lseg_summed(data@),
{
    assert(data@.len() == data.len());
    let summed: u32 = LSEG_HEADER_LONGS + (data.len() / 4) as u32;
    put_be32(buf, hdr::ID, id::LSEG);
    put_be32(buf, hdr::SUMMED_LONGS, summed);
    put_be32(buf, hdr::HOST_ID, host_id);
    put_be32(buf, chain::NEXT, next);
    let ghost longs = |k: int| new_lseg_long(host_id, summed, next, k);
    proof {
        assert forall|k: int| 0 <= k < buf@.len() / 4 implies #[trigger] bytes::long_at(
            buf@,
            4 * k,
        ) == longs(k) by {
            lemma_zeros_long(buf@.len(), 4 * k);
        }
        lemma_block_is(buf@, longs);
    }
    put_bytes(buf, lseg::LOAD_DATA, data);
    summed
}

/// How many pieces of `size` items `len` items take.
pub open spec fn piece_count(len: nat, size: int) -> int {
    (len + size - 1) / size
}

/// Piece `c` of `data`, cut into pieces of `size` items.
pub open spec fn piece<A>(data: Seq<A>, size: int, c: int) -> Seq<A> {
    let end = (c + 1) * size;
    data.subrange(
        c * size,
        if end <= data.len() {
            end
        } else {
            data.len() as int
        },
    )
}

/// The first `n` pieces of `data`, one after another.
pub open spec fn joined<A>(data: Seq<A>, size: int, n: nat) -> Seq<A>
    decreases n,
{
    if n == 0 {
        Seq::empty()
    } else {
        joined(data, size, (n - 1) as nat) + piece(data, size, n - 1)
    }
}

/// A piece starts before the end of the data, is not empty and not longer than
/// it may be.
pub proof fn lemma_piece<A>(data: Seq<A>, size: int, c: int)
    requires
        size > 0,
        0 <= c < piece_count(data.len(), size),
    ensures
        0 <= c * size < data.len(),
        (c + 1) * size == c * size + size,
        1 <= piece(data, size, c).len() <= size,
        c + 1 < piece_count(data.len(), size) ==> piece(data, size, c).len() == size,
{
    let len = data.len() as int;
    let n = piece_count(data.len(), size);
    lemma_fundamental_div_mod(len + size - 1, size);
    lemma_mod_bound(len + size - 1, size);
    lemma_mul_inequality(c + 1, n, size);
    lemma_mul_is_commutative(size, n);
    lemma_mul_is_distributive_add_other_way(size, c, 1);
    lemma_mul_nonnegative(c, size);
    if c + 1 < n {
        lemma_mul_inequality(c + 2, n, size);
        lemma_mul_is_distributive_add_other_way(size, c + 1, 1);
    }
}

/// The pieces of the data, joined, are the data.
pub proof fn lemma_joined<A>(data: Seq<A>, size: int, n: nat)
    requires
        size > 0,
        n <= piece_count(data.len(), size),
    ensures
        joined(data, size, n) == data.take(
            if n * size <= data.len() {
                n * size
            } else {
                data.len() as int
            },
        ),
        n == piece_count(data.len(), size) ==> joined(data, size, n) == data,
    decreases n,
{
    let len = data.len() as int;
    let count = piece_count(data.len(), size);
    lemma_fundamental_div_mod(len + size - 1, size);
    lemma_mod_bound(len + size - 1, size);
    lemma_mul_is_commutative(size, count);
    if n == 0 {
        assert(0 * size == 0);
        assert(joined(data, size, 0) =~= data.take(0));
        if count == 0 {
            assert(joined(data, size, n) =~= data);
        }
    } else {
        lemma_joined(data, size, (n - 1) as nat);
        lemma_piece(data, size, n - 1);
        let end = if n * size <= data.len() {
            n * size
        } else {
            len
        };
        assert(joined(data, size, n) =~= data.take(end));
        if n == count {
            assert(data.take(end) =~= data);
        }
    }
}

/// Replacing bytes leaves every longword outside them alone.
pub proof fn lemma_with_bytes_long(s: Seq<u8>, off: int, data: Seq<u8>, at: int)
    requires
        0 <= at,
        at + 4 <= s.len(),
        at + 4 <= off || off + data.len() <= at,
    ensures
        bytes::long_at(with_bytes(s, off, data), at) == bytes::long_at(s, at),
{
    bytes::lemma_long_at_same_bytes(with_bytes(s, off, data), s, at);
}

/// Longword `k` of a new `BADB` block, its `ChkSum` aside.
pub open spec fn new_badb_long(host_id: u32, entries: Seq<BadBlockEntry>, k: int) -> u32 {
    let e = k - badb::HEADER_LONGS;
    if 4 * k == hdr::ID {
        id::BADB
    } else if 4 * k == hdr::SUMMED_LONGS {
        (badb::HEADER_LONGS + 2 * entries.len()) as u32
    } else if 4 * k == hdr::HOST_ID {
        host_id
    } else if 4 * k == chain::NEXT {
        CHAIN_END
    } else if 0 <= e < 2 * entries.len() {
        if e % 2 == 0 {
            entries[e / 2].bad
        } else {
            entries[e / 2].good
        }
    } else {
        0
    }
}

/// A new `BADB` block, `ChkSum` aside.
pub open spec fn new_badb(size: nat, host_id: u32, entries: Seq<BadBlockEntry>) -> Seq<u8> {
    block_of(size, |k: int| new_badb_long(host_id, entries, k))
}

/// Fill a zeroed buffer with one `BADB` block listing `entries` from `from` up
/// to `to`.
pub fn fill_badb_fields(
    buf: &mut [u8],
    host_id: u32,
    entries: &Vec<BadBlockEntry>,
    from: usize,
    to: usize,
)
    requires
        old(buf)@ == zeros(old(buf)@.len()),
        512 <= old(buf)@.len() <= bytes::MAX_BLOCK_SIZE,
        old(buf)@.len() % 4 == 0,
        from <= to <= entries@.len(),
        badb::ENTRIES + 8 * (to - from) <= old(buf)@.len(),
    ensures
        final(buf)@ == new_badb(
            old(buf)@.len(),
            host_id,
            entries@.subrange(from as int, to as int),
        ),
{
    let ghost listed = entries@.subrange(from as int, to as int);
    assert(buf@.len() == buf.len());
    let summed: u32 = (badb::HEADER_LONGS + (to - from) * 2) as u32;
    put_be32(buf, hdr::ID, id::BADB);
    put_be32(buf, hdr::SUMMED_LONGS, summed);
    put_be32(buf, hdr::HOST_ID, host_id);
    put_be32(buf, chain::NEXT, CHAIN_END);
    proof {
        assert forall|k: int| 0 <= k < buf@.len() / 4 implies #[trigger] bytes::long_at(
            buf@,
            4 * k,
        ) == if k < badb::HEADER_LONGS {
            new_badb_long(host_id, listed, k)
        } else {
            0
        } by {
            lemma_zeros_long(buf@.len(), 4 * k);
        }
    }
    let mut i: usize = from;
    while i < to
        invariant
            from <= i <= to <= entries.len(),
            listed == entries@.subrange(from as int, to as int),
            badb::ENTRIES + 8 * (to - from) <= buf.len(),
            buf@.len() == old(buf)@.len(),
            512 <= buf@.len() <= bytes::MAX_BLOCK_SIZE,
            forall|k: int|
                0 <= k < buf@.len() / 4 ==> #[trigger] bytes::long_at(buf@, 4 * k) == if k
                    < badb::HEADER_LONGS + 2 * (i - from) {
                    new_badb_long(host_id, listed, k)
                } else {
                    0
                },
        decreases to - i,
    {
        let ghost before = buf@;
        let off: usize = badb::ENTRIES + (i - from) * 8;
        put_be32(buf, off, entries[i].bad);
        put_be32(buf, off + 4, entries[i].good);
        proof {
            let e = i - from;
            assert(listed[e] == entries@[i as int]);
            assert forall|k: int| 0 <= k < buf@.len() / 4 implies #[trigger] bytes::long_at(
                buf@,
                4 * k,
            ) == if k < badb::HEADER_LONGS + 2 * (e + 1) {
                new_badb_long(host_id, listed, k)
            } else {
                0
            } by {
                assert(bytes::long_at(before, 4 * k) == if k < badb::HEADER_LONGS + 2 * e {
                    new_badb_long(host_id, listed, k)
                } else {
                    0
                });
                if k == badb::HEADER_LONGS + 2 * e {
                    assert(4 * k == off);
                } else if k == badb::HEADER_LONGS + 2 * e + 1 {
                    assert(4 * k == off + 4);
                }
            }
        }
        i += 1;
    }
    proof {
        let longs = |k: int| new_badb_long(host_id, listed, k);
        assert forall|k: int| 0 <= k < buf@.len() / 4 implies #[trigger] bytes::long_at(
            buf@,
            4 * k,
        ) == longs(k) by {}
        lemma_block_is(buf@, longs);
    }
}

/// The entries of a new `BADB` block are those it was given.
pub proof fn lemma_new_badb_entries(size: nat, host_id: u32, entries: Seq<BadBlockEntry>)
    requires
        512 <= size <= bytes::MAX_BLOCK_SIZE,
        badb::ENTRIES + 8 * entries.len() <= size,
    ensures
        model::badb_entries(new_badb(size, host_id, entries)) == entries,
{
    let b = new_badb(size, host_id, entries);
    let longs = |k: int| new_badb_long(host_id, entries, k);
    lemma_block_of_long(size, longs, 1);
    assert(bytes::long_at(b, hdr::SUMMED_LONGS as int) == badb::HEADER_LONGS + 2 * entries.len());
    assert(model::badb_pairs(b) == entries.len());
    assert forall|i: int| 0 <= i < entries.len() implies #[trigger] model::badb_entry(b, i)
        == entries[i] by {
        let k = badb::HEADER_LONGS + 2 * i;
        lemma_block_of_long(size, longs, k);
        lemma_block_of_long(size, longs, k + 1);
        assert(badb::ENTRIES + 8 * i == 4 * k);
        assert(badb::ENTRIES + 8 * i + 4 == 4 * (k + 1));
    }
    assert(model::badb_entries(b) =~= entries);
}

} // verus!
