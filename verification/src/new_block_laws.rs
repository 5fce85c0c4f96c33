//! The bytes of the blocks that are made anew.
use vstd::prelude::*;
use vstd::utf8::*;

use crate::image::PartContext;
use crate::model::{BadBlockEntry, Rdb};
use crate::specs::{FileSystemSpec, PartitionSpec};
use crate::{bytes, editor, format_laws, geometry_laws, image, layout_laws};

verus! {

/// The bytes from `from` up to `to` are zeros.
pub open spec fn is_zero(b: Seq<u8>, from: int, to: int) -> bool {
    forall|i: int| from <= i < to ==> #[trigger] b[i] == 0
}

/// One where it is so, and otherwise none.
pub open spec fn one_if(so: bool) -> int {
    if so {
        1
    } else {
        0
    }
}

/// What a field that may be left out is written as.
pub open spec fn or_none(v: Option<u32>) -> int {
    match v {
        Some(n) => n as int,
        None => 0,
    }
}

/// The same of a signed field.
pub open spec fn signed_or_none(v: Option<i32>) -> int {
    match v {
        Some(n) => n as int,
        None => 0,
    }
}

/// `b` is a block of `size` bytes for the partition, without its checksum.
pub open spec fn is_part_block(
    b: Seq<u8>,
    size: int,
    spec: PartitionSpec,
    name: Seq<char>,
    low: u32,
    high: u32,
    next: u32,
    ctx: PartContext,
) -> bool {
    let label = encode_utf8(name);
    &&& b.len() == size
    &&& format_laws::number(b, 0) == 0x5041_5254
    &&& format_laws::number(b, 4) == 64
    &&& format_laws::number(b, 8) == 0
    &&& format_laws::number(b, 12) == ctx.host_id
    &&& format_laws::number(b, 16) == next
    &&& format_laws::number(b, 20) == one_if(spec.bootable) + 2 * one_if(spec.no_automount)
    &&& is_zero(b, 24, 36)
    &&& b[36] == label.len()
    &&& forall|j: int| 0 <= j < label.len() ==> #[trigger] b[37 + j] == label[j]
    &&& is_zero(b, 37 + label.len() as int, 128)
    &&& format_laws::number(b, 128) == 16
    &&& format_laws::number(b, 132) == match spec.size_block_longs {
        Some(longs) => longs as int,
        None => ctx.block_size as int / 4,
    }
    &&& format_laws::number(b, 136) == spec.sec_org
    &&& format_laws::number(b, 140) == ctx.heads
    &&& format_laws::number(b, 144) == spec.sectors_per_block
    &&& format_laws::number(b, 148) == ctx.sectors
    &&& format_laws::number(b, 152) == spec.reserved
    &&& format_laws::number(b, 156) == spec.pre_alloc
    &&& format_laws::number(b, 160) == spec.interleave
    &&& format_laws::number(b, 164) == low
    &&& format_laws::number(b, 168) == high
    &&& format_laws::number(b, 172) == spec.num_buffers
    &&& format_laws::number(b, 176) == spec.buf_mem_type
    &&& format_laws::number(b, 180) == spec.max_transfer
    &&& format_laws::number(b, 184) == spec.mask
    &&& format_laws::signed(format_laws::number(b, 188)) == spec.boot_pri
    &&& format_laws::number(b, 192) == spec.dos_type
    &&& is_zero(b, 196, size)
}

proof fn lemma_unsigned(v: i32)
    ensures
        format_laws::signed((v as u32) as int) == v,
{
    assert(v >= 0 ==> v as u32 == v) by (bit_vector);
    assert(v < 0 ==> v as u32 == v + 0x1_0000_0000) by (bit_vector);
}

proof fn lemma_flags(a: bool, b: bool)
    ensures
        ((if a {
            1u32
        } else {
            0u32
        }) | (if b {
            2u32
        } else {
            0u32
        })) == one_if(a) + 2 * one_if(b),
{
    assert((1u32 | 2u32) == 3 && (1u32 | 0u32) == 1 && (0u32 | 2u32) == 2 && (0u32 | 0u32) == 0)
        by (bit_vector);
}

/// Where a longword is zero, so are its bytes.
pub proof fn lemma_zero_long(size: nat, longs: spec_fn(int) -> u32, i: int)
    requires
        0 <= i < size,
        longs(i / 4) == 0,
    ensures
        image::block_of(size, longs)[i] == 0,
{
    assert(bytes::byte_of(0, i % 4) == 0);
}

/// A new `PART` block says what was asked for, and nothing else.
#[verifier::rlimit(40)]
pub proof fn law_new_partition_block(
    size: nat,
    spec: PartitionSpec,
    name: Seq<char>,
    low: u32,
    high: u32,
    next: u32,
    ctx: PartContext,
)
    requires
        bytes::supported_block_size(size as int),
        encode_utf8(name).len() <= 31,
        ctx.block_size <= 0xFFFF_FFFF,
    ensures
        is_part_block(
            image::new_part(size, spec, name, low, high, next, ctx),
            size as int,
            spec,
            name,
            low,
            high,
            next,
            ctx,
        ),
{
    let longs = |k: int| image::new_part_long(spec, low, high, next, ctx, k);
    let plain = image::block_of(size, longs);
    let label = image::bcpl(encode_utf8(name));
    let b = image::new_part(size, spec, name, low, high, next, ctx);
    format_laws::lemma_numbers(b);
    assert forall|k: int| (0 <= k < 9 || 32 <= k < size / 4) implies #[trigger] bytes::long_at(
        b,
        4 * k,
    ) == longs(k) by {
        image::lemma_block_of_long(size, longs, k);
        image::lemma_with_bytes_long(plain, 36, label, 4 * k);
    }
    lemma_flags(spec.bootable, spec.no_automount);
    lemma_unsigned(spec.boot_pri);
    assert(bytes::long_at(b, 4int * 0) == longs(0));
    assert(bytes::long_at(b, 4int * 1) == longs(1));
    assert(bytes::long_at(b, 4int * 2) == longs(2));
    assert(bytes::long_at(b, 4int * 3) == longs(3));
    assert(bytes::long_at(b, 4int * 4) == longs(4));
    assert(bytes::long_at(b, 4int * 5) == longs(5));
    assert(bytes::long_at(b, 4int * 32) == longs(32));
    assert(bytes::long_at(b, 4int * 33) == longs(33));
    assert(bytes::long_at(b, 4int * 34) == longs(34));
    assert(bytes::long_at(b, 4int * 35) == longs(35));
    assert(bytes::long_at(b, 4int * 36) == longs(36));
    assert(bytes::long_at(b, 4int * 37) == longs(37));
    assert(bytes::long_at(b, 4int * 38) == longs(38));
    assert(bytes::long_at(b, 4int * 39) == longs(39));
    assert(bytes::long_at(b, 4int * 40) == longs(40));
    assert(bytes::long_at(b, 4int * 41) == longs(41));
    assert(bytes::long_at(b, 4int * 42) == longs(42));
    assert(bytes::long_at(b, 4int * 43) == longs(43));
    assert(bytes::long_at(b, 4int * 44) == longs(44));
    assert(bytes::long_at(b, 4int * 45) == longs(45));
    assert(bytes::long_at(b, 4int * 46) == longs(46));
    assert(bytes::long_at(b, 4int * 47) == longs(47));
    assert(bytes::long_at(b, 4int * 48) == longs(48));
    let n = encode_utf8(name).len() as int;
    assert forall|i: int|
        (24 <= i < 36 || 37 + n <= i < 128 || 196 <= i < size) implies #[trigger] b[i] == 0 by {
        assert(b[i] == plain[i]);
        assert(longs(i / 4) == 0);
        lemma_zero_long(size, longs, i);
    }
    assert forall|j: int| 0 <= j < n implies #[trigger] b[37 + j] == encode_utf8(name)[j] by {
        assert(b[37 + j] == label[1 + j]);
    }
    assert(b[36] == label[0]);
}

/// The block of a partition that is added says what was asked for, with the
/// disk's own host, heads and sectors, and has no place yet.
pub proof fn law_added_partition_says_what_was_asked(
    rdb: Rdb,
    block_size: usize,
    spec: PartitionSpec,
    low: u32,
    high: u32,
)
    requires
        geometry_laws::is_block_size(block_size),
        encode_utf8(editor::new_name(rdb, spec)).len() <= 31,
    ensures
        ({
            let part = editor::added_part(rdb, block_size, spec, low, high);
            let ctx = PartContext {
                host_id: rdb.host_id,
                heads: rdb.heads,
                sectors: rdb.sectors,
                block_size,
            };
            &&& part.lba == 0xFFFF_FFFF_FFFF_FFFF
            &&& is_part_block(
                part.bytes,
                block_size as int,
                spec,
                editor::new_name(rdb, spec),
                low,
                high,
                0xFFFF_FFFF,
                ctx,
            )
        }),
{
    law_new_partition_block(
        block_size as nat,
        spec,
        editor::new_name(rdb, spec),
        low,
        high,
        0xFFFF_FFFF,
        editor::part_context(rdb, block_size),
    );
}

/// The patch flags that a filesystem is given where it asks for none: one bit for
/// every field that it sets, and one where it has a driver.
pub open spec fn bits_of(spec: FileSystemSpec, has_driver: bool) -> int {
    one_if(spec.node_type is Some) + 2 * one_if(spec.task is Some) + 4 * one_if(
        spec.lock is Some,
    ) + 8 * one_if(spec.handler is Some) + 16 * one_if(spec.stack_size is Some) + 32 * one_if(
        spec.priority is Some,
    ) + 64 * one_if(spec.startup is Some) + 128 * one_if(has_driver) + 256 * one_if(
        spec.global_vec is Some,
    )
}

proof fn lemma_bits_add(a: u32, b: u32, c: u32, d: u32, e: u32, f: u32, g: u32, h: u32, i: u32)
    by (bit_vector)
    requires
        a == 0 || a == 1,
        b == 0 || b == 2,
        c == 0 || c == 4,
        d == 0 || d == 8,
        e == 0 || e == 0x10,
        f == 0 || f == 0x20,
        g == 0 || g == 0x40,
        h == 0 || h == 0x80,
        i == 0 || i == 0x100,
    ensures
        (a | b | c | d | e | f | g | h | i) == a + b + c + d + e + f + g + h + i,
{
}

proof fn lemma_derived(spec: FileSystemSpec, has_driver: bool)
    ensures
        image::derived_flags(spec, has_driver) == bits_of(spec, has_driver),
{
    lemma_bits_add(
        image::bit_if(spec.node_type is Some, 1),
        image::bit_if(spec.task is Some, 2),
        image::bit_if(spec.lock is Some, 4),
        image::bit_if(spec.handler is Some, 8),
        image::bit_if(spec.stack_size is Some, 0x10),
        image::bit_if(spec.priority is Some, 0x20),
        image::bit_if(spec.startup is Some, 0x40),
        image::bit_if(has_driver, 0x80),
        image::bit_if(spec.global_vec is Some, 0x100),
    );
}

/// A new `FSHD` block says what was asked for, and nothing else.
#[verifier::rlimit(40)]
pub proof fn law_new_filesystem_block(size: nat, spec: FileSystemSpec, seg_list: u32, next: u32)
    requires
        bytes::supported_block_size(size as int),
    ensures
        ({
            let b = image::new_fshd(size, spec, seg_list, next);
            &&& b.len() == size
            &&& format_laws::number(b, 0) == 0x4653_4844
            &&& format_laws::number(b, 4) == 64
            &&& format_laws::number(b, 8) == 0
            &&& format_laws::number(b, 12) == spec.host_id
            &&& format_laws::number(b, 16) == next
            &&& format_laws::number(b, 20) == spec.flags
            &&& is_zero(b, 24, 32)
            &&& format_laws::number(b, 32) == spec.dos_type
            &&& format_laws::number(b, 36) == spec.version_major * 65536 + spec.version_minor
            &&& format_laws::number(b, 40) == match spec.patch_flags {
                Some(flags) => flags as int,
                None => bits_of(spec, seg_list != 0xFFFF_FFFF),
            }
            &&& format_laws::number(b, 44) == or_none(spec.node_type)
            &&& format_laws::number(b, 48) == or_none(spec.task)
            &&& format_laws::number(b, 52) == or_none(spec.lock)
            &&& format_laws::number(b, 56) == or_none(spec.handler)
            &&& format_laws::number(b, 60) == or_none(spec.stack_size)
            &&& format_laws::signed(format_laws::number(b, 64)) == signed_or_none(spec.priority)
            &&& format_laws::signed(format_laws::number(b, 68)) == signed_or_none(spec.startup)
            &&& format_laws::number(b, 72) == seg_list
            &&& format_laws::signed(format_laws::number(b, 76)) == signed_or_none(spec.global_vec)
            &&& is_zero(b, 80, size as int)
        }),
{
    let longs = |k: int| image::new_fshd_long(spec, seg_list, next, k);
    let b = image::new_fshd(size, spec, seg_list, next);
    format_laws::lemma_numbers(b);
    assert forall|k: int| 0 <= k < size / 4 implies #[trigger] bytes::long_at(b, 4 * k) == longs(
        k,
    ) by {
        image::lemma_block_of_long(size, longs, k);
    }
    lemma_derived(spec, seg_list != 0xFFFF_FFFF);
    if let Some(v) = spec.priority {
        lemma_unsigned(v);
    }
    if let Some(v) = spec.startup {
        lemma_unsigned(v);
    }
    if let Some(v) = spec.global_vec {
        lemma_unsigned(v);
    }
    assert(bytes::long_at(b, 4int * 0) == longs(0));
    assert(bytes::long_at(b, 4int * 1) == longs(1));
    assert(bytes::long_at(b, 4int * 2) == longs(2));
    assert(bytes::long_at(b, 4int * 3) == longs(3));
    assert(bytes::long_at(b, 4int * 4) == longs(4));
    assert(bytes::long_at(b, 4int * 5) == longs(5));
    assert(bytes::long_at(b, 4int * 8) == longs(8));
    assert(bytes::long_at(b, 4int * 9) == longs(9));
    assert(bytes::long_at(b, 4int * 10) == longs(10));
    assert(bytes::long_at(b, 4int * 11) == longs(11));
    assert(bytes::long_at(b, 4int * 12) == longs(12));
    assert(bytes::long_at(b, 4int * 13) == longs(13));
    assert(bytes::long_at(b, 4int * 14) == longs(14));
    assert(bytes::long_at(b, 4int * 15) == longs(15));
    assert(bytes::long_at(b, 4int * 16) == longs(16));
    assert(bytes::long_at(b, 4int * 17) == longs(17));
    assert(bytes::long_at(b, 4int * 18) == longs(18));
    assert(bytes::long_at(b, 4int * 19) == longs(19));
    assert forall|i: int| (24 <= i < 32 || 80 <= i < size) implies #[trigger] b[i] == 0 by {
        assert(longs(i / 4) == 0);
        lemma_zero_long(size, longs, i);
    }
}

/// The header of a driver that is added says what was asked for; it has a driver
/// exactly where the binary is not empty, and nothing of it has a place yet. Each
/// block of the driver sums its header and the whole longwords of what it
/// carries.
pub proof fn law_added_driver_says_what_was_asked(block_size: usize, spec: FileSystemSpec)
    requires
        geometry_laws::is_block_size(block_size),
    ensures
        ({
            let d = editor::new_driver(block_size, spec);
            let payload = block_size - 20;
            &&& d.header.lba == 0xFFFF_FFFF_FFFF_FFFF
            &&& d.header.bytes == image::new_fshd(
                block_size as nat,
                spec,
                if spec.binary@.len() == 0 {
                    0xFFFF_FFFF
                } else {
                    0
                },
                0xFFFF_FFFF,
            )
            &&& forall|c: int|
                0 <= c < d.chain.len() ==> {
                    let b = (#[trigger] d.chain[c]).bytes;
                    let carried = if (c + 1) * payload <= spec.binary@.len() {
                        payload
                    } else {
                        spec.binary@.len() - c * payload
                    };
                    &&& d.chain[c].lba == 0xFFFF_FFFF_FFFF_FFFF
                    &&& format_laws::number(b, 0) == 0x4C53_4547
                    &&& format_laws::number(b, 4) == 5 + carried / 4
                    &&& format_laws::number(b, 12) == spec.host_id
                    &&& format_laws::number(b, 16) == 0xFFFF_FFFF
                }
        }),
{
    let d = editor::new_driver(block_size, spec);
    let payload = block_size - 20;
    let size = block_size as nat;
    assert forall|c: int| 0 <= c < d.chain.len() implies {
        let b = (#[trigger] d.chain[c]).bytes;
        let carried = if (c + 1) * payload <= spec.binary@.len() {
            payload
        } else {
            spec.binary@.len() - c * payload
        };
        &&& d.chain[c].lba == 0xFFFF_FFFF_FFFF_FFFF
        &&& format_laws::number(b, 0) == 0x4C53_4547
        &&& format_laws::number(b, 4) == 5 + carried / 4
        &&& format_laws::number(b, 12) == spec.host_id
        &&& format_laws::number(b, 16) == 0xFFFF_FFFF
    } by {
        let data = image::piece(spec.binary@, payload, c);
        image::lemma_piece(spec.binary@, payload, c);
        lemma_lseg_header(size, spec.host_id, data, 0xFFFF_FFFF);
    }
}

proof fn lemma_lseg_header(size: nat, host_id: u32, data: Seq<u8>, next: u32)
    requires
        bytes::supported_block_size(size as int),
        data.len() + 20 <= size,
    ensures
        ({
            let b = image::new_lseg(size, host_id, data, next);
            &&& format_laws::number(b, 0) == 0x4C53_4547
            &&& format_laws::number(b, 4) == 5 + data.len() / 4
            &&& format_laws::number(b, 12) == host_id
            &&& format_laws::number(b, 16) == next
        }),
{
    let summed = image::lseg_summed(data);
    let longs = |k: int| image::new_lseg_long(host_id, summed, next, k);
    let plain = image::block_of(size, longs);
    let b = image::new_lseg(size, host_id, data, next);
    format_laws::lemma_numbers(b);
    assert forall|k: int| 0 <= k < 5 implies #[trigger] bytes::long_at(b, 4 * k) == longs(k) by {
        image::lemma_block_of_long(size, longs, k);
        image::lemma_with_bytes_long(plain, 20, data, 4 * k);
    }
    assert(bytes::long_at(b, 4int * 0) == longs(0));
    assert(bytes::long_at(b, 4int * 1) == longs(1));
    assert(bytes::long_at(b, 4int * 3) == longs(3));
    assert(bytes::long_at(b, 4int * 4) == longs(4));
}

/// `b` is a `BADB` block of `size` bytes with these entries.
pub open spec fn is_badb_block(
    b: Seq<u8>,
    size: int,
    host_id: u32,
    entries: Seq<BadBlockEntry>,
) -> bool {
    &&& b.len() == size
    &&& format_laws::number(b, 0) == 0x4241_4442
    &&& format_laws::number(b, 4) == 6 + 2 * entries.len()
    &&& format_laws::number(b, 12) == host_id
    &&& format_laws::number(b, 16) == 0xFFFF_FFFF
    &&& forall|j: int|
        0 <= j < entries.len() ==> format_laws::number(b, 24 + 8 * j) == (
        #[trigger] entries[j]).bad && format_laws::number(b, 28 + 8 * j) == entries[j].good
}

/// The smaller of the two.
pub open spec fn smaller(a: int, b: int) -> int {
    if a <= b {
        a
    } else {
        b
    }
}

/// A new bad-block list has every entry, in order: as many to a block as fit
/// after its 24 bytes of header, and no block more than that takes. Each block
/// says how many longwords it sums.
pub proof fn law_new_bad_block_list_has_every_entry(
    block_size: usize,
    host_id: u32,
    entries: Seq<BadBlockEntry>,
)
    requires
        geometry_laws::is_block_size(block_size),
    ensures
        ({
            let blocks = editor::new_badbs(block_size, host_id, entries);
            let per_block = (block_size - 24) / 8;
            &&& entries.len() <= blocks.len() * per_block
            &&& blocks.len() > 0 ==> (blocks.len() - 1) * per_block < entries.len()
            &&& forall|c: int|
                0 <= c < blocks.len() ==> {
                    &&& (#[trigger] blocks[c]).lba == 0xFFFF_FFFF_FFFF_FFFF
                    &&& is_badb_block(
                        blocks[c].bytes,
                        block_size as int,
                        host_id,
                        entries.subrange(
                            c * per_block,
                            smaller((c + 1) * per_block, entries.len() as int),
                        ),
                    )
                }
        }),
{
    let blocks = editor::new_badbs(block_size, host_id, entries);
    let per_block = (block_size - 24) / 8;
    layout_laws::lemma_is_count(entries.len(), per_block);
    assert forall|c: int| 0 <= c < blocks.len() implies {
        &&& (#[trigger] blocks[c]).lba == 0xFFFF_FFFF_FFFF_FFFF
        &&& is_badb_block(
            blocks[c].bytes,
            block_size as int,
            host_id,
            entries.subrange(c * per_block, smaller((c + 1) * per_block, entries.len() as int)),
        )
    } by {
        image::lemma_piece(entries, per_block, c);
        lemma_badb_block(block_size as nat, host_id, image::piece(entries, per_block, c));
    }
}

proof fn lemma_badb_block(size: nat, host_id: u32, entries: Seq<BadBlockEntry>)
    requires
        bytes::supported_block_size(size as int),
        24 + 8 * entries.len() <= size,
    ensures
        is_badb_block(image::new_badb(size, host_id, entries), size as int, host_id, entries),
{
    let longs = |k: int| image::new_badb_long(host_id, entries, k);
    let b = image::new_badb(size, host_id, entries);
    format_laws::lemma_numbers(b);
    assert forall|k: int| 0 <= k < size / 4 implies #[trigger] bytes::long_at(b, 4 * k) == longs(
        k,
    ) by {
        image::lemma_block_of_long(size, longs, k);
    }
    assert(bytes::long_at(b, 4int * 0) == longs(0));
    assert(bytes::long_at(b, 4int * 1) == longs(1));
    assert(bytes::long_at(b, 4int * 3) == longs(3));
    assert(bytes::long_at(b, 4int * 4) == longs(4));
    assert forall|j: int| 0 <= j < entries.len() implies format_laws::number(b, 24 + 8 * j) == (
    #[trigger] entries[j]).bad && format_laws::number(b, 28 + 8 * j) == entries[j].good by {
        let k = 6 + 2 * j;
        assert(bytes::long_at(b, 4 * k) == longs(k));
        assert(bytes::long_at(b, 4 * (k + 1)) == longs(k + 1));
        assert(4 * k == 24 + 8 * j);
        assert(4 * (k + 1) == 28 + 8 * j);
    }
}

} // verus!
