//! The bytes that a block's fields are in, and what makes a block a good one.
use vstd::prelude::*;

use crate::media::{BlockSource, Medium};
use crate::model::{FileSysHeader, Partition, Rdb};
use crate::walk::RdbError;
use crate::{bytes, checksum, extent_laws, geometry_laws, model, parse, walk};

verus! {

/// The number that the four bytes from `at` on are, the most significant first.
pub open spec fn number(b: Seq<u8>, at: int) -> int {
    ((b[at] * 256 + b[at + 1]) * 256 + b[at + 2]) * 256 + b[at + 3]
}

/// The number, taken as a signed one of 32 bits.
pub open spec fn signed(n: int) -> int {
    if n < 0x8000_0000 {
        n
    } else {
        n - 0x1_0000_0000
    }
}

/// Bit `value` of the number is set, `value` being 1, 2, 4 and so on.
pub open spec fn has_bit(n: int, value: int) -> bool {
    (n / value) % 2 == 1
}

/// A longword is the number that its bytes are.
pub proof fn lemma_number(b: Seq<u8>, at: int)
    ensures
        bytes::long_at(b, at) == number(b, at),
        0 <= number(b, at) <= 0xFFFF_FFFF,
{
    reveal(bytes::long_at);
}

/// Every longword is the number that its bytes are.
pub proof fn lemma_numbers(b: Seq<u8>)
    ensures
        forall|at: int| #[trigger] bytes::long_at(b, at) == number(b, at),
        forall|at: int| 0 <= #[trigger] number(b, at) <= 0xFFFF_FFFF,
{
    reveal(bytes::long_at);
}

proof fn lemma_bits(v: u32)
    ensures
        v & 1 != 0 <==> has_bit(v as int, 1),
        v & 2 != 0 <==> has_bit(v as int, 2),
        v & 4 != 0 <==> has_bit(v as int, 4),
        v & 8 != 0 <==> has_bit(v as int, 8),
        v & 0x10 != 0 <==> has_bit(v as int, 16),
        v & 0x20 != 0 <==> has_bit(v as int, 32),
        v & 0x40 != 0 <==> has_bit(v as int, 64),
        v & 0x100 != 0 <==> has_bit(v as int, 256),
{
    assert((v & 1 != 0 <==> v % 2 == 1) && (v & 2 != 0 <==> (v / 2) % 2 == 1) && (v & 4 != 0 <==> (
    v / 4) % 2 == 1) && (v & 8 != 0 <==> (v / 8) % 2 == 1) && (v & 0x10 != 0 <==> (v / 16) % 2
        == 1) && (v & 0x20 != 0 <==> (v / 32) % 2 == 1) && (v & 0x40 != 0 <==> (v / 64) % 2 == 1)
        && (v & 0x100 != 0 <==> (v / 256) % 2 == 1)) by (bit_vector);
}

proof fn lemma_signed(v: u32)
    ensures
        v as i32 == signed(v as int),
{
    assert(v < 0x8000_0000 ==> v as i32 == v) by (bit_vector);
    assert(v >= 0x8000_0000 ==> v as i32 == v - 0x1_0000_0000) by (bit_vector);
}

/// Field `i` of the envec of a `PART` block: the envec starts at byte 128 with
/// how many fields it has after that one, and the block holds it.
pub open spec fn envec_entry(b: Seq<u8>, i: int) -> Option<int> {
    if i <= number(b, 128) && 128 + 4 * i + 4 <= b.len() {
        Some(number(b, 128 + 4 * i))
    } else {
        None
    }
}

/// The same, or 0 where there is none.
pub open spec fn envec_value(b: Seq<u8>, i: int) -> int {
    match envec_entry(b, i) {
        Some(v) => v,
        None => 0,
    }
}

proof fn lemma_envec(b: Seq<u8>, i: int)
    requires
        b.len() >= 512,
        0 <= i,
    ensures
        match model::envec_present(b, i) {
            Some(v) => envec_entry(b, i) == Some(v as int),
            None => envec_entry(b, i) is None,
        },
        model::envec_field(b, i) == envec_value(b, i),
{
    lemma_number(b, 128);
    lemma_number(b, 128 + 4 * i);
}

/// The option holds that number.
pub open spec fn holds(o: Option<u32>, n: Option<int>) -> bool {
    match (o, n) {
        (Some(v), Some(w)) => v == w,
        (None, None) => true,
        _ => false,
    }
}

/// The text has the characters that the bytes from `at` on are.
pub open spec fn spells(s: Seq<char>, b: Seq<u8>, at: int) -> bool {
    forall|j: int| 0 <= j < s.len() ==> #[trigger] s[j] as int == b[at + j]
}

/// A partition is what its `PART` block says: the name has its length at byte 36
/// and 31 characters at most, the flags are at byte 20, and the envec fields are
/// where the format puts them. Its blocks are those of its cylinders, each of as
/// many blocks as there are on a track and surfaces.
pub proof fn law_partition_is_its_block(p: Partition, b: Seq<u8>, lba: u64)
    requires
        model::part_reads(p, b, lba),
        b.len() >= 512,
    ensures
        p.part_block == lba,
        p.name@.len() == if b[36] > 31 {
            31
        } else {
            b[36] as int
        },
        spells(p.name@, b, 37),
        p.bootable <==> has_bit(number(b, 20), 1),
        p.no_automount <==> has_bit(number(b, 20), 2),
        p.size_block_longs == envec_value(b, 1),
        p.cylinder_blocks == envec_value(b, 3) * envec_value(b, 5),
        p.low_cyl == envec_value(b, 9),
        p.high_cyl == envec_value(b, 10),
        p.num_buffers == envec_value(b, 11),
        p.buf_mem_type == envec_value(b, 12),
        p.max_transfer == envec_value(b, 13),
        p.mask == envec_value(b, 14),
        p.boot_pri == signed(envec_value(b, 15)),
        p.dos_type == envec_value(b, 16),
        holds(p.baud, envec_entry(b, 17)),
        holds(p.control, envec_entry(b, 18)),
        holds(p.boot_blocks, envec_entry(b, 19)),
        p.start_lba == extent_laws::capped(p.low_cyl * p.cylinder_blocks),
        p.block_len == if envec_entry(b, 10) is None || p.high_cyl < p.low_cyl {
            0
        } else {
            extent_laws::capped((p.high_cyl - p.low_cyl + 1) * p.cylinder_blocks)
        },
        forall|i: int|
            0 <= i < p.envec_raw@.len() ==> envec_entry(b, i) == Some(
                #[trigger] p.envec_raw@[i] as int,
            ),
        envec_entry(b, p.envec_raw@.len() as int) is None,
{
    lemma_numbers(b);
    lemma_bits(bytes::long_at(b, 20));
    assert forall|i: int| 0 <= i implies {
        &&& #[trigger] model::envec_field(b, i) == envec_value(b, i)
        &&& match model::envec_present(b, i) {
            Some(v) => envec_entry(b, i) == Some(v as int),
            None => envec_entry(b, i) is None,
        }
    } by {
        lemma_envec(b, i);
    }
    lemma_envec(b, 17);
    lemma_envec(b, 18);
    lemma_envec(b, 19);
    lemma_envec(b, 10);
    lemma_signed(model::envec_field(b, 15));
    assert(p.low_cyl * p.cylinder_blocks >= 0) by (nonlinear_arith);
    if p.high_cyl >= p.low_cyl {
        assert((p.high_cyl - p.low_cyl + 1) * p.cylinder_blocks >= 0) by (nonlinear_arith)
            requires
                p.high_cyl >= p.low_cyl,
        ;
    }
}

/// A patched field is there where its bit of the flags at byte 40 is set.
pub open spec fn patched_entry(b: Seq<u8>, bit: int, i: int) -> Option<int> {
    if has_bit(number(b, 40), bit) {
        Some(number(b, 44 + 4 * i))
    } else {
        None
    }
}

/// The option holds that number, taken as a signed one.
pub open spec fn holds_signed(o: Option<i32>, n: Option<int>) -> bool {
    match (o, n) {
        (Some(v), Some(w)) => v == signed(w),
        (None, None) => true,
        _ => false,
    }
}

/// A filesystem is what its `FSHD` block says.
pub proof fn law_filesystem_is_its_block(f: FileSysHeader, b: Seq<u8>, lba: u64)
    requires
        model::fshd_reads_but_head(f, b, lba),
    ensures
        f.fshd_block == lba,
        f.host_id == number(b, 12),
        f.flags == number(b, 20),
        f.dos_type == number(b, 32),
        f.version == number(b, 36),
        f.patch_flags == number(b, 40),
        holds(f.node_type, patched_entry(b, 1, 0)),
        holds(f.task, patched_entry(b, 2, 1)),
        holds(f.lock, patched_entry(b, 4, 2)),
        holds(f.handler, patched_entry(b, 8, 3)),
        holds(f.stack_size, patched_entry(b, 16, 4)),
        holds_signed(f.priority, patched_entry(b, 32, 5)),
        holds_signed(f.startup, patched_entry(b, 64, 6)),
        holds_signed(f.global_vec, patched_entry(b, 256, 8)),
        model::fshd_reads(f, b, lba) ==> f.seg_list_blocks == number(b, 72),
{
    lemma_numbers(b);
    lemma_bits(bytes::long_at(b, 40));
    lemma_signed(bytes::long_at(b, 64));
    lemma_signed(bytes::long_at(b, 68));
    lemma_signed(bytes::long_at(b, 76));
}

/// The text is what a field of `len` bytes at `at` says: its bytes up to the last
/// that is neither a space nor a NUL.
pub open spec fn is_field(s: Seq<char>, b: Seq<u8>, at: int, len: int) -> bool {
    &&& s.len() <= len
    &&& spells(s, b, at)
    &&& s.len() > 0 ==> b[at + s.len() - 1] != 0x20 && b[at + s.len() - 1] != 0
    &&& forall|j: int|
        s.len() <= j < len ==> #[trigger] b[at + j] == 0x20 || b[at + j] == 0
}

proof fn lemma_trimmed(s: Seq<u8>)
    ensures
        model::trimmed(s).len() <= s.len(),
        model::trimmed(s) == s.take(model::trimmed(s).len() as int),
        model::trimmed(s).len() > 0 ==> model::trimmed(s).last() != 0x20
            && model::trimmed(s).last() != 0,
        forall|j: int|
            model::trimmed(s).len() <= j < s.len() ==> #[trigger] s[j] == 0x20 || s[j] == 0,
    decreases s.len(),
{
    if s.len() > 0 && (s.last() == 0x20 || s.last() == 0) {
        lemma_trimmed(s.drop_last());
        let n = model::trimmed(s).len() as int;
        assert(s.drop_last().take(n) =~= s.take(n));
        assert forall|j: int| n <= j < s.len() implies #[trigger] s[j] == 0x20 || s[j] == 0 by {
            if j < s.len() - 1 {
                assert(s.drop_last()[j] == s[j]);
            }
        }
    } else {
        assert(s.take(s.len() as int) =~= s);
    }
}

proof fn lemma_field(b: Seq<u8>, at: (usize, usize))
    requires
        at.0 + at.1 <= b.len(),
    ensures
        is_field(model::padded_text(b, at), b, at.0 as int, at.1 as int),
{
    let raw = b.subrange(at.0 as int, at.0 + at.1);
    lemma_trimmed(raw);
    let t = model::trimmed(raw);
    let s = model::padded_text(b, at);
    assert forall|j: int| 0 <= j < s.len() implies #[trigger] s[j] as int == b[at.0 + j] by {
        assert(t[j] == raw[j]);
    }
    if s.len() > 0 {
        assert(t.last() == raw[s.len() - 1]);
    }
    assert forall|j: int| s.len() <= j < at.1 implies #[trigger] b[at.0 + j] == 0x20 || b[at.0 + j]
        == 0 by {
        assert(raw[j] == b[at.0 + j]);
    }
}

/// The disk-level values are what the `RDSK` block says.
pub proof fn law_disk_is_its_block(rdb: Rdb, b: Seq<u8>, lba: u64)
    requires
        model::rdsk_reads_but_heads(rdb, b, lba),
        b.len() >= 512,
    ensures
        rdb.rdsk_block == lba,
        rdb.host_id == number(b, 12),
        rdb.block_bytes == number(b, 16),
        rdb.flags == number(b, 20),
        rdb.drive_init == number(b, 36),
        rdb.cylinders == number(b, 64),
        rdb.sectors == number(b, 68),
        rdb.heads == number(b, 72),
        rdb.interleave == number(b, 76),
        rdb.park == number(b, 80),
        rdb.write_pre_comp == number(b, 96),
        rdb.reduced_write == number(b, 100),
        rdb.step_rate == number(b, 104),
        rdb.rdb_blocks_lo == number(b, 128),
        rdb.rdb_blocks_hi == number(b, 132),
        rdb.lo_cylinder == number(b, 136),
        rdb.hi_cylinder == number(b, 140),
        rdb.cyl_blocks == number(b, 144),
        rdb.auto_park_seconds == number(b, 148),
        rdb.high_rdsk_block == number(b, 152),
        is_field(rdb.disk_vendor@, b, 160, 8),
        is_field(rdb.disk_product@, b, 168, 16),
        is_field(rdb.disk_revision@, b, 184, 4),
        is_field(rdb.controller_vendor@, b, 188, 8),
        is_field(rdb.controller_product@, b, 196, 16),
        is_field(rdb.controller_revision@, b, 212, 4),
        model::rdsk_reads(rdb, b, lba) ==> rdb.bad_block_list == number(b, 24)
            && rdb.filesys_header_list == number(b, 32),
{
    lemma_numbers(b);
    lemma_field(b, (160, 8));
    lemma_field(b, (168, 16));
    lemma_field(b, (184, 4));
    lemma_field(b, (188, 8));
    lemma_field(b, (196, 16));
    lemma_field(b, (212, 4));
}

/// The entries of a bad-block list are the pairs of numbers from byte 24 of a
/// `BADB` block on, as many as its `SummedLongs` has after the six of the header
/// and the block holds.
pub proof fn law_bad_blocks_are_their_block(b: Seq<u8>)
    requires
        b.len() >= 512,
    ensures
        ({
            let entries = model::badb_entries(b);
            let n = entries.len();
            &&& forall|i: int|
                0 <= i < n ==> (#[trigger] entries[i]).bad == number(b, 24 + 8 * i)
                    && entries[i].good == number(b, 28 + 8 * i)
            &&& n > 0 ==> 6 + 2 * n <= number(b, 4) && 24 + 8 * n <= b.len()
            &&& 6 + 2 * (n + 1) > number(b, 4) || 24 + 8 * (n + 1) > b.len()
        }),
{
    lemma_numbers(b);
    let entries = model::badb_entries(b);
    assert forall|i: int| 0 <= i < entries.len() implies (#[trigger] entries[i]).bad == number(
        b,
        24 + 8 * i,
    ) && entries[i].good == number(b, 28 + 8 * i) by {
        assert(entries[i] == model::badb_entry(b, i));
    }
}

/// The sum of `n` longwords from longword `from` on.
pub open spec fn sum_of(b: Seq<u8>, from: int, n: nat) -> int
    decreases n,
{
    if n == 0 {
        0
    } else {
        number(b, 4 * from) + sum_of(b, from + 1, (n - 1) as nat)
    }
}

/// The block checks out: the longwords that it says it sums, three at least and
/// no more than it has, come to a multiple of 2^32.
pub open spec fn checks_out(b: Seq<u8>) -> bool {
    let n = number(b, 4);
    &&& b.len() >= 12
    &&& 3 <= n
    &&& 4 * n <= b.len()
    &&& sum_of(b, 0, n as nat) % 0x1_0000_0000 == 0
}

proof fn lemma_sum_back(b: Seq<u8>, from: int, n: nat)
    requires
        n > 0,
    ensures
        sum_of(b, from, n) == sum_of(b, from, (n - 1) as nat) + number(b, 4 * (from + n - 1)),
    decreases n,
{
    reveal_with_fuel(sum_of, 2);
    if n > 1 {
        lemma_sum_back(b, from + 1, (n - 1) as nat);
        assert(from + 1 + (n - 1) - 1 == from + n - 1);
    }
}

proof fn lemma_sum(b: Seq<u8>, n: nat)
    ensures
        checksum::sum_longs(b, n) == sum_of(b, 0, n),
    decreases n,
{
    if n > 0 {
        lemma_sum(b, (n - 1) as nat);
        lemma_sum_back(b, 0, n);
        lemma_number(b, 4 * (n - 1));
    }
}

/// A checksum holds exactly where the block checks out.
pub proof fn law_checksum_is_the_sum(b: Seq<u8>)
    ensures
        checksum::checksum_holds(b) <==> checks_out(b),
{
    lemma_number(b, 4);
    lemma_sum(b, number(b, 4) as nat);
}

/// One byte more or less in a summed longword changes the sum by less than 2^32.
proof fn lemma_sum_differs(a: Seq<u8>, b: Seq<u8>, at: int, from: int, n: nat)
    requires
        a.len() == b.len(),
        forall|j: int| j != at ==> #[trigger] a[j] == b[j],
        from >= 0,
    ensures
        4 * from <= at < 4 * (from + n) && a[at] != b[at] ==> {
            let d = sum_of(a, from, n) - sum_of(b, from, n);
            -0x1_0000_0000 < d < 0x1_0000_0000 && d != 0
        },
        !(4 * from <= at < 4 * (from + n)) ==> sum_of(a, from, n) == sum_of(b, from, n),
    decreases n,
{
    if n > 0 {
        lemma_sum_differs(a, b, at, from + 1, (n - 1) as nat);
        let k = 4 * from;
        assert(k != at ==> a[k] == b[k]);
        assert(k + 1 != at ==> a[k + 1] == b[k + 1]);
        assert(k + 2 != at ==> a[k + 2] == b[k + 2]);
        assert(k + 3 != at ==> a[k + 3] == b[k + 3]);
    }
}

/// A checksum catches any one byte: of two blocks that differ in one byte of what
/// they sum, `SummedLongs` itself aside, at most one checks out. A byte that is
/// not summed makes no difference.
pub proof fn law_checksum_catches_a_byte(a: Seq<u8>, b: Seq<u8>, at: int)
    requires
        a.len() == b.len() >= 12,
        0 <= at < a.len(),
        !(4 <= at < 8),
        a[at] != b[at],
        forall|j: int| j != at ==> #[trigger] a[j] == b[j],
    ensures
        at < 4 * number(a, 4) ==> !(checksum::checksum_holds(a) && checksum::checksum_holds(b)),
        at >= 4 * number(a, 4) ==> (checksum::checksum_holds(a) <==> checksum::checksum_holds(b)),
{
    law_checksum_is_the_sum(a);
    law_checksum_is_the_sum(b);
    assert(a[4] == b[4] && a[5] == b[5] && a[6] == b[6] && a[7] == b[7]);
    lemma_number(a, 4);
    let n = number(a, 4) as nat;
    lemma_sum_differs(a, b, at, 0, n);
}

/// Block `lba` is on the medium, as far as it says how many it has.
pub open spec fn is_there(m: Medium, lba: u64) -> bool {
    m.block_count matches Some(n) ==> lba < n
}

/// The block starts with `id` and checks out.
pub open spec fn is_good(b: Seq<u8>, id: u32) -> bool {
    number(b, 0) == id && checks_out(b)
}

/// From `head` the chain goes through the blocks at `lbas` to `tail`: they are
/// there, each starts with `id`, checks out and leads at byte 16 to the next, none
/// comes twice, and there are no more than 2^20.
pub open spec fn leads(m: Medium, head: u32, id: u32, lbas: Seq<u64>, tail: u32) -> bool {
    &&& lbas.len() <= 0x10_0000
    &&& forall|i: int, j: int|
        0 <= i < j < lbas.len() ==> #[trigger] lbas[i] != #[trigger] lbas[j]
    &&& forall|k: int|
        0 <= k < lbas.len() ==> {
            &&& (#[trigger] lbas[k]) < 0xFFFF_FFFF
            &&& is_there(m, lbas[k])
            &&& is_good(m.blocks[lbas[k]], id)
        }
    &&& lbas.len() == 0 ==> head == tail
    &&& lbas.len() > 0 ==> {
        &&& head == lbas[0]
        &&& number(m.blocks[lbas.last()], 16) == tail
        &&& forall|k: int|
            0 <= k < lbas.len() - 1 ==> number(m.blocks[#[trigger] lbas[k]], 16) == lbas[k + 1]
    }
}

proof fn lemma_good(b: Seq<u8>, id: u32)
    ensures
        walk::good_block(b, id) <==> is_good(b, id),
{
    lemma_number(b, 0);
    law_checksum_is_the_sum(b);
}

/// A walk goes where the pointers lead, and where they lead a walk goes.
pub proof fn law_walk_follows_the_pointers(
    m: Medium,
    head: u32,
    id: u32,
    lbas: Seq<u64>,
    tail: u32,
)
    ensures
        walk::is_walk(m, head, id, lbas, tail) <==> leads(m, head, id, lbas, tail),
        walk::is_chain(m, head, id, lbas) <==> leads(m, head, id, lbas, 0xFFFF_FFFF),
{
    lemma_walk(m, head, id, lbas, tail);
    lemma_walk(m, head, id, lbas, 0xFFFF_FFFF);
}

proof fn lemma_walk(m: Medium, head: u32, id: u32, lbas: Seq<u64>, tail: u32)
    ensures
        walk::is_walk(m, head, id, lbas, tail) <==> leads(m, head, id, lbas, tail),
{
    reveal(walk::is_walk);
    assert forall|k: int| 0 <= k < lbas.len() implies {
        &&& walk::good_block(m.blocks[#[trigger] lbas[k]], id) <==> is_good(m.blocks[lbas[k]], id)
        &&& walk::next_of(m.blocks[lbas[k]]) == number(m.blocks[lbas[k]], 16)
    } by {
        lemma_good(m.blocks[lbas[k]], id);
        lemma_number(m.blocks[lbas[k]], 16);
    }
    if walk::is_walk(m, head, id, lbas, tail) {
        assert forall|k: int| 0 <= k < lbas.len() - 1 implies number(
            m.blocks[#[trigger] lbas[k]],
            16,
        ) == lbas[k + 1] by {
            let n = k + 1;
            assert(0 <= n < lbas.len());
            assert(lbas[n] < bytes::CHAIN_END);
            assert(walk::next_of(m.blocks[lbas[k]]) == lbas[n] as u32);
        }
        if lbas.len() > 0 {
            let last = lbas[lbas.len() - 1];
            assert(walk::next_of(m.blocks[last]) == number(m.blocks[last], 16));
            assert(lbas[0] < 0xFFFF_FFFF);
        }
        assert(leads(m, head, id, lbas, tail));
    }
    if leads(m, head, id, lbas, tail) {
        assert(lbas.no_duplicates());
        if lbas.len() > 0 {
            assert(lbas.last() == lbas[lbas.len() - 1]);
            assert(lbas[0] < 0xFFFF_FFFF);
        }
        assert forall|k: int| 0 <= k < lbas.len() implies {
            &&& lbas[k] < bytes::CHAIN_END
            &&& m.has(#[trigger] lbas[k])
            &&& walk::good_block(m.blocks[lbas[k]], id)
        } by {
            assert(is_there(m, lbas[k]));
        }
        assert forall|k: int| 0 <= k < lbas.len() implies walk::next_of(
            m.blocks[#[trigger] lbas[k]],
        ) == if k == lbas.len() - 1 {
            tail
        } else {
            lbas[k + 1] as u32
        } by {
            if k < lbas.len() - 1 {
                assert(lbas[k + 1] < 0xFFFF_FFFF);
            }
        }
        assert(walk::is_walk(m, head, id, lbas, tail));
    }
}

/// A chain breaks off for a reason, at the first block that is not as it should
/// be: it is past the end of the medium, it was passed before, it would be one
/// too many, it cannot be read, it is of another kind, or it does not check out.
pub proof fn law_chain_breaks_off_for_a_reason<S: BlockSource>(
    disk: S,
    head: u32,
    id: u32,
    e: RdbError<S::Error>,
)
    requires
        walk::chain_breaks(disk, head, id, e),
    ensures
        exists|lbas: Seq<u64>, tail: u32|
            {
                let m = disk.medium();
                let lba = tail as u64;
                let passed = exists|k: int| 0 <= k < lbas.len() && #[trigger] lbas[k] == lba;
                let is_next = is_there(m, lba) && !passed && lbas.len() < 0x10_0000;
                &&& #[trigger] leads(disk.medium(), head, id, lbas, tail)
                &&& tail != 0xFFFF_FFFF
                &&& match e {
                    RdbError::ChainOutOfRange { lba: at } => at == lba && !is_there(m, lba),
                    RdbError::ChainCycle { lba: at } => at == lba && is_there(m, lba) && passed,
                    RdbError::ChainTooLong { limit } => limit == 0x10_0000 && lbas.len()
                        == 0x10_0000 && is_there(m, lba) && !passed,
                    RdbError::Io(x) => is_next && disk.read_fails(lba, x),
                    RdbError::WrongId { lba: at, expected, found } => is_next && at == lba
                        && expected == id && found == number(m.blocks[lba], 0) && found != id,
                    RdbError::BadChecksum { lba: at } => is_next && at == lba && number(
                        m.blocks[lba],
                        0,
                    ) == id && !checks_out(m.blocks[lba]),
                    _ => false,
                }
            },
{
    let m = disk.medium();
    let (lbas, tail) = choose|lbas: Seq<u64>, tail: u32|
        #[trigger] walk::is_walk(m, head, id, lbas, tail) && walk::stops_with(
            disk,
            id,
            lbas,
            tail,
            e,
        );
    law_walk_follows_the_pointers(m, head, id, lbas, tail);
    lemma_number(m.blocks[tail as u64], 0);
    law_checksum_is_the_sum(m.blocks[tail as u64]);
    assert(leads(m, head, id, lbas, tail));
}

/// The `RDSK` block is the first good one of the first 16 of the medium.
pub open spec fn is_first_rdsk(m: Medium, at: u64) -> bool {
    &&& at < 16
    &&& is_there(m, at)
    &&& is_good(m.blocks[at], 0x5244_534B)
    &&& forall|j: u64| j < at ==> !is_good(#[trigger] m.blocks[j], 0x5244_534B)
}

proof fn lemma_first_rdsk(m: Medium, at: u64)
    ensures
        parse::rdsk_found_at(m, at) <==> is_first_rdsk(m, at),
{
    assert forall|j: u64|
        walk::good_block(#[trigger] m.blocks[j], 0x5244_534B) <==> is_good(
            m.blocks[j],
            0x5244_534B,
        ) by {
        lemma_good(m.blocks[j], 0x5244_534B);
    }
    assert(at < parse::scan_end(m) <==> at < 16 && is_there(m, at));
}

/// A parse gives what is on the disk: the `RDSK` block is the first good one of
/// the first 16, it is in the medium's own block size, and the partitions, the
/// filesystems and the bad-block list are those of the chains that it heads.
pub proof fn law_parse_reads_the_disk(m: Medium, rdb: Rdb)
    requires
        parse::parses_as(m, rdb),
    ensures
        ({
            let b = m.blocks[rdb.rdsk_block];
            let parts = Seq::new(rdb.partitions@.len(), |i: int| rdb.partitions@[i].part_block);
            let fshds = Seq::new(rdb.filesystems@.len(), |i: int| rdb.filesystems@[i].fshd_block);
            &&& geometry_laws::is_block_size(m.block_size)
            &&& is_first_rdsk(m, rdb.rdsk_block)
            &&& number(b, 16) == m.block_size
            &&& leads(m, number(b, 28) as u32, 0x5041_5254, parts, 0xFFFF_FFFF)
            &&& leads(m, number(b, 32) as u32, 0x4653_4844, fshds, 0xFFFF_FFFF)
            &&& leads(m, number(b, 24) as u32, 0x4241_4442, rdb.badb_blocks@, 0xFFFF_FFFF)
            &&& model::rdsk_reads(rdb, b, rdb.rdsk_block)
            &&& forall|i: int|
                0 <= i < rdb.partitions@.len() ==> model::part_reads(
                    #[trigger] rdb.partitions@[i],
                    m.blocks[parts[i]],
                    parts[i],
                )
            &&& forall|i: int|
                0 <= i < rdb.filesystems@.len() ==> model::fshd_reads(
                    #[trigger] rdb.filesystems@[i],
                    m.blocks[fshds[i]],
                    fshds[i],
                )
        }),
{
    let b = m.blocks[rdb.rdsk_block];
    let parts = Seq::new(rdb.partitions@.len(), |i: int| rdb.partitions@[i].part_block);
    let fshds = Seq::new(rdb.filesystems@.len(), |i: int| rdb.filesystems@[i].fshd_block);
    lemma_first_rdsk(m, rdb.rdsk_block);
    lemma_numbers(b);
    law_walk_follows_the_pointers(m, number(b, 28) as u32, 0x5041_5254, parts, 0xFFFF_FFFF);
    law_walk_follows_the_pointers(m, number(b, 32) as u32, 0x4653_4844, fshds, 0xFFFF_FFFF);
    law_walk_follows_the_pointers(
        m,
        number(b, 24) as u32,
        0x4241_4442,
        rdb.badb_blocks@,
        0xFFFF_FFFF,
    );
}

/// The blocks before `k` are there and none is a good `RDSK` block, and the search
/// ends at `k`: it is past the first 16 or past the end, or it cannot be read.
pub open spec fn search_ends_at<S: BlockSource>(disk: S, k: u64) -> bool {
    let m = disk.medium();
    &&& k <= 16
    &&& forall|j: u64|
        j < k ==> is_there(m, j) && !is_good(#[trigger] m.blocks[j], 0x5244_534B)
    &&& k == 16 || !is_there(m, k) || exists|x: S::Error| #[trigger] disk.read_fails(k, x)
}

proof fn lemma_entries(m: Medium, lbas: Seq<u64>)
    ensures
        parse::all_entries(m, lbas) == Seq::new(
            lbas.len(),
            |i: int| model::badb_entries(m.blocks[lbas[i]]),
        ).flatten_alt(),
    decreases lbas.len(),
{
    let lists = Seq::new(lbas.len(), |i: int| model::badb_entries(m.blocks[lbas[i]]));
    if lbas.len() > 0 {
        let rest = lbas.drop_last();
        lemma_entries(m, rest);
        assert(lists.drop_last() =~= Seq::new(
            rest.len(),
            |i: int| model::badb_entries(m.blocks[rest[i]]),
        ));
        assert(lists.last() == model::badb_entries(m.blocks[lbas.last()]));
    }
}

/// The bad-block list that a parse gives is that of its blocks, one after another.
pub proof fn law_parse_reads_every_bad_block(m: Medium, rdb: Rdb)
    requires
        parse::parses_as(m, rdb),
    ensures
        rdb.bad_blocks@ == Seq::new(
            rdb.badb_blocks@.len(),
            |i: int| model::badb_entries(m.blocks[rdb.badb_blocks@[i]]),
        ).flatten(),
{
    lemma_entries(m, rdb.badb_blocks@);
    Seq::new(
        rdb.badb_blocks@.len(),
        |i: int| model::badb_entries(m.blocks[rdb.badb_blocks@[i]]),
    ).lemma_flatten_and_flatten_alt_are_equivalent();
}

/// A parse fails for a reason: blocks of an unsupported size; no good `RDSK` block
/// among the first 16, as far as they can be read; one in another block size than
/// the medium's; or a chain of the table that breaks off.
pub proof fn law_parse_fails_for_a_reason<S: BlockSource>(disk: S, e: RdbError<S::Error>)
    requires
        parse::parse_fails(disk, e),
    ensures
        ({
            let m = disk.medium();
            let supported = geometry_laws::is_block_size(m.block_size);
            match e {
                RdbError::UnsupportedBlockSize { block_size } => !supported && block_size
                    == m.block_size,
                RdbError::NoRdsk => supported && exists|k: u64| #[trigger]
                    search_ends_at(disk, k),
                RdbError::BlockBytesMismatch { block_bytes, block_size } => supported && exists|
                    at: u64,
                |
                    {
                        &&& #[trigger] is_first_rdsk(m, at)
                        &&& block_bytes == number(m.blocks[at], 16)
                        &&& block_bytes != m.block_size
                        &&& block_size == m.block_size
                    },
                _ => supported && exists|at: u64|
                    {
                        let b = m.blocks[at];
                        &&& #[trigger] is_first_rdsk(m, at)
                        &&& number(b, 16) == m.block_size
                        &&& walk::chain_breaks(disk, number(b, 28) as u32, 0x5041_5254, e)
                            || walk::chain_breaks(disk, number(b, 32) as u32, 0x4653_4844, e)
                            || walk::chain_breaks(disk, number(b, 24) as u32, 0x4241_4442, e)
                    },
            }
        }),
{
    let m = disk.medium();
    assert forall|at: u64| #[trigger]
        parse::rdsk_found_at(m, at) <==> is_first_rdsk(m, at) by {
        lemma_first_rdsk(m, at);
    }
    assert forall|j: u64|
        walk::good_block(#[trigger] m.blocks[j], 0x5244_534B) <==> is_good(
            m.blocks[j],
            0x5244_534B,
        ) by {
        lemma_good(m.blocks[j], 0x5244_534B);
    }
    match e {
        RdbError::UnsupportedBlockSize { block_size } => {},
        RdbError::NoRdsk => {
            let k = choose|k: u64| #[trigger] parse::scan_ends_at(disk, k);
            assert forall|j: u64| j < k implies is_there(m, j) && !is_good(
                #[trigger] m.blocks[j],
                0x5244_534B,
            ) by {
                assert(!walk::good_block(m.blocks[j], 0x5244_534B));
            }
            assert(search_ends_at(disk, k));
        },
        RdbError::BlockBytesMismatch { block_bytes, block_size } => {
            let at = choose|at: u64|
                {
                    &&& #[trigger] parse::rdsk_found_at(m, at)
                    &&& block_bytes == bytes::long_at(m.blocks[at], 16)
                    &&& block_bytes != m.block_size
                    &&& block_size == m.block_size
                };
            lemma_number(m.blocks[at], 16);
            assert(is_first_rdsk(m, at));
        },
        _ => {
            let at = choose|at: u64| #[trigger]
                parse::rdsk_usable_at(m, at) && parse::table_breaks(disk, m.blocks[at], e);
            lemma_numbers(m.blocks[at]);
            assert(is_first_rdsk(m, at));
        },
    }
}

} // verus!
