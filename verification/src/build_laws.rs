//! What holds of every table that is built.
use vstd::arithmetic::mul::*;
use vstd::prelude::*;
use vstd::utf8::*;

use crate::bytes::CHAIN_END;
use crate::layout::Request;
use crate::media::{BlockSink, BlockSource, Medium};
use crate::specs::PartitionSpec;
use crate::model::{FileSysHeader, Partition, Rdb};
use crate::walk::{RdbError, MAX_CHAIN_BLOCKS, RDB_LOCATION_LIMIT};
use crate::{
    builder, built_blocks, bytes, geometry, hdr, id, image, layout, media, model, names, parse,
    rdsk, text, validate, walk,
};

verus! {

/// No two partitions of a table get the same name, and every name fits its
/// field.
pub proof fn law_names_are_distinct(specs: Seq<PartitionSpec>, i: int, j: int)
    requires
        layout::name_refusal(specs, specs.len()) is None,
        0 <= i < j < specs.len() <= u64::MAX,
    ensures
        layout::name_of(specs, i) != layout::name_of(specs, j),
        names::name_fits(layout::name_of(specs, i)),
        names::name_fits(layout::name_of(specs, j)),
{
    let used = layout::explicit_names(specs);
    builder::lemma_name_fits(specs, i);
    builder::lemma_name_fits(specs, j);
    match (specs[i].explicit_name(), specs[j].explicit_name()) {
        (Some(a), Some(b)) => {
            builder::lemma_no_name_refusal(specs, specs.len(), j);
            assert(specs.take(j)[i] == specs[i]);
            assert(layout::explicit_names(specs.take(j)).contains(a));
        },
        (Some(a), None) => {
            builder::lemma_number_is_free(specs, j);
            assert(used.contains(a));
        },
        (None, Some(b)) => {
            builder::lemma_number_is_free(specs, i);
            assert(used.contains(b));
        },
        (None, None) => {
            builder::lemma_number_is_free(specs, i);
            builder::lemma_number_is_free(specs, j);
            lemma_cursor_past(specs, i as nat, j as nat);
            let a = names::first_free(used, layout::number_cursor(specs, i as nat));
            let b = names::first_free(used, layout::number_cursor(specs, j as nat));
            if names::dh(a) == names::dh(b) {
                names::lemma_dh_injective(a, b);
            }
        },
    }
}

/// A number that was handed out is not handed out again.
proof fn lemma_cursor_past(specs: Seq<PartitionSpec>, i: nat, j: nat)
    requires
        i < j <= specs.len(),
        specs[i as int].name is None,
    ensures
        names::first_free(layout::explicit_names(specs), layout::number_cursor(specs, i))
            < layout::number_cursor(specs, j),
    decreases j,
{
    if i + 1 < j {
        lemma_cursor_past(specs, i, (j - 1) as nat);
        if specs[j - 1].name is None {
            builder::lemma_number_is_free(specs, j - 1);
        }
    }
}

/// Every partition of a layout lies between the reserved area and the end of
/// the disk, and no two of them share a cylinder.
pub proof fn law_partitions_lie_apart(req: Request, sink_blocks: Option<u64>, i: int, j: int)
    requires
        req.layout_refusal(sink_blocks) is None,
        req.geometry.block_size > 0,
        0 <= i < req.specs.len(),
        0 <= j < req.specs.len(),
    ensures
        req.lo_cylinder() <= req.extent(i).0 <= req.extent(i).1 <= req.last_cylinder(),
        i != j ==> req.extent(i).1 < req.extent(j).0 || req.extent(j).1 < req.extent(i).0,
{
    lemma_cylinder_bytes(req);
    builder::lemma_placed_in_bounds(req, req.specs.len(), i);
    builder::lemma_placed_in_bounds(req, req.specs.len(), j);
    if i < j {
        lemma_no_overlap(req, i, j);
    } else if j < i {
        lemma_no_overlap(req, j, i);
    }
}

/// A cylinder of a geometry that is not empty has bytes.
proof fn lemma_cylinder_bytes(req: Request)
    requires
        req.early_refusal() is None,
        req.geometry.block_size > 0,
    ensures
        req.cyl() > 0,
        req.cylinder_bytes() > 0,
{
    lemma_mul_nonnegative(req.geometry.heads as int, req.geometry.sectors as int);
    lemma_mul_strictly_positive(req.cyl(), req.geometry.block_size as int);
}

/// No two partitions of a layout share a cylinder.
proof fn lemma_no_overlap(req: Request, a: int, b: int)
    requires
        req.overlap_refusal(req.specs.len()) is None,
        0 <= a < b < req.specs.len(),
    ensures
        req.overlap_refusal_of(a, b) is None,
{
    lemma_rows_clear(req, req.specs.len(), a);
    lemma_row_clear(req, a, req.specs.len() as int, b);
}

/// Where no row has an overlap, row `a` has none.
proof fn lemma_rows_clear(req: Request, n: nat, a: int)
    requires
        req.overlap_refusal(n) is None,
        0 <= a < n,
    ensures
        req.overlap_refusal_row(a, req.specs.len() as int) is None,
    decreases n,
{
    if a < n - 1 {
        lemma_rows_clear(req, (n - 1) as nat, a);
    }
}

/// Where a row has no overlap, none of its pairs is one.
proof fn lemma_row_clear(req: Request, a: int, n: int, b: int)
    requires
        req.overlap_refusal_row(a, n) is None,
        a < b < n,
    ensures
        req.overlap_refusal_of(a, b) is None,
    decreases n - a,
{
    if b < n - 1 {
        lemma_row_clear(req, a, n - 1, b);
    }
}

/// A disk whose size in bytes fits 64 bits can be built on, whatever is asked
/// for: no block address of it runs out.
pub proof fn law_addresses_fit_a_disk_of_64_bits(req: Request)
    requires
        req.geometry.cylinders * req.geometry.blocks_per_cylinder() * req.geometry.block_size
            <= u64::MAX,
        req.geometry.block_size > 0,
    ensures
        req.addresses_fit(),
{
    let cylinders = req.geometry.cylinders as int;
    let size = req.geometry.block_size as int;
    assert forall|i: int|
        #![trigger req.placement_refusal_at(i)]
        0 <= i < req.specs.len() && req.early_refusal() is None && req.placement_refusal(
            i as nat,
        ) is None implies {
        &&& req.specs[i].placement is Size ==> req.cylinder_bytes() <= u64::MAX
        &&& req.placement_refusal_at(i) is None ==> (req.extent(i).1 + 1) * req.cyl() <= u64::MAX
    } by {
        lemma_cylinder_bytes(req);
        let cyl = req.cyl();
        assert(cylinders >= 1);
        assert(cyl * size <= cylinders * cyl * size) by (nonlinear_arith)
            requires
                cylinders >= 1,
                cyl > 0,
                size > 0,
        ;
        assert(cylinders * cyl <= cylinders * cyl * size) by (nonlinear_arith)
            requires
                cylinders >= 1,
                cyl > 0,
                size > 0,
        ;
        if req.placement_refusal_at(i) is None {
            assert(req.extent(i).1 <= req.last_cylinder());
            builder::lemma_blocks_ordered(req.extent(i).1 + 1, cylinders, cyl);
        }
    }
}

/// A builder made for a size can be built, whatever partitions and filesystems
/// it is given.
pub proof fn law_addresses_fit_a_synthesized_geometry(
    req: Request,
    total_bytes: u64,
    block_size: usize,
)
    requires
        geometry::geometry_of(total_bytes, block_size) == Ok::<_, geometry::GeometryError>(
            req.geometry,
        ),
    ensures
        req.addresses_fit(),
{
    geometry::law_geometry_rounds_down(total_bytes, block_size);
    law_addresses_fit_a_disk_of_64_bits(req);
}

/// The blocks of the first `n` filesystems are as many as are counted, go to
/// blocks of their own, and stand behind the `PART` blocks.
pub proof fn lemma_fs_places(req: Request, n: nat)
    requires
        req.payload() > 0,
        req.rdsk_block + 1 + req.specs.len() + req.fs_blocks(n) <= u32::MAX,
    ensures
        req.fs_writes(n).len() == req.fs_blocks(n),
        forall|k: int|
            0 <= k < req.fs_writes(n).len() ==> req.rdsk_block + 1 + req.specs.len() <= (
            #[trigger] req.fs_writes(n)[k]).0 < req.rdsk_block + 1 + req.specs.len()
                + req.fs_blocks(n),
        forall|j: int, k: int|
            0 <= j < k < req.fs_writes(n).len() ==> (#[trigger] req.fs_writes(n)[j]).0 != (
            #[trigger] req.fs_writes(n)[k]).0,
    decreases n,
{
    builder::lemma_fs_writes(req, n, n);
    if n > 0 {
        let p = (n - 1) as nat;
        builder::lemma_fs_blocks_grow(req, p, n);
        lemma_fs_places(req, p);
        let whole = req.fs_writes(n);
        let head = req.fs_writes(p);
        let count = req.lseg_count(p as int);
        let at = req.fshd_block(p as int);
        assert forall|k: int| 0 <= k < whole.len() implies #[trigger] whole[k] == if k < head.len() {
            head[k]
        } else if k < head.len() + count {
            req.lseg_writes(p as int)[k - head.len()]
        } else {
            (at as u64, req.fshd_image(p as int))
        } by {}
        assert forall|k: int| head.len() <= k < head.len() + count implies (#[trigger] whole[k]).0
            == at + 1 + (k - head.len()) by {}
    }
}

/// Every write of a table goes to a block of its own inside the reserved area.
pub proof fn lemma_write_places(req: Request)
    requires
        req.payload() > 0,
        req.area_refusal() is None,
    ensures
        req.writes().len() == req.needed(),
        forall|k: int|
            0 <= k < req.writes().len() ==> (#[trigger] req.writes()[k]).0 < req.reserved()
                && req.writes()[k].0 < u32::MAX,
        forall|j: int, k: int|
            0 <= j < k < req.writes().len() ==> (#[trigger] req.writes()[j]).0 != (
            #[trigger] req.writes()[k]).0,
{
    let n = req.filesystems.len();
    builder::lemma_fs_blocks_grow(req, n, n);
    lemma_fs_places(req, n);
    let whole = req.writes();
    let parts = req.part_writes();
    let drivers = req.fs_writes(n);
    assert forall|k: int| 0 <= k < whole.len() implies #[trigger] whole[k] == if k < parts.len() {
        parts[k]
    } else if k < parts.len() + drivers.len() {
        drivers[k - parts.len()]
    } else {
        (req.rdsk_block as u64, req.rdsk_image())
    } by {}
}

/// A table is built inside its reserved area: every block of it is written
/// once, below the end that `rdb_RDBBlocksHi` declares, and so on no block of
/// any partition.
pub proof fn law_build_stays_in_its_area(req: Request, sink_blocks: Option<u64>, k: int)
    requires
        bytes::supported_block_size(req.geometry.block_size as int),
        req.layout_refusal(sink_blocks) is None,
        0 <= k < req.writes().len(),
    ensures
        req.writes()[k].0 <= req.layout().rdb_blocks_hi,
        forall|i: int|
            0 <= i < req.specs.len() ==> req.writes()[k].0 < (#[trigger] req.extent(i)).0
                * req.cyl(),
        forall|j: int|
            0 <= j < req.writes().len() && j != k ==> (#[trigger] req.writes()[j]).0
                != req.writes()[k].0,
{
    lemma_write_places(req);
    lemma_cylinder_bytes(req);
    lemma_area_ends_before(req);
    assert forall|i: int| 0 <= i < req.specs.len() implies req.writes()[k].0 < (
    #[trigger] req.extent(i)).0 * req.cyl() by {
        builder::lemma_placed_in_bounds(req, req.specs.len(), i);
        builder::lemma_blocks_ordered(req.lo_cylinder(), req.extent(i).0, req.cyl());
    }
}

/// The reserved area ends before its last cylinder does.
proof fn lemma_area_ends_before(req: Request)
    requires
        req.cyl() > 0,
    ensures
        req.reserved() <= req.lo_cylinder() * req.cyl(),
{
    let a = req.reserved() + req.cyl() - 1;
    vstd::arithmetic::div_mod::lemma_fundamental_div_mod(a, req.cyl());
    vstd::arithmetic::div_mod::lemma_mod_bound(a, req.cyl());
    lemma_mul_is_commutative(req.cyl(), a / req.cyl());
}

/// The `RDSK` block is written last: as long as it has not been, the block it
/// goes to holds what it held before, and so a build that is broken off
/// publishes nothing.
pub proof fn law_rdsk_is_written_last(req: Request, m: Medium, k: int)
    requires
        bytes::supported_block_size(req.geometry.block_size as int),
        req.area_refusal() is None,
        0 <= k < req.writes().len(),
    ensures
        req.writes().last() == (req.rdsk_block as u64, req.rdsk_image()),
        media::after_writes(m, req.writes().take(k)).blocks[req.rdsk_block as u64]
            == m.blocks[req.rdsk_block as u64],
{
    lemma_write_places(req);
    let all = req.writes();
    let some = all.take(k);
    assert forall|j: int| 0 <= j < some.len() implies (#[trigger] some[j]).0
        != req.rdsk_block as u64 by {
        assert(some[j] == all[j]);
        assert(all[all.len() - 1].0 == req.rdsk_block as u64);
    }
    media::lemma_after_writes_frame(m, some);
}

/// The same of a build that a failing write breaks off before the last block.
pub proof fn law_broken_off_build_publishes_nothing<S: BlockSink>(
    req: Request,
    start: S,
    end: S,
    e: S::Error,
    k: int,
)
    requires
        bytes::supported_block_size(req.geometry.block_size as int),
        req.area_refusal() is None,
        media::broke_off_at(end, start, req.writes(), e, k),
        k < req.writes().len() - 1,
    ensures
        end.target().blocks[req.rdsk_block as u64] == start.target().blocks[req.rdsk_block as u64],
{
    lemma_write_places(req);
    law_rdsk_is_written_last(req, start.target(), k);
    let all = req.writes();
    let before = media::after_writes(start.target(), all.take(k));
    let at = req.rdsk_block as u64;
    assert(all[k].0 != all[all.len() - 1].0);
    assert(before.blocks.remove(all[k].0) == end.target().blocks.remove(all[k].0));
    assert(before.blocks.remove(all[k].0)[at] == end.target().blocks.remove(all[k].0)[at]);
}

/// A disk that had no table has none until the last block of a build is on it:
/// a scan of what an interrupted build leaves finds no `RDSK` block.
pub proof fn law_interrupted_build_leaves_no_table(req: Request, m: Medium, k: int, j: u64)
    requires
        bytes::supported_block_size(req.geometry.block_size as int),
        req.early_refusal() is None,
        0 <= k < req.writes().len(),
        !walk::good_block(m.blocks[j], id::RDSK),
    ensures
        !walk::good_block(media::after_writes(m, req.writes().take(k)).blocks[j], id::RDSK),
{
    let all = req.writes();
    let some = all.take(k);
    media::lemma_after_writes_either(m, some, j);
    let b = media::after_writes(m, some).blocks[j];
    if b != m.blocks[j] {
        let i = choose|i: int| 0 <= i < some.len() && (#[trigger] some[i]).0 == j && some[i].1 == b;
        assert(all[i] == some[i]);
        lemma_chained_block(req, i);
    }
}

/// Every block of a table but the last that is written is a chained one.
proof fn lemma_chained_block(req: Request, k: int)
    requires
        bytes::supported_block_size(req.geometry.block_size as int),
        req.early_refusal() is None,
        0 <= k < req.writes().len() - 1,
    ensures
        bytes::long_at(req.writes()[k].1, hdr::ID as int) != id::RDSK,
{
    lemma_write_places(req);
    let all = req.writes();
    let n = req.filesystems.len();
    let parts = req.specs.len() as int;
    let size = req.geometry.block_size as nat;
    builder::lemma_fs_writes(req, n, n);
    builder::lemma_fs_blocks_grow(req, n, n);
    if k < parts {
        assert(all[k] == req.part_writes()[k]);
        builder::lemma_name_fits(req.specs, k);
        built_blocks::lemma_new_part_reads(
            size,
            req.specs[k],
            layout::name_of(req.specs, k),
            req.extent(k).0 as u32,
            req.extent(k).1 as u32,
            req.part_next(k),
            req.context(),
        );
    } else {
        assert(all[k] == req.fs_writes(n)[k - parts]);
        lemma_driver_block_id(req, n, k - parts);
    }
}

/// Every block of a filesystem is a `FSHD` or a `LSEG`.
proof fn lemma_driver_block_id(req: Request, n: nat, k: int)
    requires
        bytes::supported_block_size(req.geometry.block_size as int),
        0 <= k < req.fs_writes(n).len(),
    ensures
        bytes::long_at(req.fs_writes(n)[k].1, hdr::ID as int) != id::RDSK,
    decreases n,
{
    let size = req.geometry.block_size as nat;
    let p = (n - 1) as nat;
    let i = p as int;
    let head = req.fs_writes(p).len();
    if k < head {
        lemma_driver_block_id(req, p, k);
        assert(req.fs_writes(n)[k] == req.fs_writes(p)[k]);
    } else if k < head + req.lseg_writes(i).len() {
        let c = k - head;
        assert(req.fs_writes(n)[k] == req.lseg_writes(i)[c]);
        lemma_count_not_negative(req, i);
        builder::lemma_chunk(req, i, c);
        built_blocks::lemma_new_lseg_reads(
            size,
            req.filesystems[i].host_id,
            req.chunk(i, c),
            req.lseg_next(i, c),
        );
    } else {
        assert(req.fs_writes(n)[k] == (req.fshd_block(i) as u64, req.fshd_image(i)));
        built_blocks::lemma_new_fshd_reads(
            size,
            req.filesystems[i],
            req.seg_list(i),
            req.fshd_next(i),
        );
    }
}

/// The request can be built on `m`, its `RDSK` block is where a scan finds it
/// before any other, and no chain is too long to be walked.
pub open spec fn readable_on(req: Request, m: Medium) -> bool {
    &&& req.refusal(m.block_size, m.block_count) is None
    &&& req.addresses_fit()
    &&& req.rdsk_block < RDB_LOCATION_LIMIT
    &&& forall|j: u64|
        j < req.rdsk_block ==> !walk::good_block(#[trigger] m.blocks[j], id::RDSK)
    &&& req.specs.len() <= MAX_CHAIN_BLOCKS
    &&& req.filesystems.len() <= MAX_CHAIN_BLOCKS
}

/// The medium once the table is on it.
pub open spec fn built_on(req: Request, m: Medium) -> Medium {
    media::after_writes(m, req.writes())
}

/// Where the `PART` blocks go.
pub open spec fn part_places(req: Request) -> Seq<u64> {
    Seq::new(req.specs.len(), |i: int| req.part_block(i) as u64)
}

/// Where the `FSHD` blocks go.
pub open spec fn fshd_places(req: Request) -> Seq<u64> {
    Seq::new(req.filesystems.len(), |i: int| req.fshd_block(i) as u64)
}

/// Where the `LSEG` blocks of driver `i` go.
pub open spec fn lseg_places(req: Request, i: int) -> Seq<u64> {
    Seq::new(req.lseg_count(i) as nat, |c: int| (req.fshd_block(i) + 1 + c) as u64)
}

/// What the blocks of the medium are once the table is on it.
proof fn lemma_built_blocks(req: Request, m: Medium)
    requires
        bytes::supported_block_size(req.geometry.block_size as int),
        req.area_refusal() is None,
    ensures
        built_on(req, m).block_size == m.block_size,
        built_on(req, m).block_count == m.block_count,
        built_on(req, m).blocks[req.rdsk_block as u64] == req.rdsk_image(),
        forall|i: int|
            0 <= i < req.specs.len() ==> built_on(req, m).blocks[#[trigger] part_places(req)[i]]
                == req.part_image(i),
        forall|i: int|
            0 <= i < req.filesystems.len() ==> built_on(req, m).blocks[#[trigger] fshd_places(
                req,
            )[i]] == req.fshd_image(i),
        forall|i: int, c: int|
            0 <= i < req.filesystems.len() && 0 <= c < req.lseg_count(i) ==> built_on(
                req,
                m,
            ).blocks[#[trigger] lseg_places(req, i)[c]] == req.lseg_image(i, c),
        forall|j: u64|
            (forall|k: int| 0 <= k < req.writes().len() ==> (#[trigger] req.writes()[k]).0 != j)
                ==> #[trigger] built_on(req, m).blocks[j] == m.blocks[j],
{
    lemma_write_places(req);
    media::lemma_after_writes_frame(m, req.writes());
    let all = req.writes();
    let n = req.filesystems.len();
    let parts = req.specs.len() as int;
    builder::lemma_fs_writes(req, n, n);
    assert(all[all.len() - 1] == (req.rdsk_block as u64, req.rdsk_image()));
    media::lemma_after_writes_block(m, all, all.len() - 1);
    assert forall|i: int| 0 <= i < req.specs.len() implies built_on(req, m).blocks[
    #[trigger] part_places(req)[i]] == req.part_image(i) by {
        assert(all[i] == req.part_writes()[i]);
        media::lemma_after_writes_block(m, all, i);
    }
    assert forall|i: int| 0 <= i < req.filesystems.len() implies built_on(req, m).blocks[
    #[trigger] fshd_places(req)[i]] == req.fshd_image(i) by {
        builder::lemma_fs_writes(req, i as nat, n);
        builder::lemma_fs_blocks_grow(req, i as nat, n);
        let k = req.fs_blocks(i as nat) + req.lseg_count(i);
        assert(req.lseg_count(i) >= 0) by {
            builder::lemma_fs_blocks_grow(req, i as nat, (i + 1) as nat);
            lemma_count_not_negative(req, i);
        }
        assert(all[parts + k] == req.fs_writes(n)[k]);
        media::lemma_after_writes_block(m, all, parts + k);
    }
    assert forall|i: int, c: int|
        0 <= i < req.filesystems.len() && 0 <= c < req.lseg_count(i) implies built_on(
        req,
        m,
    ).blocks[#[trigger] lseg_places(req, i)[c]] == req.lseg_image(i, c) by {
        builder::lemma_fs_writes(req, i as nat, n);
        builder::lemma_fs_blocks_grow(req, i as nat, n);
        let k = req.fs_blocks(i as nat) + c;
        assert(req.fs_writes(n)[k] == req.lseg_writes(i)[c]);
        assert(all[parts + k] == req.fs_writes(n)[k]);
        media::lemma_after_writes_block(m, all, parts + k);
    }
}

/// A driver has no negative number of blocks.
proof fn lemma_count_not_negative(req: Request, i: int)
    requires
        req.payload() > 0,
    ensures
        req.lseg_count(i) >= 0,
{
    vstd::arithmetic::div_mod::lemma_div_pos_is_pos(
        req.filesystems[i].binary@.len() + req.payload() - 1,
        req.payload(),
    );
}

/// The blocks of a table can be pointed at, are on the medium, and stand apart.
proof fn lemma_places(req: Request, m: Medium)
    requires
        req.refusal(m.block_size, m.block_count) is None,
    ensures
        req.cyl() > 0,
        req.payload() > 0,
        req.rdsk_block + req.needed() <= req.reserved() <= u32::MAX,
        m.block_count matches Some(n) ==> req.reserved() <= n,
        forall|i: int|
            0 <= i < req.filesystems.len() ==> {
                &&& #[trigger] req.fshd_block(i) + 1 + req.lseg_count(i) <= req.rdsk_block
                    + req.needed()
                &&& req.rdsk_block + 1 + req.specs.len() <= req.fshd_block(i)
                &&& req.lseg_count(i) >= 0
            },
        forall|i: int, j: int|
            0 <= i < j < req.filesystems.len() ==> #[trigger] req.fshd_block(i) + 1
                + req.lseg_count(i) <= #[trigger] req.fshd_block(j),
{
    lemma_cylinder_bytes(req);
    let n = req.filesystems.len();
    builder::lemma_fs_blocks_grow(req, n, n);
    lemma_blocks_needed(req, req.specs.len());
    assert forall|i: int| 0 <= i < req.filesystems.len() implies {
        &&& #[trigger] req.fshd_block(i) + 1 + req.lseg_count(i) <= req.rdsk_block + req.needed()
        &&& req.rdsk_block + 1 + req.specs.len() <= req.fshd_block(i)
        &&& req.lseg_count(i) >= 0
    } by {
        builder::lemma_fs_blocks_grow(req, i as nat, n);
        lemma_count_not_negative(req, i);
    }
    assert forall|i: int, j: int| 0 <= i < j < req.filesystems.len() implies #[trigger]
        req.fshd_block(i) + 1 + req.lseg_count(i) <= #[trigger] req.fshd_block(j) by {
        builder::lemma_fs_blocks_grow(req, i as nat, j as nat);
    }
}

/// The disk has room for the reserved area.
proof fn lemma_blocks_needed(req: Request, n: nat)
    ensures
        req.reserved() <= req.blocks_needed(n),
    decreases n,
{
    if n > 0 {
        lemma_blocks_needed(req, (n - 1) as nat);
    }
}

/// A scan of a disk with a table that was built finds its `RDSK` block, and the
/// chains of the table are whole and run through the blocks they were given.
pub proof fn law_built_chains_are_whole(req: Request, m: Medium)
    requires
        readable_on(req, m),
    ensures
        built_on(req, m).block_size == m.block_size,
        built_on(req, m).block_count == m.block_count,
        built_on(req, m).blocks[req.rdsk_block as u64] == req.rdsk_image(),
        parse::rdsk_found_at(built_on(req, m), req.rdsk_block as u64),
        walk::is_chain(
            built_on(req, m),
            bytes::long_at(req.rdsk_image(), rdsk::PARTITION_LIST as int),
            id::PART,
            part_places(req),
        ),
        walk::is_chain(
            built_on(req, m),
            bytes::long_at(req.rdsk_image(), rdsk::FILESYS_HEADER_LIST as int),
            id::FSHD,
            fshd_places(req),
        ),
        walk::is_chain(
            built_on(req, m),
            bytes::long_at(req.rdsk_image(), rdsk::BAD_BLOCK_LIST as int),
            id::BADB,
            Seq::empty(),
        ),
        forall|i: int|
            0 <= i < req.filesystems.len() && req.lseg_count(i) <= MAX_CHAIN_BLOCKS
                ==> walk::is_chain(
                built_on(req, m),
                req.seg_list(i),
                id::LSEG,
                #[trigger] lseg_places(req, i),
            ),
{
    let after = built_on(req, m);
    lemma_places(req, m);
    lemma_built_blocks(req, m);
    built_blocks::lemma_new_rdsk_reads(req);
    lemma_first_rdsk(req, m);
    lemma_part_chain(req, m);
    lemma_fshd_chain(req, m);
    walk::lemma_walk_starts(after, CHAIN_END, id::BADB);
    assert forall|i: int|
        0 <= i < req.filesystems.len() && req.lseg_count(i)
            <= MAX_CHAIN_BLOCKS implies walk::is_chain(
        after,
        req.seg_list(i),
        id::LSEG,
        #[trigger] lseg_places(req, i),
    ) by {
        lemma_lseg_chain(req, m, i);
    }
}

/// A scan finds the `RDSK` block that was written.
proof fn lemma_first_rdsk(req: Request, m: Medium)
    requires
        readable_on(req, m),
    ensures
        parse::rdsk_found_at(built_on(req, m), req.rdsk_block as u64),
{
    let after = built_on(req, m);
    lemma_places(req, m);
    lemma_built_blocks(req, m);
    built_blocks::lemma_new_rdsk_reads(req);
    lemma_write_places(req);
    let n = req.filesystems.len();
    lemma_fs_places(req, n);
    assert forall|j: u64| j < req.rdsk_block implies !walk::good_block(
        #[trigger] after.blocks[j],
        id::RDSK,
    ) by {
        let all = req.writes();
        assert forall|k: int| 0 <= k < all.len() implies (#[trigger] all[k]).0 != j by {
            if k < req.specs.len() {
                assert(all[k] == req.part_writes()[k]);
            } else if k < all.len() - 1 {
                assert(all[k] == req.fs_writes(n)[k - req.specs.len()]);
            }
        }
        assert(after.blocks[j] == m.blocks[j]);
    }
}

/// The `PART` chain.
proof fn lemma_part_chain(req: Request, m: Medium)
    requires
        readable_on(req, m),
    ensures
        walk::is_chain(
            built_on(req, m),
            bytes::long_at(req.rdsk_image(), rdsk::PARTITION_LIST as int),
            id::PART,
            part_places(req),
        ),
{
    let after = built_on(req, m);
    let lbas = part_places(req);
    lemma_places(req, m);
    lemma_built_blocks(req, m);
    built_blocks::lemma_new_rdsk_reads(req);
    builder::lemma_fs_blocks_grow(req, req.filesystems.len(), req.filesystems.len());
    assert forall|i: int| 0 <= i < lbas.len() implies {
        let b = after.blocks[#[trigger] lbas[i]];
        walk::good_block(b, id::PART) && walk::next_of(b) == req.part_next(i)
    } by {
        lemma_part_image(req, m, i);
    }
    reveal(walk::is_walk);
}

/// The `PART` block of a partition.
proof fn lemma_part_image(req: Request, m: Medium, i: int)
    requires
        readable_on(req, m),
        0 <= i < req.specs.len(),
    ensures
        walk::good_block(req.part_image(i), id::PART),
        walk::next_of(req.part_image(i)) == req.part_next(i),
        forall|p: Partition, lba: u64| #[trigger]
            model::part_reads(p, req.part_image(i), lba) ==> built_blocks::reads_as_new_part(
                p,
                lba,
                req.specs[i],
                layout::name_of(req.specs, i),
                req.extent(i).0 as u32,
                req.extent(i).1 as u32,
                req.context(),
            ),
{
    builder::lemma_name_fits(req.specs, i);
    built_blocks::lemma_new_part_reads(
        req.geometry.block_size as nat,
        req.specs[i],
        layout::name_of(req.specs, i),
        req.extent(i).0 as u32,
        req.extent(i).1 as u32,
        req.part_next(i),
        req.context(),
    );
}

/// The `FSHD` chain.
proof fn lemma_fshd_chain(req: Request, m: Medium)
    requires
        readable_on(req, m),
    ensures
        walk::is_chain(
            built_on(req, m),
            bytes::long_at(req.rdsk_image(), rdsk::FILESYS_HEADER_LIST as int),
            id::FSHD,
            fshd_places(req),
        ),
{
    let after = built_on(req, m);
    let lbas = fshd_places(req);
    lemma_places(req, m);
    lemma_built_blocks(req, m);
    built_blocks::lemma_new_rdsk_reads(req);
    assert forall|i: int| 0 <= i < lbas.len() implies {
        let b = after.blocks[#[trigger] lbas[i]];
        walk::good_block(b, id::FSHD) && walk::next_of(b) == req.fshd_next(i)
    } by {
        built_blocks::lemma_new_fshd_reads(
            req.geometry.block_size as nat,
            req.filesystems[i],
            req.seg_list(i),
            req.fshd_next(i),
        );
    }
    assert forall|i: int| 0 <= i < lbas.len() implies #[trigger] lbas[i] == req.fshd_block(i)
        && req.fshd_block(i) < CHAIN_END by {}
    assert(lbas.no_duplicates()) by {
        assert forall|i: int, j: int| 0 <= i < lbas.len() && 0 <= j < lbas.len() && i != j implies lbas[i]
            != lbas[j] by {
            if i < j {
                assert(req.fshd_block(i) + 1 + req.lseg_count(i) <= req.fshd_block(j));
            } else {
                assert(req.fshd_block(j) + 1 + req.lseg_count(j) <= req.fshd_block(i));
            }
        }
    }
    reveal(walk::is_walk);
}

/// The `LSEG` chain of a driver.
proof fn lemma_lseg_chain(req: Request, m: Medium, i: int)
    requires
        readable_on(req, m),
        0 <= i < req.filesystems.len(),
        req.lseg_count(i) <= MAX_CHAIN_BLOCKS,
    ensures
        walk::is_chain(built_on(req, m), req.seg_list(i), id::LSEG, lseg_places(req, i)),
{
    let after = built_on(req, m);
    let lbas = lseg_places(req, i);
    lemma_places(req, m);
    lemma_built_blocks(req, m);
    assert(req.fshd_block(i) + 1 + req.lseg_count(i) <= req.rdsk_block + req.needed());
    assert forall|c: int| 0 <= c < lbas.len() implies {
        let b = after.blocks[#[trigger] lbas[c]];
        walk::good_block(b, id::LSEG) && walk::next_of(b) == req.lseg_next(i, c)
    } by {
        builder::lemma_chunk(req, i, c);
        built_blocks::lemma_new_lseg_reads(
            req.geometry.block_size as nat,
            req.filesystems[i].host_id,
            req.chunk(i, c),
            req.lseg_next(i, c),
        );
    }
    reveal(walk::is_walk);
}

/// `rdb` is the table that was asked for: its disk-level fields, its partitions
/// where the layout put them, its filesystems, and no bad blocks.
pub open spec fn reads_as_built(req: Request, rdb: Rdb) -> bool {
    &&& built_blocks::reads_as_new_rdsk(rdb, req)
    &&& rdb.partitions@.len() == req.specs.len()
    &&& forall|i: int| 0 <= i < req.specs.len() ==> built_partition(req, i, #[trigger] rdb.partitions@[i])
    &&& rdb.filesystems@.len() == req.filesystems.len()
    &&& forall|i: int|
        0 <= i < req.filesystems.len() ==> built_filesystem(
            req,
            i,
            #[trigger] rdb.filesystems@[i],
        )
    &&& rdb.bad_blocks@.len() == 0
    &&& rdb.badb_blocks@.len() == 0
}

/// `p` is partition `i` of the table that was asked for.
pub open spec fn built_partition(req: Request, i: int, p: Partition) -> bool {
    let placed = req.placed(i);
    &&& built_blocks::reads_as_new_part(
        p,
        placed.part_block,
        req.specs[i],
        placed.name,
        placed.low_cyl,
        placed.high_cyl,
        req.context(),
    )
    &&& is_ascii_chars(placed.name) ==> p.name@ == placed.name
    &&& p.start_lba == placed.start_lba
    &&& p.block_len == placed.block_len
}

/// `f` is filesystem `i` of the table that was asked for.
pub open spec fn built_filesystem(req: Request, i: int, f: FileSysHeader) -> bool {
    let spec = req.filesystems[i];
    &&& built_blocks::reads_as_new_fshd(f, req.placed_fs(i).fshd_block, spec, req.seg_list(i))
    &&& spec.patch_flags is None ==> {
        &&& f.node_type == spec.node_type
        &&& f.task == spec.task
        &&& f.lock == spec.lock
        &&& f.handler == spec.handler
        &&& f.stack_size == spec.stack_size
        &&& f.priority == spec.priority
        &&& f.startup == spec.startup
        &&& f.global_vec == spec.global_vec
    }
}

/// A table that was built reads back: whatever a parse of the disk gives, it is
/// the table that was asked for.
pub proof fn law_built_table_reads_back(req: Request, m: Medium, rdb: Rdb)
    requires
        readable_on(req, m),
        parse::parses_as(built_on(req, m), rdb),
    ensures
        reads_as_built(req, rdb),
{
    lemma_parsed_places(req, m, rdb);
    assert forall|i: int| 0 <= i < req.specs.len() implies built_partition(
        req,
        i,
        #[trigger] rdb.partitions@[i],
    ) by {
        lemma_parsed_partition(req, m, rdb, i);
    }
    assert forall|i: int| 0 <= i < req.filesystems.len() implies built_filesystem(
        req,
        i,
        #[trigger] rdb.filesystems@[i],
    ) by {
        lemma_parsed_filesystem(req, m, rdb, i);
    }
}

/// A parse finds the blocks of the table where they were written.
proof fn lemma_parsed_places(req: Request, m: Medium, rdb: Rdb)
    requires
        readable_on(req, m),
        parse::parses_as(built_on(req, m), rdb),
    ensures
        built_blocks::reads_as_new_rdsk(rdb, req),
        parse::part_lbas(rdb) == part_places(req),
        rdb.partitions@.len() == req.specs.len(),
        parse::fshd_lbas(rdb) == fshd_places(req),
        rdb.filesystems@.len() == req.filesystems.len(),
        rdb.badb_blocks@.len() == 0,
        rdb.bad_blocks@.len() == 0,
{
    let after = built_on(req, m);
    let at = req.rdsk_block as u64;
    assert(after.blocks[at] == req.rdsk_image()) by {
        lemma_built_blocks(req, m);
    }
    law_built_chains_are_whole(req, m);
    assert(rdb.rdsk_block == at) by {
        assert(walk::good_block(after.blocks[at], id::RDSK));
        assert(walk::good_block(after.blocks[rdb.rdsk_block], id::RDSK));
    }
    built_blocks::lemma_new_rdsk_reads(req);
    let parts = bytes::long_at(req.rdsk_image(), rdsk::PARTITION_LIST as int);
    let fshds = bytes::long_at(req.rdsk_image(), rdsk::FILESYS_HEADER_LIST as int);
    let badbs = bytes::long_at(req.rdsk_image(), rdsk::BAD_BLOCK_LIST as int);
    walk::law_chain_is_unique(after, parts, id::PART, part_places(req), parse::part_lbas(rdb));
    walk::law_chain_is_unique(after, fshds, id::FSHD, fshd_places(req), parse::fshd_lbas(rdb));
    walk::law_chain_is_unique(after, badbs, id::BADB, Seq::empty(), rdb.badb_blocks@);
    assert(parse::part_lbas(rdb).len() == rdb.partitions@.len());
    assert(parse::fshd_lbas(rdb).len() == rdb.filesystems@.len());
}

/// A parse reads partition `i` as it was asked for.
proof fn lemma_parsed_partition(req: Request, m: Medium, rdb: Rdb, i: int)
    requires
        readable_on(req, m),
        parse::parses_as(built_on(req, m), rdb),
        parse::part_lbas(rdb) == part_places(req),
        0 <= i < req.specs.len(),
    ensures
        built_partition(req, i, rdb.partitions@[i]),
{
    let after = built_on(req, m);
    let p = rdb.partitions@[i];
    assert(parse::part_lbas(rdb).len() == rdb.partitions@.len());
    assert(parse::part_lbas(rdb)[i] == part_places(req)[i]);
    assert(model::part_reads(p, after.blocks[p.part_block], p.part_block));
    assert(after.blocks[part_places(req)[i]] == req.part_image(i)) by {
        lemma_built_blocks(req, m);
    }
    lemma_partition_reads(req, m, i, p);
}

/// A parse reads filesystem `i` as it was asked for.
proof fn lemma_parsed_filesystem(req: Request, m: Medium, rdb: Rdb, i: int)
    requires
        readable_on(req, m),
        parse::parses_as(built_on(req, m), rdb),
        parse::fshd_lbas(rdb) == fshd_places(req),
        0 <= i < req.filesystems.len(),
    ensures
        built_filesystem(req, i, rdb.filesystems@[i]),
{
    let after = built_on(req, m);
    let f = rdb.filesystems@[i];
    assert(parse::fshd_lbas(rdb).len() == rdb.filesystems@.len());
    assert(parse::fshd_lbas(rdb)[i] == fshd_places(req)[i]);
    assert(model::fshd_reads(f, after.blocks[f.fshd_block], f.fshd_block));
    assert(after.blocks[fshd_places(req)[i]] == req.fshd_image(i)) by {
        lemma_built_blocks(req, m);
    }
    lemma_filesystem_reads(req, i, f);
}

/// The `PART` block of a partition reads as the partition.
proof fn lemma_partition_reads(req: Request, m: Medium, i: int, p: Partition)
    requires
        readable_on(req, m),
        0 <= i < req.specs.len(),
        model::part_reads(p, req.part_image(i), p.part_block),
        p.part_block == part_places(req)[i],
    ensures
        built_partition(req, i, p),
{
    let name = layout::name_of(req.specs, i);
    lemma_part_image(req, m, i);
    lemma_extent_fits(req, m, i);
    if is_ascii_chars(name) {
        is_ascii_chars_encode_utf8(name);
        assert(text::latin1(encode_utf8(name)) =~= name);
    }
}

/// The `FSHD` block of a filesystem reads as the filesystem.
proof fn lemma_filesystem_reads(req: Request, i: int, f: FileSysHeader)
    requires
        bytes::supported_block_size(req.geometry.block_size as int),
        0 <= i < req.filesystems.len(),
        model::fshd_reads(f, req.fshd_image(i), f.fshd_block),
        f.fshd_block == fshd_places(req)[i],
    ensures
        built_filesystem(req, i, f),
{
    let spec = req.filesystems[i];
    let seg_list = req.seg_list(i);
    built_blocks::lemma_new_fshd_reads(
        req.geometry.block_size as nat,
        spec,
        seg_list,
        req.fshd_next(i),
    );
    if spec.patch_flags is None {
        built_blocks::lemma_derived_flags_read_back(f, f.fshd_block, spec, seg_list);
    }
}

/// The blocks of a partition that is placed fit their fields.
proof fn lemma_extent_fits(req: Request, m: Medium, i: int)
    requires
        readable_on(req, m),
        0 <= i < req.specs.len(),
    ensures
        0 <= req.extent(i).0 <= req.extent(i).1 < u32::MAX,
        req.lo_cylinder() <= req.extent(i).0,
        0 <= req.extent(i).0 * req.cyl(),
        req.extent(i).0 * req.cyl() + (req.extent(i).1 - req.extent(i).0 + 1) * req.cyl() == (
        req.extent(i).1 + 1) * req.cyl(),
        0 < (req.extent(i).1 - req.extent(i).0 + 1) * req.cyl(),
        (req.extent(i).1 + 1) * req.cyl() <= u64::MAX,
{
    lemma_cylinder_bytes(req);
    builder::lemma_placed_in_bounds(req, req.specs.len(), i);
    let (low, high) = req.extent(i);
    let cyl = req.cyl();
    assert(req.lo_cylinder() >= 0) by {
        vstd::arithmetic::div_mod::lemma_div_pos_is_pos(req.reserved() + cyl - 1, cyl);
    }
    lemma_mul_nonnegative(low, cyl);
    lemma_mul_strictly_positive(high - low + 1, cyl);
    assert(low * cyl + (high - low + 1) * cyl == (high + 1) * cyl) by (nonlinear_arith);
}

/// A parse of a disk with a table that was built does not fail, unless a read of
/// the blocks up to its `RDSK` block, or of the blocks of its chains, does.
pub proof fn law_built_table_parses<S: BlockSource>(
    req: Request,
    m: Medium,
    disk: S,
    r: Result<Rdb, RdbError<S::Error>>,
)
    requires
        readable_on(req, m),
        disk.medium() == built_on(req, m),
        parse::reads_table(
            disk,
            req.rdsk_block as u64,
            part_places(req),
            fshd_places(req),
            Seq::empty(),
        ),
        parse::parse_outcome(disk, r),
    ensures
        r matches Ok(rdb) && reads_as_built(req, rdb),
{
    let at = req.rdsk_block as u64;
    assert(built_on(req, m).blocks[at] == req.rdsk_image() && built_on(req, m).block_size
        == m.block_size) by {
        lemma_built_blocks(req, m);
    }
    law_built_chains_are_whole(req, m);
    built_blocks::lemma_new_rdsk_reads(req);
    parse::law_whole_table_parses(
        disk,
        at,
        part_places(req),
        fshd_places(req),
        Seq::empty(),
        r,
    );
    law_built_table_reads_back(req, m, r->Ok_0);
}

/// A table that was built has nothing to report: no block of it lies outside
/// its area, and no block of the disk has two owners.
pub proof fn law_built_table_is_valid(req: Request, m: Medium, rdb: Rdb, order: Seq<usize>)
    requires
        readable_on(req, m),
        parse::parses_as(built_on(req, m), rdb),
        validate::is_start_order(rdb.partitions@, order),
    ensures
        validate::issues_in(rdb, order) == Seq::<validate::Issue>::empty(),
{
    law_built_table_reads_back(req, m, rdb);
    lemma_parsed_places(req, m, rdb);
    lemma_places(req, m);
    builder::lemma_fs_blocks_grow(req, req.filesystems.len(), req.filesystems.len());
    let ps = rdb.partitions@;
    let lo = rdb.rdb_blocks_lo as u64;
    let hi = rdb.rdb_blocks_hi as u64;
    let n = ps.len();
    let parts = part_places(req);
    let fshds = fshd_places(req);
    assert forall|i: int| 0 <= i < n implies {
        &&& validate::end_of(#[trigger] ps[i]) == (req.extent(i).1 + 1) * req.cyl()
        &&& ps[i].start_lba == req.extent(i).0 * req.cyl()
        &&& ps[i].low_cyl <= ps[i].high_cyl
        &&& hi < ps[i].start_lba < validate::end_of(ps[i])
        &&& validate::table_size_of(ps[i]) == 16
    } by {
        assert(built_partition(req, i, ps[i]));
        lemma_extent_fits(req, m, i);
        lemma_area_ends_before(req);
        builder::lemma_blocks_ordered(req.lo_cylinder(), req.extent(i).0, req.cyl());
    }
    validate::lemma_collect_none(
        parts.len(),
        |i: int| validate::outside_issue(validate::BlockKind::Part, parts[i], lo, hi),
    );
    assert forall|i: int| 0 <= i < fshds.len() implies #[trigger] fshds[i] <= hi by {
        assert(fshds[i] == req.fshd_block(i));
    }
    validate::lemma_collect_none(
        fshds.len(),
        |i: int| validate::outside_issue(validate::BlockKind::Fshd, fshds[i], lo, hi),
    );
    let badbs = rdb.badb_blocks@;
    validate::lemma_collect_none(
        badbs.len(),
        |i: int| validate::outside_issue(validate::BlockKind::Badb, badbs[i], lo, hi),
    );
    validate::lemma_collect_none(n, |i: int| validate::area_issue(ps[i], i, lo, hi));
    validate::lemma_collect_none(n, |i: int| validate::inverted_issue(ps[i], i));
    validate::lemma_collect_none(n, |i: int| validate::short_issue(ps[i], i));
    assert forall|a: int, b: int| 0 <= a < n && 0 <= b < n && a != b implies
        !validate::overlap(#[trigger] ps[a], #[trigger] ps[b]) by {
        law_partitions_lie_apart(req, m.block_count, a, b);
        lemma_extent_fits(req, m, a);
        lemma_extent_fits(req, m, b);
        if req.extent(a).1 < req.extent(b).0 {
            builder::lemma_blocks_ordered(req.extent(a).1 + 1, req.extent(b).0, req.cyl());
        } else {
            builder::lemma_blocks_ordered(req.extent(b).1 + 1, req.extent(a).0, req.cyl());
        }
    }
    lemma_no_overlap_issues(ps, order, order.len());
    assert(validate::issues_in(rdb, order) =~= Seq::<validate::Issue>::empty());
}

/// Partitions that stand apart have no overlap to report.
proof fn lemma_no_overlap_issues(ps: Seq<Partition>, order: Seq<usize>, r: nat)
    requires
        validate::is_start_order(ps, order),
        r <= order.len(),
        forall|a: int, b: int|
            0 <= a < ps.len() && 0 <= b < ps.len() && a != b ==> !validate::overlap(
                #[trigger] ps[a],
                #[trigger] ps[b],
            ),
    ensures
        validate::overlap_issues(ps, order, r) == Seq::<validate::Issue>::empty(),
    decreases r,
{
    if r > 0 {
        lemma_no_overlap_issues(ps, order, (r - 1) as nat);
        let q = r - 1;
        let f = |k: int| validate::pair_issue(ps, order[q] as int, order[q + 1 + k] as int);
        assert forall|k: int| 0 <= k < order.len() - q - 1 implies #[trigger] f(k) is None by {
            assert(order[q] != order[q + 1 + k]);
            assert(order[q] < ps.len());
            assert(order[q + 1 + k] < ps.len());
            assert(!validate::overlap(ps[order[q] as int], ps[order[q + 1 + k] as int]));
        }
        validate::lemma_collect_none((order.len() - q - 1) as nat, f);
        assert(validate::overlap_issues(ps, order, r) =~= Seq::<validate::Issue>::empty());
    }
}

/// The driver chains of a table that was built have nothing to report either.
pub proof fn law_built_drivers_are_valid(
    req: Request,
    m: Medium,
    rdb: Rdb,
    chains: Seq<Seq<u64>>,
)
    requires
        readable_on(req, m),
        forall|i: int|
            0 <= i < req.filesystems.len() ==> #[trigger] req.lseg_count(i) <= MAX_CHAIN_BLOCKS,
        parse::parses_as(built_on(req, m), rdb),
        validate::are_driver_chains(built_on(req, m), rdb, chains),
    ensures
        validate::seg_list_issues(
            chains,
            chains.len(),
            rdb.rdb_blocks_lo as u64,
            rdb.rdb_blocks_hi as u64,
        ) == Seq::<validate::Issue>::empty(),
{
    let after = built_on(req, m);
    law_built_table_reads_back(req, m, rdb);
    law_built_chains_are_whole(req, m);
    lemma_places(req, m);
    assert forall|f: int| 0 <= f < chains.len() implies #[trigger] chains[f] == lseg_places(
        req,
        f,
    ) by {
        assert(built_filesystem(req, f, rdb.filesystems@[f]));
        assert(req.lseg_count(f) <= MAX_CHAIN_BLOCKS);
        walk::law_chain_is_unique(
            after,
            req.seg_list(f),
            id::LSEG,
            chains[f],
            lseg_places(req, f),
        );
    }
    assert forall|f: int, k: int| 0 <= f < chains.len() && 0 <= k < chains[f].len() implies {
        &&& (#[trigger] chains[f][k]) <= rdb.rdb_blocks_hi
        &&& chains[f][k] == req.fshd_block(f) + 1 + k
        &&& k < req.lseg_count(f)
    } by {
        assert(req.fshd_block(f) + 1 + req.lseg_count(f) <= req.rdsk_block + req.needed());
    }
    assert forall|f: int, g: int, k: int, l: int|
        0 <= f < g < chains.len() && 0 <= k < chains[f].len() && 0 <= l < chains[g].len() implies (
    #[trigger] chains[f][k]) != (#[trigger] chains[g][l]) by {
        assert(req.fshd_block(f) + 1 + req.lseg_count(f) <= req.fshd_block(g));
    }
    lemma_no_seg_list_issues(
        chains,
        chains.len(),
        rdb.rdb_blocks_lo as u64,
        rdb.rdb_blocks_hi as u64,
    );
}

/// Chains inside the area that share no block have nothing to report.
proof fn lemma_no_seg_list_issues(chains: Seq<Seq<u64>>, n: nat, lo: u64, hi: u64)
    requires
        n <= chains.len(),
        lo == 0,
        forall|f: int, k: int|
            0 <= f < chains.len() && 0 <= k < chains[f].len() ==> (#[trigger] chains[f][k]) <= hi,
        forall|f: int, g: int, k: int, l: int|
            0 <= f < g < chains.len() && 0 <= k < chains[f].len() && 0 <= l < chains[g].len() ==> (
            #[trigger] chains[f][k]) != (#[trigger] chains[g][l]),
    ensures
        validate::seg_list_issues(chains, n, lo, hi) == Seq::<validate::Issue>::empty(),
    decreases n,
{
    if n > 0 {
        let f = (n - 1) as nat;
        lemma_no_seg_list_issues(chains, f, lo, hi);
        let lbas = chains[f as int];
        validate::lemma_collect_none(
            lbas.len(),
            |i: int| validate::outside_issue(validate::BlockKind::Lseg, lbas[i], lo, hi),
        );
        lemma_none_shared(chains, f, lbas.len());
        assert(validate::seg_list_issues(chains, n, lo, hi) =~= Seq::<validate::Issue>::empty());
    }
}

/// Chains that share no block have no shared block.
proof fn lemma_none_shared(chains: Seq<Seq<u64>>, f: nat, k: nat)
    requires
        f < chains.len(),
        k <= chains[f as int].len(),
        forall|f: int, g: int, k: int, l: int|
            0 <= f < g < chains.len() && 0 <= k < chains[f].len() && 0 <= l < chains[g].len() ==> (
            #[trigger] chains[f][k]) != (#[trigger] chains[g][l]),
    ensures
        validate::first_shared(chains, f, k) is None,
    decreases k,
{
    if k > 0 {
        lemma_none_shared(chains, f, (k - 1) as nat);
        lemma_no_owner(chains, f, f, k - 1);
    }
}

/// No earlier chain runs through block `k` of chain `f`.
proof fn lemma_no_owner(chains: Seq<Seq<u64>>, n: nat, f: nat, k: int)
    requires
        n <= f < chains.len(),
        0 <= k < chains[f as int].len(),
        forall|f: int, g: int, k: int, l: int|
            0 <= f < g < chains.len() && 0 <= k < chains[f].len() && 0 <= l < chains[g].len() ==> (
            #[trigger] chains[f][k]) != (#[trigger] chains[g][l]),
    ensures
        validate::owner_of(chains, n, chains[f as int][k]) is None,
    decreases n,
{
    if n > 0 {
        lemma_no_owner(chains, (n - 1) as nat, f, k);
        let lba = chains[f as int][k];
        let earlier = chains[n - 1];
        if earlier.contains(lba) {
            let j = choose|j: int| 0 <= j < earlier.len() && earlier[j] == lba;
            assert(chains[n - 1][j] != chains[f as int][k]);
        }
    }
}

/// The chain of a driver that was built in is whole, and what its blocks carry
/// is the driver's binary, followed by the zeros that fill the last block.
pub proof fn law_built_driver_is_whole(req: Request, m: Medium, i: int)
    requires
        readable_on(req, m),
        0 <= i < req.filesystems.len(),
        req.lseg_count(i) <= MAX_CHAIN_BLOCKS,
    ensures
        walk::is_chain(built_on(req, m), req.seg_list(i), id::LSEG, lseg_places(req, i)),
        parse::payload_of(built_on(req, m), lseg_places(req, i)) == req.filesystems[i].binary@
            + image::zeros(
            (req.lseg_count(i) * req.payload() - req.filesystems[i].binary@.len()) as nat,
        ),
        0 <= req.lseg_count(i) * req.payload() - req.filesystems[i].binary@.len() < req.payload(),
{
    let lbas = lseg_places(req, i);
    law_built_chains_are_whole(req, m);
    lemma_places(req, m);
    let n = req.lseg_count(i);
    let data = req.filesystems[i].binary@;
    assert(n >= 0) by {
        lemma_count_not_negative(req, i);
    }
    lemma_driver_payload(req, m, i, n as nat);
    assert(lbas.take(n) =~= lbas);
    let len = data.len() as int;
    let size = req.payload();
    vstd::arithmetic::div_mod::lemma_fundamental_div_mod(len + size - 1, size);
    vstd::arithmetic::div_mod::lemma_mod_bound(len + size - 1, size);
    lemma_mul_is_commutative(size, n);
    assert(data.take(len) =~= data);
}

/// A driver that was built in loads back: a load of it from the disk does not
/// fail, unless a read of one of its blocks does, and gives its binary, followed by the zeros that
/// fill its last block.
pub proof fn law_built_driver_loads_back<S: BlockSource>(
    req: Request,
    m: Medium,
    rdb: Rdb,
    i: int,
    disk: S,
    r: Result<Vec<u8>, RdbError<S::Error>>,
)
    requires
        readable_on(req, m),
        0 <= i < req.filesystems.len(),
        req.lseg_count(i) <= MAX_CHAIN_BLOCKS,
        disk.medium() == built_on(req, m),
        walk::reads_all(disk, lseg_places(req, i)),
        parse::parses_as(disk.medium(), rdb),
        parse::load_outcome(rdb, rdb.filesystems@[i], disk, r),
    ensures
        r matches Ok(binary) && binary@ == req.filesystems[i].binary@ + image::zeros(
            (req.lseg_count(i) * req.payload() - req.filesystems[i].binary@.len()) as nat,
        ),
        0 <= req.lseg_count(i) * req.payload() - req.filesystems[i].binary@.len() < req.payload(),
{
    law_built_table_reads_back(req, m, rdb);
    assert(built_filesystem(req, i, rdb.filesystems@[i]));
    law_built_driver_is_whole(req, m, i);
    parse::law_whole_driver_loads(rdb, rdb.filesystems@[i], disk, lseg_places(req, i), r);
}

/// The first `end` bytes of `data`, with zeros past its end.
pub open spec fn padded(data: Seq<u8>, end: int) -> Seq<u8> {
    if end <= data.len() {
        data.take(end)
    } else {
        data + image::zeros((end - data.len()) as nat)
    }
}

/// One more piece, filled up with zeros.
proof fn lemma_padded_step(data: Seq<u8>, size: int, d: int)
    requires
        size > 0,
        0 <= d < image::piece_count(data.len(), size),
    ensures
        padded(data, d * size) + (image::piece(data, size, d) + image::zeros(
            (size - image::piece(data, size, d).len()) as nat,
        )) == padded(data, (d + 1) * size),
{
    image::lemma_piece(data, size, d);
    let chunk = image::piece(data, size, d);
    let tail = image::zeros((size - chunk.len()) as nat);
    assert(padded(data, d * size) == data.take(d * size));
    assert(data.take(d * size) + (chunk + tail) =~= padded(data, (d + 1) * size));
}

/// The first `c` blocks of a driver carry its first bytes, and zeros past its
/// end.
proof fn lemma_driver_payload(req: Request, m: Medium, i: int, c: nat)
    requires
        readable_on(req, m),
        0 <= i < req.filesystems.len(),
        c <= req.lseg_count(i),
    ensures
        parse::payload_of(built_on(req, m), lseg_places(req, i).take(c as int)) == padded(
            req.filesystems[i].binary@,
            c * req.payload(),
        ),
    decreases c,
{
    let after = built_on(req, m);
    let data = req.filesystems[i].binary@;
    let lbas = lseg_places(req, i);
    let size = req.payload();
    if c == 0 {
        assert(0 * size == 0);
        assert(parse::payload_of(after, lbas.take(0)) =~= data.take(0));
    } else {
        let d = c - 1;
        lemma_driver_payload(req, m, i, d as nat);
        assert(size > 0) by {
        }
        lemma_padded_step(data, size, d);
        assert(lbas.take(c as int).drop_last() =~= lbas.take(d));
        assert(lbas.take(c as int).last() == lbas[d]);
        assert(after.blocks[lbas[d]] == req.lseg_image(i, d)) by {
            lemma_built_blocks(req, m);
        }
        builder::lemma_chunk(req, i, d);
        built_blocks::lemma_new_lseg_reads(
            req.geometry.block_size as nat,
            req.filesystems[i].host_id,
            req.chunk(i, d),
            req.lseg_next(i, d),
        );
    }
}

} // verus!
