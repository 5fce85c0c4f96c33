//! Which places on the disk an edit may take, and which it gets.
use vstd::arithmetic::div_mod::*;
use vstd::arithmetic::mul::*;
use vstd::prelude::*;

use crate::edit_error::Rejection;
use crate::model::{Partition, Rdb};
use crate::validate_laws;
use crate::{arith, extent, validate};

verus! {

/// The number, as far as 64 bits go.
pub open spec fn capped(n: int) -> int {
    if n > 0xFFFF_FFFF_FFFF_FFFF {
        0xFFFF_FFFF_FFFF_FFFF
    } else {
        n
    }
}

/// The last cylinder that partitions may use.
pub open spec fn last_usable(rdb: Rdb) -> int {
    let last = if rdb.cylinders == 0 {
        0
    } else {
        rdb.cylinders - 1
    };
    if rdb.hi_cylinder < last {
        rdb.hi_cylinder as int
    } else {
        last
    }
}

/// How many blocks the cylinders up to that one have.
pub open spec fn usable_blocks(rdb: Rdb) -> int {
    capped((last_usable(rdb) + 1) * (rdb.heads * rdb.sectors))
}

/// A partition may start at this block: it is past the RDB area, and no earlier
/// than the first cylinder that partitions may use.
pub open spec fn may_start(rdb: Rdb, start: int) -> bool {
    start > rdb.rdb_blocks_hi && start >= capped(rdb.lo_cylinder * (rdb.heads * rdb.sectors))
}

/// Partition `i` has none of the blocks from `start` up to `end`.
pub open spec fn is_clear_of(p: Partition, start: int, end: int) -> bool {
    forall|b: int| start <= b < end ==> !#[trigger] validate_laws::is_in(p, b)
}

/// A partition, partition `exclude` aside, may have cylinders `low..=high` of
/// `cyl` blocks: it ends on the disk, starts where a partition may, and no other
/// has a block of it.
pub open spec fn may_stand(
    rdb: Rdb,
    exclude: Option<usize>,
    low: int,
    high: int,
    cyl: int,
) -> bool {
    &&& low <= high
    &&& capped((high + 1) * cyl) <= usable_blocks(rdb)
    &&& may_start(rdb, capped(low * cyl))
    &&& forall|i: int|
        0 <= i < rdb.partitions@.len() && exclude != Some(i as usize) ==> is_clear_of(
            #[trigger] rdb.partitions@[i],
            capped(low * cyl),
            capped((high + 1) * cyl),
        )
}

/// The blocks from `start` up to `end` that are also partition `i`'s are the `len`
/// from `from` on.
pub open spec fn shares(p: Partition, start: int, end: int, from: int, len: int) -> bool {
    &&& len > 0
    &&& forall|b: int|
        from <= b < from + len <==> start <= b < end && #[trigger] validate_laws::is_in(p, b)
}

/// A saturating sum of products is the product, saturating.
proof fn lemma_end(low: int, high: int, cyl: int)
    requires
        0 <= low <= high,
        cyl >= 0,
    ensures
        arith::saturated(low * cyl) == capped(low * cyl),
        arith::saturated(
            arith::saturated(low * cyl) + arith::saturated((high - low + 1) * cyl),
        ) == capped((high + 1) * cyl),
{
    let a = low * cyl;
    let b = (high - low + 1) * cyl;
    assert(a + b == (high + 1) * cyl) by (nonlinear_arith)
        requires
            a == low * cyl,
            b == (high - low + 1) * cyl,
    ;
    lemma_mul_nonnegative(low, cyl);
    lemma_mul_nonnegative(high - low + 1, cyl);
}

/// The sizes that the checks compare with.
pub proof fn lemma_sizes(rdb: Rdb)
    ensures
        extent::drive_cyl(rdb) == rdb.heads * rdb.sectors,
        extent::geometry_blocks(rdb) == usable_blocks(rdb),
        extent::last_cyl(rdb) == last_usable(rdb),
        0 <= rdb.heads * rdb.sectors,
        forall|start: int|
            #![trigger may_start(rdb, start)]
            may_start(rdb, start) <==> start >= extent::first_block(rdb),
{
    let cyl = rdb.heads * rdb.sectors;
    lemma_mul_nonnegative(rdb.heads as int, rdb.sectors as int);
    lemma_mul_nonnegative(last_usable(rdb) + 1, cyl);
    lemma_mul_nonnegative(rdb.lo_cylinder as int, cyl);
}

/// Where a partition is in the way, and in which blocks.
proof fn lemma_overlap(rdb: Rdb, start: u64, len: u64, i: int)
    requires
        0 <= i < rdb.partitions@.len(),
        rdb.partitions@.len() <= usize::MAX,
    ensures
        match extent::overlap_with(rdb, start, len, i) {
            None => is_clear_of(rdb.partitions@[i], start as int, capped(start + len)),
            Some(Rejection::PartitionsOverlap { index, name, start: from, len: shared }) => {
                &&& index == i
                &&& name == rdb.partitions@[i].name@
                &&& shares(
                    rdb.partitions@[i],
                    start as int,
                    capped(start + len),
                    from as int,
                    shared as int,
                )
            },
            Some(_) => false,
        },
{
}

/// Which partition is in the way.
proof fn lemma_overlaps(rdb: Rdb, exclude: Option<usize>, start: u64, len: u64, n: nat)
    requires
        n <= rdb.partitions@.len() <= usize::MAX,
    ensures
        match extent::overlap_refusal(rdb, exclude, start, len, n) {
            None => forall|i: int|
                0 <= i < n && exclude != Some(i as usize) ==> is_clear_of(
                    #[trigger] rdb.partitions@[i],
                    start as int,
                    capped(start + len),
                ),
            Some(Rejection::PartitionsOverlap { index, name, start: from, len: shared }) => {
                &&& index < n
                &&& exclude != Some(index)
                &&& name == rdb.partitions@[index as int].name@
                &&& shares(
                    rdb.partitions@[index as int],
                    start as int,
                    capped(start + len),
                    from as int,
                    shared as int,
                )
                &&& forall|i: int|
                    0 <= i < index && exclude != Some(i as usize) ==> is_clear_of(
                        #[trigger] rdb.partitions@[i],
                        start as int,
                        capped(start + len),
                    )
            },
            Some(_) => false,
        },
    decreases n,
{
    if n > 0 {
        lemma_overlaps(rdb, exclude, start, len, (n - 1) as nat);
        lemma_overlap(rdb, start, len, n - 1);
    }
}

/// The last cylinder that ends within `blocks`, the first being given where none
/// does.
pub open spec fn is_last_within(blocks: int, cyl: int, last: int) -> bool {
    ||| last == 0 && blocks < 2 * cyl
    ||| (last + 1) * cyl <= blocks < (last + 2) * cyl
    ||| last == 0xFFFF_FFFF && blocks >= 0x1_0000_0000 * cyl
}

/// The first cylinder on which a partition may start.
pub open spec fn is_first_startable(rdb: Rdb, cyl: int, first: int) -> bool {
    ||| may_start(rdb, first * cyl) && !may_start(rdb, (first - 1) * cyl)
    ||| first == 0xFFFF_FFFF && !may_start(rdb, (first - 1) * cyl)
}

proof fn lemma_last_within(blocks: int, cyl: int)
    requires
        0 <= blocks,
        0 < cyl,
    ensures
        is_last_within(
            blocks,
            cyl,
            arith::saturated32(
                if blocks / cyl > 0 {
                    blocks / cyl - 1
                } else {
                    0
                },
            ) as int,
        ),
{
    let q = blocks / cyl;
    lemma_fundamental_div_mod(blocks, cyl);
    lemma_mod_bound(blocks, cyl);
    lemma_mul_is_commutative(cyl, q);
    assert(q * cyl <= blocks < (q + 1) * cyl) by (nonlinear_arith)
        requires
            blocks == q * cyl + blocks % cyl,
            0 <= blocks % cyl < cyl,
    ;
    lemma_div_pos_is_pos(blocks, cyl);
    if q > 0x1_0000_0000 {
        lemma_mul_inequality(0x1_0000_0000, q, cyl);
    }
    if q == 0 {
        assert(blocks < cyl) by (nonlinear_arith)
            requires
                blocks < (q + 1) * cyl,
                q == 0,
        ;
    }
}

proof fn lemma_first_startable(rdb: Rdb, cyl: int)
    requires
        0 < cyl,
        extent::first_block(rdb) + cyl - 1 <= u64::MAX,
    ensures
        is_first_startable(rdb, cyl, extent::first_cyl(rdb, cyl) as int),
{
    lemma_sizes(rdb);
    let first = extent::first_block(rdb) as int;
    let up = first + cyl - 1;
    let q = up / cyl;
    lemma_fundamental_div_mod(up, cyl);
    lemma_mod_bound(up, cyl);
    lemma_mul_is_commutative(cyl, q);
    lemma_div_pos_is_pos(up, cyl);
    let c = extent::first_cyl(rdb, cyl) as int;
    assert(q * cyl >= first && (q - 1) * cyl < first) by (nonlinear_arith)
        requires
            up == q * cyl + up % cyl,
            0 <= up % cyl < cyl,
            up == first + cyl - 1,
    ;
    if q > 0xFFFF_FFFF {
        lemma_mul_inequality(c - 1, q - 1, cyl);
    }
    assert(may_start(rdb, q * cyl));
    assert(!may_start(rdb, (c - 1) * cyl));
}

/// An extent is refused exactly where a partition may not stand there, and the
/// refusal says why: the range is inverted; it ends past the disk, with the last
/// cylinder that does not; it starts where none may, with the first cylinder
/// that may be started on; or other partitions have blocks of it, with the first
/// such partition and the blocks that both would have.
pub proof fn law_extent_is_refused_for_a_reason(
    rdb: Rdb,
    exclude: Option<usize>,
    low: u32,
    high: u32,
    cyl: int,
)
    requires
        cyl > 0,
        rdb.partitions@.len() <= usize::MAX,
    ensures
        extent::extent_refusal(rdb, exclude, low, high, cyl) is None <==> may_stand(
            rdb,
            exclude,
            low as int,
            high as int,
            cyl,
        ),
        ({
            let start = capped(low * cyl);
            let end = capped((high + 1) * cyl);
            match extent::extent_refusal(rdb, exclude, low, high, cyl) {
                None => true,
                Some(Rejection::CylindersInverted { low_cyl, high_cyl }) => low_cyl == low
                    && high_cyl == high && high < low,
                Some(Rejection::PastEndOfDisk { high_cyl, last_cylinder }) => {
                    &&& low <= high == high_cyl
                    &&& end > usable_blocks(rdb)
                    &&& is_last_within(usable_blocks(rdb), cyl, last_cylinder as int)
                },
                Some(Rejection::OverlapsRdbArea { low_cyl, lo_cylinder }) => {
                    &&& low_cyl == low <= high
                    &&& end <= usable_blocks(rdb)
                    &&& !may_start(rdb, start)
                    &&& rdb.lo_cylinder * (rdb.heads * rdb.sectors) + cyl < 0xFFFF_FFFF_FFFF_FFFF
                        && rdb.rdb_blocks_hi + cyl < 0xFFFF_FFFF_FFFF_FFFF ==> is_first_startable(
                        rdb,
                        cyl,
                        lo_cylinder as int,
                    )
                },
                Some(Rejection::PartitionsOverlap { index, name, start: from, len }) => {
                    &&& low <= high
                    &&& end <= usable_blocks(rdb)
                    &&& may_start(rdb, start)
                    &&& index < rdb.partitions@.len()
                    &&& exclude != Some(index)
                    &&& name == rdb.partitions@[index as int].name@
                    &&& shares(rdb.partitions@[index as int], start, end, from as int, len as int)
                    &&& forall|i: int|
                        0 <= i < index && exclude != Some(i as usize) ==> is_clear_of(
                            #[trigger] rdb.partitions@[i],
                            start,
                            end,
                        )
                },
                Some(_) => false,
            }
        }),
{
    if low <= high {
        let start = arith::saturated(low * cyl);
        let len = arith::saturated((high - low + 1) * cyl);
        lemma_end(low as int, high as int, cyl);
        lemma_sizes(rdb);
        lemma_overlaps(rdb, exclude, start, len, rdb.partitions@.len());
        lemma_last_within(usable_blocks(rdb), cyl);
        assert(capped(start + len) == capped((high + 1) * cyl));
        assert(may_start(rdb, start as int) <==> start >= extent::first_block(rdb));
        if rdb.lo_cylinder * (rdb.heads * rdb.sectors) + cyl < 0xFFFF_FFFF_FFFF_FFFF
            && rdb.rdb_blocks_hi + cyl < 0xFFFF_FFFF_FFFF_FFFF {
            lemma_mul_nonnegative(rdb.lo_cylinder as int, rdb.heads * rdb.sectors);
            lemma_first_startable(rdb, cyl);
        }
        match extent::overlap_refusal(rdb, exclude, start, len, rdb.partitions@.len()) {
            Some(Rejection::PartitionsOverlap { index, name, start: from, len: shared }) => {
                let p = rdb.partitions@[index as int];
                assert(shares(p, start as int, capped(start + len), from as int, shared as int));
                assert(validate_laws::is_in(p, from as int));
                assert(!is_clear_of(p, start as int, capped(start + len)));
            },
            _ => {},
        }
    }
}

/// How many blocks the geometry gives the disk; 0 where it says nothing.
pub open spec fn described_blocks(rdb: Rdb) -> int {
    capped(rdb.cylinders * rdb.heads * rdb.sectors)
}

/// The block is on the disk, as far as the disk or its geometry says.
pub open spec fn is_on_disk(rdb: Rdb, disk_blocks: Option<u64>, b: int) -> bool {
    &&& disk_blocks matches Some(n) ==> b < n
    &&& described_blocks(rdb) != 0 ==> b < described_blocks(rdb)
}

/// The first of the partitions that has a block from `start` up to `end`.
pub open spec fn is_first_in(rdb: Rdb, start: int, end: int, index: int) -> bool {
    &&& 0 <= index < rdb.partitions@.len()
    &&& !is_clear_of(rdb.partitions@[index], start, end)
    &&& forall|i: int|
        0 <= i < index ==> is_clear_of(#[trigger] rdb.partitions@[i], start, end)
}

/// Where a partition is in the way of a claim.
proof fn lemma_claim(p: Partition, lo: u64, hi: u64)
    requires
        lo <= hi < u64::MAX,
    ensures
        validate::covers_area(p, lo, hi) <==> !is_clear_of(p, lo as int, hi + 1),
{
    if validate::covers_area(p, lo, hi) {
        let b = if p.start_lba < lo {
            lo as int
        } else {
            p.start_lba as int
        };
        assert(validate_laws::is_in(p, b));
    }
}

/// Which partition is in the way of a claim.
proof fn lemma_claims(rdb: Rdb, new_hi: u32, n: nat)
    requires
        rdb.rdb_blocks_hi < new_hi,
        n <= rdb.partitions@.len() <= usize::MAX,
    ensures
        match extent::claim_blocked(rdb, new_hi, n) {
            None => forall|i: int|
                0 <= i < n ==> is_clear_of(
                    #[trigger] rdb.partitions@[i],
                    rdb.rdb_blocks_hi + 1,
                    new_hi + 1,
                ),
            Some(Rejection::RdbAreaBlocked { index, name, new_hi: asked, move_to_cylinder }) => {
                &&& index < n
                &&& is_first_in(rdb, rdb.rdb_blocks_hi + 1, new_hi + 1, index as int)
                &&& name == rdb.partitions@[index as int].name@
                &&& asked == new_hi
                &&& move_to_cylinder == extent::clear_cylinder(
                    rdb.partitions@[index as int],
                    new_hi,
                )
            },
            Some(_) => false,
        },
    decreases n,
{
    if n > 0 {
        lemma_claims(rdb, new_hi, (n - 1) as nat);
        lemma_claim(rdb.partitions@[n - 1], (rdb.rdb_blocks_hi + 1) as u64, new_hi as u64);
    }
}

/// The first cylinder past the claim.
proof fn lemma_clear_cylinder(p: Partition, new_hi: u32)
    requires
        new_hi < 0xFFFF_FFFF,
    ensures
        ({
            let cyl = if p.cylinder_blocks == 0 {
                1
            } else {
                p.cylinder_blocks as int
            };
            let c = extent::clear_cylinder(p, new_hi);
            (c - 1) * cyl <= new_hi < c * cyl
        }),
{
    let cyl = if p.cylinder_blocks == 0 {
        1
    } else {
        p.cylinder_blocks as int
    };
    let up = new_hi + cyl;
    let q = up / cyl;
    lemma_fundamental_div_mod(up, cyl);
    lemma_mod_bound(up, cyl);
    lemma_mul_is_commutative(cyl, q);
    assert((q - 1) * cyl <= new_hi < q * cyl) by (nonlinear_arith)
        requires
            up == q * cyl + up % cyl,
            0 <= up % cyl < cyl,
            up == new_hi + cyl,
    ;
    assert(0 <= q <= new_hi + 1) by (nonlinear_arith)
        requires
            (q - 1) * cyl <= new_hi < q * cyl,
            cyl >= 1,
    ;
}

/// The area is grown exactly where it is not shrunk by it, the blocks that it
/// takes are on the disk, and no partition has any of them; otherwise the
/// refusal says which of these it is, with the first partition in the way and
/// the first cylinder that would clear it.
pub proof fn law_area_is_grown_where_it_may(rdb: Rdb, disk_blocks: Option<u64>, new_hi: u32)
    requires
        rdb.partitions@.len() <= usize::MAX,
    ensures
        ({
            let hi = rdb.rdb_blocks_hi;
            match extent::expand_refusal(rdb, disk_blocks, new_hi) {
                None => {
                    &&& new_hi >= hi
                    &&& new_hi > hi ==> is_on_disk(rdb, disk_blocks, new_hi as int) && forall|
                        i: int,
                    |
                        0 <= i < rdb.partitions@.len() ==> is_clear_of(
                            #[trigger] rdb.partitions@[i],
                            hi + 1,
                            new_hi + 1,
                        )
                },
                Some(Rejection::RdbAreaWouldShrink { hi: old_hi, new_hi: asked }) => old_hi == hi
                    && asked == new_hi && new_hi < hi,
                Some(Rejection::ClaimsBlocksPastEndOfDisk { last_block, disk_blocks: n }) => {
                    &&& last_block == new_hi > hi
                    &&& new_hi >= n
                    &&& disk_blocks == Some(n) || (n == described_blocks(rdb) && n != 0)
                    &&& disk_blocks matches Some(d) ==> n <= d
                    &&& described_blocks(rdb) != 0 ==> n <= described_blocks(rdb)
                },
                Some(Rejection::RdbAreaBlocked { index, name, new_hi: asked, move_to_cylinder }) => {
                    let p = rdb.partitions@[index as int];
                    let cyl = if p.cylinder_blocks == 0 {
                        1
                    } else {
                        p.cylinder_blocks as int
                    };
                    &&& new_hi > hi
                    &&& is_on_disk(rdb, disk_blocks, new_hi as int)
                    &&& is_first_in(rdb, hi + 1, new_hi + 1, index as int)
                    &&& name == p.name@
                    &&& asked == new_hi
                    &&& new_hi < 0xFFFF_FFFF ==> (move_to_cylinder - 1) * cyl <= new_hi
                        < move_to_cylinder * cyl
                },
                Some(_) => false,
            }
        }),
{
    lemma_mul_nonnegative(rdb.cylinders as int, rdb.heads as int);
    lemma_mul_nonnegative(rdb.cylinders * rdb.heads, rdb.sectors as int);
    if new_hi > rdb.rdb_blocks_hi {
        lemma_claims(rdb, new_hi, rdb.partitions@.len());
        match extent::claim_blocked(rdb, new_hi, rdb.partitions@.len()) {
            Some(Rejection::RdbAreaBlocked { index, name, new_hi: asked, move_to_cylinder }) => {
                if new_hi < 0xFFFF_FFFF {
                    lemma_clear_cylinder(rdb.partitions@[index as int], new_hi);
                }
            },
            _ => {},
        }
    }
}

/// The partition has blocks and starts below the cylinder.
pub open spec fn starts_below(p: Partition, cylinder: u32) -> bool {
    p.block_len != 0 && p.low_cyl < cylinder
}

/// The partition has blocks and ends past the first `total` of the disk.
pub open spec fn ends_after(p: Partition, total: int) -> bool {
    p.block_len != 0 && validate_laws::end_block(p) > total
}

/// The first cylinder for partitions is set exactly where no partition starts
/// below it; otherwise the refusal names the first that does.
pub proof fn law_lo_cylinder_is_set_where_it_may(rdb: Rdb, lo_cylinder: u32, n: nat)
    requires
        n <= rdb.partitions@.len() <= usize::MAX,
    ensures
        ({
            match extent::lo_cylinder_refusal(rdb, lo_cylinder, n) {
                None => forall|i: int| 0 <= i < n ==> !starts_below(#[trigger] rdb.partitions@[i], lo_cylinder),
                Some(Rejection::LoCylinderBlocked { index, name, low_cyl, lo_cylinder: asked }) => {
                    &&& index < n
                    &&& starts_below(rdb.partitions@[index as int], lo_cylinder)
                    &&& forall|i: int| 0 <= i < index ==> !starts_below(#[trigger] rdb.partitions@[i], lo_cylinder)
                    &&& name == rdb.partitions@[index as int].name@
                    &&& low_cyl == rdb.partitions@[index as int].low_cyl
                    &&& asked == lo_cylinder
                },
                Some(_) => false,
            }
        }),
    decreases n,
{
    if n > 0 {
        law_lo_cylinder_is_set_where_it_may(rdb, lo_cylinder, (n - 1) as nat);
    }
}

/// Which partition ends past the disk.
proof fn lemma_ends(rdb: Rdb, cylinders: u32, total: u64, n: nat)
    requires
        n <= rdb.partitions@.len() <= usize::MAX,
    ensures
        ({
            match extent::ends_past(rdb, cylinders, total, n) {
                None => forall|i: int| 0 <= i < n ==> !ends_after(#[trigger] rdb.partitions@[i], total as int),
                Some(Rejection::CylindersBelowPartition { index, name, high_cyl, cylinders: c }) => {
                    &&& index < n
                    &&& ends_after(rdb.partitions@[index as int], total as int)
                    &&& forall|i: int| 0 <= i < index ==> !ends_after(#[trigger] rdb.partitions@[i], total as int)
                    &&& name == rdb.partitions@[index as int].name@
                    &&& high_cyl == rdb.partitions@[index as int].high_cyl
                    &&& c == cylinders
                },
                Some(_) => false,
            }
        }),
    decreases n,
{
    if n > 0 {
        lemma_ends(rdb, cylinders, total, (n - 1) as nat);
    }
}

/// The disk is given another number of cylinders exactly where its geometry has
/// blocks in a cylinder, every partition and the RDB area still end on it, and
/// the disk has that many blocks; otherwise the refusal says which of these
/// fails, and names the first partition that would not fit.
pub proof fn law_cylinders_are_set_where_they_may(
    rdb: Rdb,
    disk_blocks: Option<u64>,
    cylinders: u32,
)
    requires
        rdb.partitions@.len() <= usize::MAX,
    ensures
        ({
            let total = capped(cylinders * (rdb.heads * rdb.sectors));
            let partitions_fit = forall|i: int|
                0 <= i < rdb.partitions@.len() ==> !ends_after(#[trigger] rdb.partitions@[i], total);
            match extent::cylinders_refusal(rdb, disk_blocks, cylinders) {
                None => {
                    &&& rdb.heads * rdb.sectors != 0
                    &&& partitions_fit
                    &&& rdb.rdb_blocks_hi < total
                    &&& disk_blocks matches Some(n) ==> total <= n
                },
                Some(Rejection::UnusableGeometry { heads, sectors }) => heads == rdb.heads
                    && sectors == rdb.sectors && rdb.heads * rdb.sectors == 0,
                Some(Rejection::CylindersBelowPartition { index, name, high_cyl, cylinders: c }) => {
                    &&& rdb.heads * rdb.sectors != 0
                    &&& index < rdb.partitions@.len()
                    &&& ends_after(rdb.partitions@[index as int], total)
                    &&& forall|i: int| 0 <= i < index ==> !ends_after(#[trigger] rdb.partitions@[i], total)
                    &&& name == rdb.partitions@[index as int].name@
                    &&& high_cyl == rdb.partitions@[index as int].high_cyl
                    &&& c == cylinders
                },
                Some(Rejection::ClaimsBlocksPastEndOfDisk { last_block, disk_blocks: n }) => {
                    &&& rdb.heads * rdb.sectors != 0
                    &&& partitions_fit
                    &&& if rdb.rdb_blocks_hi >= total {
                        last_block == rdb.rdb_blocks_hi && n == total
                    } else {
                        last_block == total - 1 && disk_blocks == Some(n) && n < total
                    }
                },
                Some(_) => false,
            }
        }),
{
    lemma_mul_nonnegative(rdb.heads as int, rdb.sectors as int);
    lemma_mul_nonnegative(cylinders as int, rdb.heads * rdb.sectors);
    let total = arith::saturated(cylinders * (rdb.heads * rdb.sectors));
    lemma_ends(rdb, cylinders, total, rdb.partitions@.len());
}

} // verus!
