//! Which extents an edit may give a partition, and which blocks it may claim.
//!
//! A cylinder is not one unit on a disk: each partition has its own surfaces
//! and blocks per track. Extents are therefore compared in device blocks, and
//! only reported in cylinders.
use vstd::prelude::*;

use crate::arith::{clamp32, max64, min64, mul32, sat_add, sat_mul};
use crate::edit_error::{EditError, Rejection};
use crate::model::{Partition, Rdb};
use crate::sort::{sort_extents, Extent};
use crate::{arith, sort, validate};

verus! {

/// Blocks per cylinder of the drive.
pub open spec fn drive_cyl(rdb: Rdb) -> int {
    rdb.heads * rdb.sectors
}

/// How many blocks the disk has: what it said, or what its geometry multiplies
/// out to, or the lower of the two.
pub open spec fn disk_limit(rdb: Rdb, disk_blocks: Option<u64>) -> Option<u64> {
    let geometry = arith::saturated(rdb.cylinders * rdb.heads * rdb.sectors);
    match disk_blocks {
        Some(n) => if geometry == 0 || n <= geometry {
            Some(n)
        } else {
            Some(geometry)
        },
        None => if geometry == 0 {
            None
        } else {
            Some(geometry)
        },
    }
}

/// How many blocks the disk has.
pub fn disk_block_limit(rdb: &Rdb, disk_blocks: Option<u64>) -> (r: Option<u64>)
    ensures
        r == disk_limit(*rdb, disk_blocks),
{
    let geometry: u64 = sat_mul(mul32(rdb.cylinders, rdb.heads), rdb.sectors as u64);
    match disk_blocks {
        Some(n) => if geometry == 0 {
            Some(n)
        } else {
            Some(min64(n, geometry))
        },
        None => if geometry == 0 {
            None
        } else {
            Some(geometry)
        },
    }
}

/// The cylinder a partition would have to start on to be clear of blocks up to
/// `claim_hi`, in its own cylinders.
pub open spec fn clear_cylinder(p: Partition, claim_hi: u32) -> u32 {
    let cyl = if p.cylinder_blocks >= 1 {
        p.cylinder_blocks as int
    } else {
        1
    };
    ((claim_hi + cyl) / cyl) as u32
}

/// The first of the first `n` partitions that covers a block of the claim.
pub open spec fn claim_blocked(rdb: Rdb, new_hi: u32, n: nat) -> Option<Rejection>
    decreases n,
{
    if n == 0 {
        None
    } else {
        let p = rdb.partitions@[n - 1];
        match claim_blocked(rdb, new_hi, (n - 1) as nat) {
            Some(r) => Some(r),
            None => if validate::covers_area(
                p,
                (rdb.rdb_blocks_hi + 1) as u64,
                new_hi as u64,
            ) {
                Some(
                    Rejection::RdbAreaBlocked {
                        index: (n - 1) as usize,
                        name: p.name@,
                        new_hi,
                        move_to_cylinder: clear_cylinder(p, new_hi),
                    },
                )
            } else {
                None
            },
        }
    }
}

/// Why the RDB area cannot be grown up to `new_hi`, if it cannot: it is never
/// shrunk, it may not reach past the end of the disk, and no block it claims
/// may belong to a partition.
pub open spec fn expand_refusal(rdb: Rdb, disk_blocks: Option<u64>, new_hi: u32) -> Option<
    Rejection,
> {
    if new_hi < rdb.rdb_blocks_hi {
        Some(Rejection::RdbAreaWouldShrink { hi: rdb.rdb_blocks_hi, new_hi })
    } else if new_hi == rdb.rdb_blocks_hi {
        None
    } else {
        match disk_limit(rdb, disk_blocks) {
            Some(n) if new_hi >= n => Some(
                Rejection::ClaimsBlocksPastEndOfDisk { last_block: new_hi as u64, disk_blocks: n },
            ),
            _ => claim_blocked(rdb, new_hi, rdb.partitions@.len()),
        }
    }
}

/// An earlier partition in the way is the one reported.
proof fn lemma_claim_blocked_first(rdb: Rdb, new_hi: u32, i: nat, n: nat)
    requires
        i <= n,
        claim_blocked(rdb, new_hi, i) is Some,
    ensures
        claim_blocked(rdb, new_hi, n) == claim_blocked(rdb, new_hi, i),
    decreases n,
{
    if i < n {
        lemma_claim_blocked_first(rdb, new_hi, i, (n - 1) as nat);
    }
}

/// Whether the RDB area may be grown up to `new_hi`.
pub fn check_expand(rdb: &Rdb, disk_blocks: Option<u64>, new_hi: u32) -> (r: Result<(), EditError>)
    requires
        forall|i: int|
            0 <= i < rdb.partitions@.len() ==> (
            #[trigger] rdb.partitions@[i]).cylinder_blocks <= 0xFFFF_FFFE_0000_0001,
    ensures
        match r {
            Ok(_) => expand_refusal(*rdb, disk_blocks, new_hi) is None,
            Err(e) => expand_refusal(*rdb, disk_blocks, new_hi) == Some(e@),
        },
{
    let hi: u32 = rdb.rdb_blocks_hi;
    if new_hi < hi {
        return Err(EditError::RdbAreaWouldShrink { hi, new_hi });
    }
    if new_hi == hi {
        return Ok(());
    }
    if let Some(n) = disk_block_limit(rdb, disk_blocks) {
        if new_hi as u64 >= n {
            return Err(
                EditError::ClaimsBlocksPastEndOfDisk { last_block: new_hi as u64, disk_blocks: n },
            );
        }
    }
    let claim_lo: u64 = hi as u64 + 1;
    let claim_hi: u64 = new_hi as u64;
    let mut i: usize = 0;
    while i < rdb.partitions.len()
        invariant
            i <= rdb.partitions.len(),
            hi == rdb.rdb_blocks_hi,
            hi < new_hi,
            claim_lo == hi + 1,
            claim_hi == new_hi,
            claim_blocked(*rdb, new_hi, i as nat) is None,
            expand_refusal(*rdb, disk_blocks, new_hi) == claim_blocked(
                *rdb,
                new_hi,
                rdb.partitions@.len(),
            ),
            forall|i: int|
                0 <= i < rdb.partitions@.len() ==> (
                #[trigger] rdb.partitions@[i]).cylinder_blocks <= 0xFFFF_FFFE_0000_0001,
        decreases rdb.partitions.len() - i,
    {
        let p = &rdb.partitions[i];
        assert(rdb.partitions@[i as int].cylinder_blocks <= 0xFFFF_FFFE_0000_0001);
        if p.block_len != 0 && p.start_lba <= claim_hi && sat_add(p.start_lba, p.block_len)
            > claim_lo {
            proof {
                lemma_claim_blocked_first(*rdb, new_hi, (i + 1) as nat, rdb.partitions@.len());
            }
            let cyl_blocks: u64 = if p.cylinder_blocks >= 1 {
                p.cylinder_blocks
            } else {
                1
            };
            let move_to_cylinder: u32 = ((claim_hi + cyl_blocks) / cyl_blocks) as u32;
            return Err(
                EditError::RdbAreaBlocked { index: i, name: p.name.clone(), new_hi, move_to_cylinder },
            );
        }
        i += 1;
    }
    Ok(())
}

/// The first of the first `n` partitions that starts below `lo_cylinder`.
pub open spec fn lo_cylinder_refusal(rdb: Rdb, lo_cylinder: u32, n: nat) -> Option<Rejection>
    decreases n,
{
    if n == 0 {
        None
    } else {
        let p = rdb.partitions@[n - 1];
        match lo_cylinder_refusal(rdb, lo_cylinder, (n - 1) as nat) {
            Some(r) => Some(r),
            None => if p.block_len != 0 && p.low_cyl < lo_cylinder {
                Some(
                    Rejection::LoCylinderBlocked {
                        index: (n - 1) as usize,
                        name: p.name@,
                        low_cyl: p.low_cyl,
                        lo_cylinder,
                    },
                )
            } else {
                None
            },
        }
    }
}

/// An earlier partition in the way is the one reported.
proof fn lemma_lo_cylinder_first(rdb: Rdb, lo_cylinder: u32, i: nat, n: nat)
    requires
        i <= n,
        lo_cylinder_refusal(rdb, lo_cylinder, i) is Some,
    ensures
        lo_cylinder_refusal(rdb, lo_cylinder, n) == lo_cylinder_refusal(rdb, lo_cylinder, i),
    decreases n,
{
    if i < n {
        lemma_lo_cylinder_first(rdb, lo_cylinder, i, (n - 1) as nat);
    }
}

/// Whether no partition starts below `lo_cylinder`.
pub fn check_lo_cylinder(rdb: &Rdb, lo_cylinder: u32) -> (r: Result<(), EditError>)
    ensures
        match r {
            Ok(_) => lo_cylinder_refusal(*rdb, lo_cylinder, rdb.partitions@.len()) is None,
            Err(e) => lo_cylinder_refusal(*rdb, lo_cylinder, rdb.partitions@.len()) == Some(e@),
        },
{
    let mut i: usize = 0;
    while i < rdb.partitions.len()
        invariant
            i <= rdb.partitions.len(),
            lo_cylinder_refusal(*rdb, lo_cylinder, i as nat) is None,
        decreases rdb.partitions.len() - i,
    {
        let p = &rdb.partitions[i];
        if p.block_len != 0 && p.low_cyl < lo_cylinder {
            proof {
                lemma_lo_cylinder_first(
                    *rdb,
                    lo_cylinder,
                    (i + 1) as nat,
                    rdb.partitions@.len(),
                );
            }
            return Err(
                EditError::LoCylinderBlocked {
                    index: i,
                    name: p.name.clone(),
                    low_cyl: p.low_cyl,
                    lo_cylinder,
                },
            );
        }
        i += 1;
    }
    Ok(())
}

/// The first of the first `n` partitions that ends past block `total`.
pub open spec fn ends_past(rdb: Rdb, cylinders: u32, total: u64, n: nat) -> Option<Rejection>
    decreases n,
{
    if n == 0 {
        None
    } else {
        let p = rdb.partitions@[n - 1];
        match ends_past(rdb, cylinders, total, (n - 1) as nat) {
            Some(r) => Some(r),
            None => if p.block_len != 0 && validate::end_of(p) > total {
                Some(
                    Rejection::CylindersBelowPartition {
                        index: (n - 1) as usize,
                        name: p.name@,
                        high_cyl: p.high_cyl,
                        cylinders,
                    },
                )
            } else {
                None
            },
        }
    }
}

/// Why the disk cannot have `cylinders` cylinders, if it cannot: every
/// partition and the RDB area must fit, and the disk must have the blocks.
pub open spec fn cylinders_refusal(rdb: Rdb, disk_blocks: Option<u64>, cylinders: u32) -> Option<
    Rejection,
> {
    let total = arith::saturated(cylinders * drive_cyl(rdb));
    if drive_cyl(rdb) == 0 {
        Some(Rejection::UnusableGeometry { heads: rdb.heads, sectors: rdb.sectors })
    } else {
        match ends_past(rdb, cylinders, total, rdb.partitions@.len()) {
            Some(r) => Some(r),
            None => if total <= rdb.rdb_blocks_hi {
                Some(
                    Rejection::ClaimsBlocksPastEndOfDisk {
                        last_block: rdb.rdb_blocks_hi as u64,
                        disk_blocks: total,
                    },
                )
            } else {
                match disk_blocks {
                    Some(n) if total > n => Some(
                        Rejection::ClaimsBlocksPastEndOfDisk {
                            last_block: (total - 1) as u64,
                            disk_blocks: n,
                        },
                    ),
                    _ => None,
                }
            },
        }
    }
}

/// An earlier partition in the way is the one reported.
proof fn lemma_ends_past_first(rdb: Rdb, cylinders: u32, total: u64, i: nat, n: nat)
    requires
        i <= n,
        ends_past(rdb, cylinders, total, i) is Some,
    ensures
        ends_past(rdb, cylinders, total, n) == ends_past(rdb, cylinders, total, i),
    decreases n,
{
    if i < n {
        lemma_ends_past_first(rdb, cylinders, total, i, (n - 1) as nat);
    }
}

/// Whether the disk may have `cylinders` cylinders.
pub fn check_cylinders(rdb: &Rdb, disk_blocks: Option<u64>, cylinders: u32) -> (r: Result<
    (),
    EditError,
>)
    ensures
        match r {
            Ok(_) => cylinders_refusal(*rdb, disk_blocks, cylinders) is None,
            Err(e) => cylinders_refusal(*rdb, disk_blocks, cylinders) == Some(e@),
        },
{
    let cyl_blocks: u64 = mul32(rdb.heads, rdb.sectors);
    if cyl_blocks == 0 {
        return Err(EditError::UnusableGeometry { heads: rdb.heads, sectors: rdb.sectors });
    }
    let total: u64 = sat_mul(cylinders as u64, cyl_blocks);
    let mut i: usize = 0;
    while i < rdb.partitions.len()
        invariant
            i <= rdb.partitions.len(),
            drive_cyl(*rdb) != 0,
            total == arith::saturated(cylinders * drive_cyl(*rdb)),
            ends_past(*rdb, cylinders, total, i as nat) is None,
        decreases rdb.partitions.len() - i,
    {
        let p = &rdb.partitions[i];
        if p.block_len != 0 && sat_add(p.start_lba, p.block_len) > total {
            proof {
                lemma_ends_past_first(
                    *rdb,
                    cylinders,
                    total,
                    (i + 1) as nat,
                    rdb.partitions@.len(),
                );
            }
            return Err(
                EditError::CylindersBelowPartition {
                    index: i,
                    name: p.name.clone(),
                    high_cyl: p.high_cyl,
                    cylinders,
                },
            );
        }
        i += 1;
    }
    if total <= rdb.rdb_blocks_hi as u64 {
        return Err(
            EditError::ClaimsBlocksPastEndOfDisk {
                last_block: rdb.rdb_blocks_hi as u64,
                disk_blocks: total,
            },
        );
    }
    if let Some(n) = disk_blocks {
        if total > n {
            return Err(
                EditError::ClaimsBlocksPastEndOfDisk { last_block: total - 1, disk_blocks: n },
            );
        }
    }
    Ok(())
}

/// The last cylinder of the disk: the lower of `rdb_HiCylinder` and
/// `rdb_Cylinders - 1`.
pub open spec fn last_cyl(rdb: Rdb) -> int {
    let last = if rdb.cylinders > 0 {
        rdb.cylinders - 1
    } else {
        0
    };
    if rdb.hi_cylinder <= last {
        rdb.hi_cylinder as int
    } else {
        last
    }
}

/// How many blocks the drive geometry says the disk has.
pub open spec fn geometry_blocks(rdb: Rdb) -> u64 {
    arith::saturated((last_cyl(rdb) + 1) * drive_cyl(rdb))
}

/// The first block a partition may claim: `rdb_LoCylinder` in the drive's
/// cylinders, or the block after the RDB area, whichever is higher.
pub open spec fn first_block(rdb: Rdb) -> u64 {
    let floor = arith::saturated(rdb.lo_cylinder * drive_cyl(rdb));
    if floor >= rdb.rdb_blocks_hi + 1 {
        floor
    } else {
        (rdb.rdb_blocks_hi + 1) as u64
    }
}

/// The same, rounded up into cylinders of `cyl` blocks.
pub open spec fn first_cyl(rdb: Rdb, cyl: int) -> u32 {
    if cyl == 0 {
        rdb.lo_cylinder
    } else {
        arith::saturated32(arith::saturated(first_block(rdb) + cyl - 1) as int / cyl)
    }
}

/// The last cylinder of the disk.
pub fn last_cylinder(rdb: &Rdb) -> (r: u32)
    ensures
        r == last_cyl(*rdb),
{
    let last: u32 = if rdb.cylinders > 0 {
        rdb.cylinders - 1
    } else {
        0
    };
    if rdb.hi_cylinder <= last {
        rdb.hi_cylinder
    } else {
        last
    }
}

/// How many blocks the drive geometry says the disk has.
pub fn disk_blocks_from_geometry(rdb: &Rdb) -> (r: u64)
    ensures
        r == geometry_blocks(*rdb),
{
    sat_mul(last_cylinder(rdb) as u64 + 1, mul32(rdb.heads, rdb.sectors))
}

/// The first block a partition may claim.
pub fn first_partition_block(rdb: &Rdb) -> (r: u64)
    ensures
        r == first_block(*rdb),
{
    max64(
        sat_mul(rdb.lo_cylinder as u64, mul32(rdb.heads, rdb.sectors)),
        rdb.rdb_blocks_hi as u64 + 1,
    )
}

/// The first cylinder, of `cyl_blocks` blocks, that a partition may start on.
pub fn first_partition_cylinder(rdb: &Rdb, cyl_blocks: u64) -> (r: u32)
    ensures
        r == first_cyl(*rdb, cyl_blocks as int),
{
    if cyl_blocks == 0 {
        return rdb.lo_cylinder;
    }
    let first: u64 = first_partition_block(rdb);
    clamp32(sat_add(first, cyl_blocks - 1) / cyl_blocks)
}

/// The blocks `start..start + len` reach into the RDB area.
pub open spec fn overlaps_area(rdb: Rdb, start: u64, len: u64) -> bool {
    &&& rdb.rdb_blocks_lo <= rdb.rdb_blocks_hi
    &&& len != 0
    &&& start <= rdb.rdb_blocks_hi
    &&& arith::saturated(start + len) > rdb.rdb_blocks_lo
}

/// The blocks `start..start + len` and those of partition `i`, where they meet.
pub open spec fn overlap_with(rdb: Rdb, start: u64, len: u64, i: int) -> Option<Rejection> {
    let p = rdb.partitions@[i];
    let from = if start >= p.start_lba {
        start
    } else {
        p.start_lba
    };
    let end = arith::saturated(start + len);
    let to = if end <= validate::end_of(p) {
        end
    } else {
        validate::end_of(p)
    };
    if p.block_len != 0 && from < to {
        Some(
            Rejection::PartitionsOverlap {
                index: i as usize,
                name: p.name@,
                start: from,
                len: (to - from) as u64,
            },
        )
    } else {
        None
    }
}

/// The first of the first `n` partitions, `exclude` aside, that the blocks
/// `start..start + len` meet.
pub open spec fn overlap_refusal(
    rdb: Rdb,
    exclude: Option<usize>,
    start: u64,
    len: u64,
    n: nat,
) -> Option<Rejection>
    decreases n,
{
    if n == 0 {
        None
    } else {
        match overlap_refusal(rdb, exclude, start, len, (n - 1) as nat) {
            Some(r) => Some(r),
            None => if exclude == Some((n - 1) as usize) {
                None
            } else {
                overlap_with(rdb, start, len, n - 1)
            },
        }
    }
}

/// Why cylinders `low..=high` of `cyl` blocks are no legal extent, if they are
/// none: an extent runs forwards, ends inside the disk, is clear of the RDB
/// area, and clear of every partition except `exclude`.
pub open spec fn extent_refusal(
    rdb: Rdb,
    exclude: Option<usize>,
    low: u32,
    high: u32,
    cyl: int,
) -> Option<Rejection> {
    let start = arith::saturated(low * cyl);
    let len = arith::saturated((high - low + 1) * cyl);
    if high < low {
        Some(Rejection::CylindersInverted { low_cyl: low, high_cyl: high })
    } else if arith::saturated(start + len) > geometry_blocks(rdb) {
        let cylinders = geometry_blocks(rdb) as int / cyl;
        Some(
            Rejection::PastEndOfDisk {
                high_cyl: high,
                last_cylinder: arith::saturated32(
                    if cylinders > 0 {
                        cylinders - 1
                    } else {
                        0
                    },
                ),
            },
        )
    } else if start < first_block(rdb) || overlaps_area(rdb, start, len) {
        Some(Rejection::OverlapsRdbArea { low_cyl: low, lo_cylinder: first_cyl(rdb, cyl) })
    } else {
        overlap_refusal(rdb, exclude, start, len, rdb.partitions@.len())
    }
}

/// An earlier partition in the way is the one reported.
proof fn lemma_overlap_first(
    rdb: Rdb,
    exclude: Option<usize>,
    start: u64,
    len: u64,
    i: nat,
    n: nat,
)
    requires
        i <= n,
        overlap_refusal(rdb, exclude, start, len, i) is Some,
    ensures
        overlap_refusal(rdb, exclude, start, len, n) == overlap_refusal(
            rdb,
            exclude,
            start,
            len,
            i,
        ),
    decreases n,
{
    if i < n {
        lemma_overlap_first(rdb, exclude, start, len, i, (n - 1) as nat);
    }
}

/// Whether cylinders `low..=high` of `cyl_blocks` blocks are a legal extent.
pub fn check_extent(
    rdb: &Rdb,
    exclude: Option<usize>,
    low_cyl: u32,
    high_cyl: u32,
    cyl_blocks: u64,
) -> (r: Result<(), EditError>)
    requires
        cyl_blocks > 0,
    ensures
        match r {
            Ok(_) => extent_refusal(*rdb, exclude, low_cyl, high_cyl, cyl_blocks as int) is None,
            Err(e) => extent_refusal(*rdb, exclude, low_cyl, high_cyl, cyl_blocks as int) == Some(
                e@,
            ),
        },
{
    if high_cyl < low_cyl {
        return Err(EditError::CylindersInverted { low_cyl, high_cyl });
    }
    let start_lba: u64 = sat_mul(low_cyl as u64, cyl_blocks);
    let block_len: u64 = sat_mul(high_cyl as u64 - low_cyl as u64 + 1, cyl_blocks);
    let end_lba: u64 = sat_add(start_lba, block_len);
    let disk_blocks: u64 = disk_blocks_from_geometry(rdb);
    if end_lba > disk_blocks {
        let cylinders: u64 = disk_blocks / cyl_blocks;
        let last: u64 = if cylinders > 0 {
            cylinders - 1
        } else {
            0
        };
        return Err(EditError::PastEndOfDisk { high_cyl, last_cylinder: clamp32(last) });
    }
    let lo: u64 = rdb.rdb_blocks_lo as u64;
    let hi: u64 = rdb.rdb_blocks_hi as u64;
    let in_area: bool = lo <= hi && block_len != 0 && start_lba <= hi && end_lba > lo;
    if start_lba < first_partition_block(rdb) || in_area {
        return Err(
            EditError::OverlapsRdbArea {
                low_cyl,
                lo_cylinder: first_partition_cylinder(rdb, cyl_blocks),
            },
        );
    }
    let mut i: usize = 0;
    while i < rdb.partitions.len()
        invariant
            i <= rdb.partitions.len(),
            end_lba == arith::saturated(start_lba + block_len),
            extent_refusal(*rdb, exclude, low_cyl, high_cyl, cyl_blocks as int) == overlap_refusal(
                *rdb,
                exclude,
                start_lba,
                block_len,
                rdb.partitions@.len(),
            ),
            overlap_refusal(*rdb, exclude, start_lba, block_len, i as nat) is None,
        decreases rdb.partitions.len() - i,
    {
        let p = &rdb.partitions[i];
        let excluded: bool = match exclude {
            Some(x) => x == i,
            None => false,
        };
        if !excluded && p.block_len != 0 {
            let start: u64 = max64(start_lba, p.start_lba);
            let end: u64 = min64(end_lba, sat_add(p.start_lba, p.block_len));
            if start < end {
                proof {
                    lemma_overlap_first(
                        *rdb,
                        exclude,
                        start_lba,
                        block_len,
                        (i + 1) as nat,
                        rdb.partitions@.len(),
                    );
                }
                return Err(
                    EditError::PartitionsOverlap {
                        index: i,
                        name: p.name.clone(),
                        start,
                        len: end - start,
                    },
                );
            }
        }
        i += 1;
    }
    Ok(())
}

/// The cylinders that the partitions use.
pub open spec fn uses(rdb: Rdb, i: int, c: int) -> bool {
    let p = rdb.partitions@[i];
    p.block_len != 0 && p.low_cyl <= c <= p.high_cyl
}

/// Cylinders `from..from + len` are free: they start where partitions may, no
/// partition uses one of them, and they end on the disk or before a partition.
pub open spec fn is_free_run(rdb: Rdb, cyl: int, from: int, len: int) -> bool {
    &&& len >= 1
    &&& from >= first_cyl(rdb, cyl)
    &&& forall|i: int, c: int|
        0 <= i < rdb.partitions@.len() && from <= c < from + len ==> !#[trigger] uses(rdb, i, c)
    &&& from + len - 1 <= last_cyl(rdb) || some_starts_after(
        rdb,
        from + len - 1,
    )
}

/// Partition `i` starts after cylinder `c`.
pub open spec fn starts_after(rdb: Rdb, i: int, c: int) -> bool {
    &&& 0 <= i < rdb.partitions@.len()
    &&& rdb.partitions@[i].block_len != 0
    &&& rdb.partitions@[i].low_cyl > c
}

/// A partition starts after cylinder `c`.
pub open spec fn some_starts_after(rdb: Rdb, c: int) -> bool {
    exists|i: int| starts_after(rdb, i, c)
}

/// What placing a partition of `bytes` bytes, in cylinders of `cyl` blocks, may
/// give: the lowest free run of as many whole cylinders as the size has.
pub open spec fn size_outcome(
    rdb: Rdb,
    block_size: usize,
    bytes: u64,
    cyl: int,
    r: Result<(u32, u32), Rejection>,
) -> bool {
    let cylinder_bytes = arith::saturated(cyl * block_size);
    let want = bytes as int / cylinder_bytes as int;
    if cyl == 0 {
        r == Err::<(u32, u32), Rejection>(
            Rejection::UnusableGeometry { heads: rdb.heads, sectors: rdb.sectors },
        )
    } else if bytes < cylinder_bytes {
        r == Err::<(u32, u32), Rejection>(Rejection::PartitionTooSmall { bytes, cylinder_bytes })
    } else {
        match r {
            Ok((low, high)) => {
                &&& is_free_run(rdb, cyl, low as int, want)
                &&& high == low + want - 1
                &&& forall|f: int| #[trigger] is_free_run(rdb, cyl, f, want) ==> low <= f
            },
            Err(Rejection::NoRoomForPartition { cylinders, largest_gap }) => {
                &&& cylinders == want
                &&& largest_gap < want
                &&& largest_gap > 0 ==> exists|f: int|
                    #[trigger] is_free_run(rdb, cyl, f, largest_gap as int)
                &&& forall|f: int, n: int| #[trigger]
                    is_free_run(rdb, cyl, f, n) ==> n <= largest_gap
            },
            _ => false,
        }
    }
}

/// Extents that are not empty run forwards.
pub open spec fn forwards(rdb: Rdb) -> bool {
    forall|i: int|
        0 <= i < rdb.partitions@.len() && (#[trigger] rdb.partitions@[i]).block_len != 0
            ==> rdb.partitions@[i].low_cyl <= rdb.partitions@[i].high_cyl
}

/// The extents of the partitions that are not empty, in cylinders.
spec fn is_used_list(rdb: Rdb, used: Seq<Extent>) -> bool {
    &&& forall|k: int|
        0 <= k < used.len() ==> {
            let (low, high, i) = #[trigger] used[k];
            &&& i < rdb.partitions@.len()
            &&& rdb.partitions@[i as int].block_len != 0
            &&& low == rdb.partitions@[i as int].low_cyl
            &&& high == rdb.partitions@[i as int].high_cyl
        }
    &&& forall|i: int|
        0 <= i < rdb.partitions@.len() && (#[trigger] rdb.partitions@[i]).block_len != 0
            ==> exists|k: int| 0 <= k < used.len() && (#[trigger] used[k]).2 == i
}

/// The extents in use, sorted by their first cylinder.
fn used_extents(rdb: &Rdb) -> (sorted: Vec<Extent>)
    ensures
        is_used_list(*rdb, sorted@),
        sort::sorted(sorted@),
{
    let mut used: Vec<Extent> = Vec::new();
    let mut i: usize = 0;
    while i < rdb.partitions.len()
        invariant
            i <= rdb.partitions.len(),
            forall|k: int|
                0 <= k < used@.len() ==> {
                    let (low, high, i) = #[trigger] used@[k];
                    &&& i < rdb.partitions@.len()
                    &&& rdb.partitions@[i as int].block_len != 0
                    &&& low == rdb.partitions@[i as int].low_cyl
                    &&& high == rdb.partitions@[i as int].high_cyl
                },
            forall|j: int|
                0 <= j < i && (#[trigger] rdb.partitions@[j]).block_len != 0 ==> exists|k: int|
                    0 <= k < used@.len() && (#[trigger] used@[k]).2 == j,
        decreases rdb.partitions.len() - i,
    {
        let p = &rdb.partitions[i];
        let ghost before = used@;
        if p.block_len != 0 {
            used.push((p.low_cyl as u64, p.high_cyl as u64, i));
        }
        proof {
            assert forall|j: int|
                0 <= j < i + 1 && (#[trigger] rdb.partitions@[j]).block_len
                    != 0 implies exists|k: int|
                0 <= k < used@.len() && (#[trigger] used@[k]).2 == j by {
                if j < i {
                    let k = choose|k: int| 0 <= k < before.len() && (#[trigger] before[k]).2 == j;
                    assert(used@[k].2 == j);
                } else {
                    assert(used@[used@.len() - 1].2 == j);
                }
            }
        }
        i += 1;
    }
    let ghost list = used@;
    let sorted = sort_extents(used);
    proof {
        sort::lemma_same_items(list, sorted@);
        assert forall|k: int| 0 <= k < sorted@.len() implies {
            let (low, high, i) = #[trigger] sorted@[k];
            &&& i < rdb.partitions@.len()
            &&& rdb.partitions@[i as int].block_len != 0
            &&& low == rdb.partitions@[i as int].low_cyl
            &&& high == rdb.partitions@[i as int].high_cyl
        } by {
            assert(list.contains(sorted@[k]));
            let n = choose|n: int| 0 <= n < list.len() && list[n] == sorted@[k];
            assert(list[n] == sorted@[k]);
        }
        assert forall|i: int|
            0 <= i < rdb.partitions@.len() && (#[trigger] rdb.partitions@[i]).block_len
                != 0 implies exists|k: int|
            0 <= k < sorted@.len() && (#[trigger] sorted@[k]).2 == i by {
            let n = choose|n: int| 0 <= n < list.len() && (#[trigger] list[n]).2 == i;
            assert(list.contains(list[n]));
            assert(sorted@.contains(list[n]));
            let k = choose|k: int| 0 <= k < sorted@.len() && sorted@[k] == list[n];
            assert(sorted@[k].2 == i);
        }
    }
    sorted
}

/// Turn a size into a cylinder range: first fit, from the lowest free cylinder
/// upward, the cylinder count rounded down.
#[verifier::rlimit(30)]
pub fn place_by_size(rdb: &Rdb, block_size: usize, bytes: u64, cyl_blocks: u64) -> (r: Result<
    (u32, u32),
    EditError,
>)
    requires
        forwards(*rdb),
        block_size > 0,
    ensures
        size_outcome(
            *rdb,
            block_size,
            bytes,
            cyl_blocks as int,
            match r {
                Ok(range) => Ok(range),
                Err(e) => Err(e@),
            },
        ),
{
    if cyl_blocks == 0 {
        return Err(EditError::UnusableGeometry { heads: rdb.heads, sectors: rdb.sectors });
    }
    let ghost cyl = cyl_blocks as int;
    let cylinder_bytes: u64 = sat_mul(cyl_blocks, block_size as u64);
    assert(cyl_blocks * block_size >= 1) by (nonlinear_arith)
        requires
            cyl_blocks >= 1,
            block_size >= 1,
    ;
    if bytes < cylinder_bytes {
        return Err(EditError::PartitionTooSmall { bytes, cylinder_bytes });
    }
    let want: u64 = bytes / cylinder_bytes;
    assert(want >= 1) by {
        vstd::arithmetic::div_mod::lemma_div_is_ordered(
            cylinder_bytes as int,
            bytes as int,
            cylinder_bytes as int,
        );
        vstd::arithmetic::div_mod::lemma_div_by_self(cylinder_bytes as int);
    }
    let last: u64 = last_cylinder(rdb) as u64;
    let used = used_extents(rdb);
    let first: u64 = first_partition_cylinder(rdb, cyl_blocks) as u64;
    let mut cursor: u64 = first;
    let mut largest_gap: u64 = 0;
    let mut k: usize = 0;
    while k < used.len()
        invariant
            k <= used.len(),
            cyl == cyl_blocks,
            cyl != 0,
            cylinder_bytes == arith::saturated(cyl * block_size),
            bytes >= cylinder_bytes > 0,
            want == bytes as int / cylinder_bytes as int,
            want >= 1,
            forwards(*rdb),
            is_used_list(*rdb, used@),
            sort::sorted(used@),
            first == first_cyl(*rdb, cyl),
            last == last_cyl(*rdb),
            first <= cursor <= u32::MAX + 1,
            forall|j: int| 0 <= j < k ==> (#[trigger] used@[j]).1 < cursor,
            largest_gap < want,
            largest_gap > 0 ==> exists|f: int| #[trigger]
                is_free_run(*rdb, cyl, f, largest_gap as int),
            forall|f: int, n: int| #[trigger]
                is_free_run(*rdb, cyl, f, n) && f < cursor ==> n <= largest_gap,
        decreases used.len() - k,
    {
        let (low, high, i) = used[k];
        assert(used@[k as int] == (low, high, i));
        let ghost p = rdb.partitions@[i as int];
        assert(p.low_cyl == low && p.high_cyl == high && p.block_len != 0);
        if low > cursor {
            let gap: u64 = low - cursor;
            proof {
                assert(is_free_run(*rdb, cyl, cursor as int, gap as int)) by {
                    assert forall|j: int, c: int|
                        0 <= j < rdb.partitions@.len() && cursor <= c < cursor
                            + gap implies !#[trigger] uses(*rdb, j, c) by {
                        if uses(*rdb, j, c) {
                            lemma_unused(*rdb, used@, k as int, cursor as int, j, c);
                        }
                    }
                    assert(starts_after(*rdb, i as int, cursor + gap - 1));
                }
                assert forall|f: int, n: int| #[trigger]
                    is_free_run(*rdb, cyl, f, n) && f < low implies n <= gap || n
                    <= largest_gap by {
                    if f >= cursor && n > gap {
                        assert(uses(*rdb, i as int, low as int));
                    }
                }
            }
            if gap >= want {
                proof {
                    lemma_shorter_run(*rdb, cyl, cursor as int, gap as int, want as int);
                    assert forall|f: int| #[trigger]
                        is_free_run(*rdb, cyl, f, want as int) implies cursor <= f by {}
                }
                return Ok((cursor as u32, (cursor + want - 1) as u32));
            }
            if gap > largest_gap {
                largest_gap = gap;
            }
        }
        proof {
            assert forall|f: int, n: int| #[trigger]
                is_free_run(*rdb, cyl, f, n) && f < cursor_after(cursor, high) implies n
                <= largest_gap by {
                if f >= cursor && f >= low {
                    assert(uses(*rdb, i as int, f));
                }
            }
        }
        if high >= cursor {
            cursor = high + 1;
        }
        k += 1;
    }
    if cursor <= last {
        let gap: u64 = last - cursor + 1;
        proof {
            assert(is_free_run(*rdb, cyl, cursor as int, gap as int)) by {
                assert forall|j: int, c: int|
                    0 <= j < rdb.partitions@.len() && cursor <= c < cursor
                        + gap implies !#[trigger] uses(*rdb, j, c) by {
                    if uses(*rdb, j, c) {
                        lemma_unused(*rdb, used@, k as int, cursor as int, j, c);
                    }
                }
            }
            assert forall|f: int, n: int| #[trigger] is_free_run(*rdb, cyl, f, n) implies n <= gap
                || n <= largest_gap by {
                if f >= cursor && n > gap {
                    lemma_nothing_after(*rdb, used@, cursor as int, f + n - 1);
                }
            }
        }
        if gap >= want {
            proof {
                lemma_shorter_run(*rdb, cyl, cursor as int, gap as int, want as int);
            }
            return Ok((cursor as u32, (cursor + want - 1) as u32));
        }
        if gap > largest_gap {
            largest_gap = gap;
        }
    } else {
        proof {
            assert forall|f: int, n: int| #[trigger] is_free_run(*rdb, cyl, f, n) implies n
                <= largest_gap by {
                if f >= cursor {
                    lemma_nothing_after(*rdb, used@, cursor as int, f + n - 1);
                }
            }
        }
    }
    Err(EditError::NoRoomForPartition { cylinders: want, largest_gap })
}

/// Where the search goes on behind an extent that ends on `high`.
spec fn cursor_after(cursor: u64, high: u64) -> int {
    if high >= cursor {
        high + 1
    } else {
        cursor as int
    }
}

/// A partition that uses cylinder `c`, from the cursor on, is not among those
/// the search has passed, and so does not start before the next.
proof fn lemma_unused(rdb: Rdb, used: Seq<Extent>, k: int, cursor: int, j: int, c: int)
    requires
        is_used_list(rdb, used),
        sort::sorted(used),
        0 <= k <= used.len(),
        forall|n: int| 0 <= n < k ==> (#[trigger] used[n]).1 < cursor,
        0 <= j < rdb.partitions@.len(),
        uses(rdb, j, c),
        cursor <= c,
    ensures
        k < used.len(),
        used[k].0 <= c,
{
    let n = choose|n: int| 0 <= n < used.len() && (#[trigger] used[n]).2 == j;
    assert(used[n].1 == rdb.partitions@[j].high_cyl);
    assert(n >= k);
    assert(sort::no_later(used[k], used[n]));
}

/// No partition starts behind the cursor once every one has been passed.
proof fn lemma_nothing_after(rdb: Rdb, used: Seq<Extent>, cursor: int, c: int)
    requires
        forwards(rdb),
        is_used_list(rdb, used),
        forall|n: int| 0 <= n < used.len() ==> (#[trigger] used[n]).1 < cursor,
        cursor <= c,
    ensures
        !some_starts_after(rdb, c),
{
    if some_starts_after(rdb, c) {
        let i = choose|i: int| starts_after(rdb, i, c);
        let n = choose|n: int| 0 <= n < used.len() && (#[trigger] used[n]).2 == i;
        assert(used[n].1 == rdb.partitions@[i].high_cyl);
    }
}

/// The front of a free run is free.
proof fn lemma_shorter_run(rdb: Rdb, cyl: int, from: int, len: int, want: int)
    requires
        is_free_run(rdb, cyl, from, len),
        1 <= want <= len,
    ensures
        is_free_run(rdb, cyl, from, want),
{
    assert forall|i: int, c: int|
        0 <= i < rdb.partitions@.len() && from <= c < from + want implies !#[trigger] uses(
        rdb,
        i,
        c,
    ) by {}
    if from + want - 1 > last_cyl(rdb) {
        let end = from + len - 1;
        let i = choose|i: int| starts_after(rdb, i, end);
        assert(starts_after(rdb, i, from + want - 1));
    }
}

} // verus!
