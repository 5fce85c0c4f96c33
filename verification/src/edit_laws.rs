//! What the checks on an extent, on the area and on a whole layout promise.
use vstd::prelude::*;

use crate::model::{Partition, Rdb};
use crate::validate::Issue;
use crate::{arith, de, extent, model, parse, validate};

verus! {

/// Block `b` belongs to the partition.
pub open spec fn owns(p: Partition, b: int) -> bool {
    p.block_len != 0 && p.start_lba <= b < validate::end_of(p)
}

/// The area is never shrunk, and every block it is grown by belongs to no
/// partition and is on the disk.
pub proof fn law_expansion_claims_free_blocks(
    rdb: Rdb,
    disk_blocks: Option<u64>,
    new_hi: u32,
    b: int,
)
    requires
        extent::expand_refusal(rdb, disk_blocks, new_hi) is None,
        rdb.rdb_blocks_hi < b <= new_hi,
    ensures
        forall|i: int|
            0 <= i < rdb.partitions@.len() ==> !owns(#[trigger] rdb.partitions@[i], b),
        extent::disk_limit(rdb, disk_blocks) matches Some(n) ==> b < n,
{
    assert forall|i: int| 0 <= i < rdb.partitions@.len() implies !owns(
        #[trigger] rdb.partitions@[i],
        b,
    ) by {
        lemma_claim_clear(rdb, new_hi, rdb.partitions@.len(), i);
    }
}

/// Where no partition is in the way of a claim, partition `i` is not.
proof fn lemma_claim_clear(rdb: Rdb, new_hi: u32, n: nat, i: int)
    requires
        extent::claim_blocked(rdb, new_hi, n) is None,
        0 <= i < n,
    ensures
        !validate::covers_area(
            rdb.partitions@[i],
            (rdb.rdb_blocks_hi + 1) as u64,
            new_hi as u64,
        ),
    decreases n,
{
    if i < n - 1 {
        lemma_claim_clear(rdb, new_hi, (n - 1) as nat, i);
    }
}

/// A request to shrink the area is refused.
pub proof fn law_area_never_shrinks(rdb: Rdb, disk_blocks: Option<u64>, new_hi: u32)
    ensures
        new_hi < rdb.rdb_blocks_hi ==> extent::expand_refusal(rdb, disk_blocks, new_hi) is Some,
{
}

/// An extent that is accepted lies on the disk and past the RDB area, and no
/// block of it belongs to another partition.
pub proof fn law_accepted_extent_is_free(
    rdb: Rdb,
    exclude: Option<usize>,
    low: u32,
    high: u32,
    cyl: int,
    p: Partition,
)
    requires
        extent::extent_refusal(rdb, exclude, low, high, cyl) is None,
        p.start_lba == arith::saturated(low * cyl),
        p.block_len == model::extent_len(low, high, cyl),
        rdb.partitions@.len() <= usize::MAX,
    ensures
        low <= high,
        validate::end_of(p) <= extent::geometry_blocks(rdb),
        p.start_lba > rdb.rdb_blocks_hi,
        p.start_lba >= extent::first_block(rdb),
        forall|i: int|
            0 <= i < rdb.partitions@.len() && exclude != Some(i as usize) ==> !validate::overlap(
                p,
                #[trigger] rdb.partitions@[i],
            ),
        forall|i: int, b: int|
            0 <= i < rdb.partitions@.len() && exclude != Some(i as usize) && owns(p, b)
                ==> !#[trigger] owns(rdb.partitions@[i], b),
{
    assert forall|i: int|
        0 <= i < rdb.partitions@.len() && exclude != Some(i as usize) implies !validate::overlap(
        p,
        #[trigger] rdb.partitions@[i],
    ) by {
        lemma_overlap_clear(rdb, exclude, p.start_lba, p.block_len, rdb.partitions@.len(), i);
    }
    assert forall|i: int, b: int|
        0 <= i < rdb.partitions@.len() && exclude != Some(i as usize) && owns(
            p,
            b,
        ) implies !#[trigger] owns(rdb.partitions@[i], b) by {
        assert(!validate::overlap(p, rdb.partitions@[i]));
    }
}

/// Where the blocks meet no partition, they do not meet partition `i`.
proof fn lemma_overlap_clear(
    rdb: Rdb,
    exclude: Option<usize>,
    start: u64,
    len: u64,
    n: nat,
    i: int,
)
    requires
        extent::overlap_refusal(rdb, exclude, start, len, n) is None,
        0 <= i < n <= usize::MAX,
        exclude != Some(i as usize),
    ensures
        extent::overlap_with(rdb, start, len, i) is None,
    decreases n,
{
    if i < n - 1 {
        lemma_overlap_clear(rdb, exclude, start, len, (n - 1) as nat, i);
    }
}

/// A disk that is given another number of cylinders still holds every partition
/// and the RDB area.
pub proof fn law_accepted_cylinders_hold_everything(
    rdb: Rdb,
    disk_blocks: Option<u64>,
    cylinders: u32,
)
    requires
        extent::cylinders_refusal(rdb, disk_blocks, cylinders) is None,
    ensures
        ({
            let total = arith::saturated(cylinders * extent::drive_cyl(rdb));
            &&& forall|i: int|
                0 <= i < rdb.partitions@.len() && (#[trigger] rdb.partitions@[i]).block_len != 0
                    ==> validate::end_of(rdb.partitions@[i]) <= total
            &&& rdb.rdb_blocks_hi < total
            &&& disk_blocks matches Some(n) ==> total <= n
        }),
{
    let total = arith::saturated(cylinders * extent::drive_cyl(rdb));
    assert forall|i: int|
        0 <= i < rdb.partitions@.len() && (
        #[trigger] rdb.partitions@[i]).block_len != 0 implies validate::end_of(rdb.partitions@[i])
        <= total by {
        lemma_none_ends_past(rdb, cylinders, total, rdb.partitions@.len(), i);
    }
}

/// Where no partition ends past the disk, partition `i` does not.
proof fn lemma_none_ends_past(rdb: Rdb, cylinders: u32, total: u64, n: nat, i: int)
    requires
        extent::ends_past(rdb, cylinders, total, n) is None,
        0 <= i < n,
    ensures
        rdb.partitions@[i].block_len != 0 ==> validate::end_of(rdb.partitions@[i]) <= total,
    decreases n,
{
    if i < n - 1 {
        lemma_none_ends_past(rdb, cylinders, total, (n - 1) as nat, i);
    }
}

/// A first cylinder that is accepted swallows no partition.
pub proof fn law_accepted_lo_cylinder_swallows_nothing(rdb: Rdb, lo_cylinder: u32, n: nat, i: int)
    requires
        extent::lo_cylinder_refusal(rdb, lo_cylinder, n) is None,
        0 <= i < n,
    ensures
        rdb.partitions@[i].block_len != 0 ==> lo_cylinder <= rdb.partitions@[i].low_cyl,
    decreases n,
{
    if i < n - 1 {
        law_accepted_lo_cylinder_swallows_nothing(rdb, lo_cylinder, (n - 1) as nat, i);
    }
}

/// What is wrong at a position is collected.
proof fn lemma_collected(n: nat, f: spec_fn(int) -> Option<Issue>, i: int)
    requires
        0 <= i < n,
        f(i) is Some,
    ensures
        validate::collect(n, f).contains(f(i)->Some_0),
    decreases n,
{
    let all = validate::collect(n, f);
    let issue = f(i)->Some_0;
    if i == n - 1 {
        assert(all.last() == issue);
    } else {
        lemma_collected((n - 1) as nat, f, i);
        let head = validate::collect((n - 1) as nat, f);
        let k = choose|k: int| 0 <= k < head.len() && head[k] == issue;
        assert(all[k] == issue);
    }
}

/// Every two partitions that claim a block between them are reported, the lower
/// index first.
pub proof fn law_every_overlap_is_reported(rdb: Rdb, order: Seq<usize>, i: int, j: int)
    requires
        validate::is_start_order(rdb.partitions@, order),
        0 <= i < j < rdb.partitions@.len(),
        rdb.partitions@.len() <= usize::MAX,
        validate::overlap(rdb.partitions@[i], rdb.partitions@[j]),
    ensures
        validate::issues_in(rdb, order).contains(
            validate::pair_issue(rdb.partitions@, i, j)->Some_0,
        ),
{
    let ps = rdb.partitions@;
    let issue = validate::pair_issue(ps, i, j)->Some_0;
    assert(order.contains(i as usize));
    assert(order.contains(j as usize));
    let a = choose|a: int| 0 <= a < order.len() && order[a] == i as usize;
    let b = choose|b: int| 0 <= b < order.len() && order[b] == j as usize;
    assert(validate::pair_issue(ps, j, i) == validate::pair_issue(ps, i, j));
    let (r, s) = if a < b {
        (a, b)
    } else {
        (b, a)
    };
    let f = |k: int| validate::pair_issue(ps, order[r] as int, order[r + 1 + k] as int);
    assert(f(s - r - 1) == Some(issue));
    lemma_collected((order.len() - r - 1) as nat, f, s - r - 1);
    lemma_rank_in_all(ps, order, order.len(), r, issue);
    let middle = validate::overlap_issues(ps, order, order.len());
    let k = choose|k: int| 0 <= k < middle.len() && middle[k] == issue;
    let before = (validate::area_issues(rdb) + validate::collect(
        ps.len(),
        |i: int| validate::inverted_issue(ps[i], i),
    )).len();
    assert(validate::issues_in(rdb, order)[before + k] == issue);
}

/// What is reported at a rank is reported.
proof fn lemma_rank_in_all(ps: Seq<Partition>, order: Seq<usize>, n: nat, r: int, issue: Issue)
    requires
        0 <= r < n <= order.len(),
        validate::rank_issues(ps, order, r).contains(issue),
    ensures
        validate::overlap_issues(ps, order, n).contains(issue),
    decreases n,
{
    let all = validate::overlap_issues(ps, order, n);
    let head = validate::overlap_issues(ps, order, (n - 1) as nat);
    if r == n - 1 {
        let last = validate::rank_issues(ps, order, r);
        let k = choose|k: int| 0 <= k < last.len() && last[k] == issue;
        assert(all[head.len() + k] == issue);
    } else {
        lemma_rank_in_all(ps, order, (n - 1) as nat, r, issue);
        let k = choose|k: int| 0 <= k < head.len() && head[k] == issue;
        assert(all[k] == issue);
    }
}

/// A layout with nothing to report has no block with two owners: its blocks lie
/// in its area, its partitions outside it and apart from each other, and every
/// partition says where it is.
pub proof fn law_nothing_to_report_means_sound(rdb: Rdb, order: Seq<usize>)
    requires
        validate::is_start_order(rdb.partitions@, order),
        validate::issues_in(rdb, order).len() == 0,
        rdb.partitions@.len() <= usize::MAX,
    ensures
        rdb.rdb_blocks_lo <= rdb.rdb_blocks_hi,
        forall|i: int|
            0 <= i < rdb.partitions@.len() ==> {
                let p = #[trigger] rdb.partitions@[i];
                &&& rdb.rdb_blocks_lo <= p.part_block <= rdb.rdb_blocks_hi
                &&& !validate::covers_area(p, rdb.rdb_blocks_lo as u64, rdb.rdb_blocks_hi as u64)
                &&& p.low_cyl <= p.high_cyl
                &&& validate::table_size_of(p) >= de::DOS_TYPE
            },
        forall|i: int, j: int|
            0 <= i < rdb.partitions@.len() && 0 <= j < rdb.partitions@.len() && i != j
                ==> !validate::overlap(#[trigger] rdb.partitions@[i], #[trigger] rdb.partitions@[j]),
        forall|f: int|
            0 <= f < rdb.filesystems@.len() ==> rdb.rdb_blocks_lo <= (
            #[trigger] rdb.filesystems@[f]).fshd_block <= rdb.rdb_blocks_hi,
        forall|k: int|
            0 <= k < rdb.badb_blocks@.len() ==> rdb.rdb_blocks_lo
                <= #[trigger] rdb.badb_blocks@[k] <= rdb.rdb_blocks_hi,
{
    let ps = rdb.partitions@;
    let lo = rdb.rdb_blocks_lo as u64;
    let hi = rdb.rdb_blocks_hi as u64;
    let parts = parse::part_lbas(rdb);
    let fshds = parse::fshd_lbas(rdb);
    let badbs = rdb.badb_blocks@;
    let covering = |k: int| validate::area_issue(ps[k], k, lo, hi);
    let inverted = |k: int| validate::inverted_issue(ps[k], k);
    let short = |k: int| validate::short_issue(ps[k], k);
    assert forall|i: int| 0 <= i < ps.len() implies {
        let p = #[trigger] ps[i];
        &&& lo <= p.part_block <= hi
        &&& !validate::covers_area(p, lo, hi)
        &&& p.low_cyl <= p.high_cyl
        &&& validate::table_size_of(p) >= de::DOS_TYPE
    } by {
        lemma_inside(validate::BlockKind::Part, parts, lo, hi, i);
        if covering(i) is Some {
            lemma_collected(ps.len(), covering, i);
        }
        if inverted(i) is Some {
            lemma_collected(ps.len(), inverted, i);
        }
        if short(i) is Some {
            lemma_collected(ps.len(), short, i);
        }
    }
    assert forall|i: int, j: int|
        0 <= i < ps.len() && 0 <= j < ps.len() && i != j implies !validate::overlap(
        #[trigger] ps[i],
        #[trigger] ps[j],
    ) by {
        if validate::overlap(ps[i], ps[j]) {
            if i < j {
                law_every_overlap_is_reported(rdb, order, i, j);
            } else {
                law_every_overlap_is_reported(rdb, order, j, i);
            }
        }
    }
    assert forall|f: int| 0 <= f < rdb.filesystems@.len() implies lo <= (
    #[trigger] rdb.filesystems@[f]).fshd_block <= hi by {
        lemma_inside(validate::BlockKind::Fshd, fshds, lo, hi, f);
    }
    assert forall|k: int| 0 <= k < badbs.len() implies lo <= #[trigger] badbs[k] <= hi by {
        lemma_inside(validate::BlockKind::Badb, badbs, lo, hi, k);
    }
}

/// A block outside the area is reported.
proof fn lemma_inside(kind: validate::BlockKind, lbas: Seq<u64>, lo: u64, hi: u64, i: int)
    requires
        0 <= i < lbas.len(),
    ensures
        validate::outside_issues(kind, lbas, lo, hi).len() == 0 ==> lo <= lbas[i] <= hi,
{
    let outside = |k: int| validate::outside_issue(kind, lbas[k], lo, hi);
    if outside(i) is Some {
        lemma_collected(lbas.len(), outside, i);
    }
}

} // verus!
