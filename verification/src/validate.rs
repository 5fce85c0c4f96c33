//! Checking a layout for blocks with two owners.
use std::collections::BTreeMap;
use vstd::prelude::*;

use crate::arith::sat_add;
use crate::bytes::CHAIN_END;
use crate::media::{BlockSource, Medium};
use crate::model::{Partition, Rdb};
use crate::sort::{sort_extents, Extent};
use crate::text::{put, put_number};
use crate::walk::{walk_chain, RdbError};
use crate::{arith, de, id, parse, sort, text, walk};

verus! {

/// Which kind of RDB structure a [`ValidationIssue`] is about.
#[derive(Debug, Clone, Copy, PartialEq, Eq, Structural)]
pub enum BlockKind {
    /// A `PART` partition block.
    Part,
    /// A `FSHD` filesystem-header block.
    Fshd,
    /// A `LSEG` filesystem-driver payload block.
    Lseg,
    /// A `BADB` bad-block-list block.
    Badb,
}

impl BlockKind {
    /// The name [`name`](Self::name) gives.
    pub open spec fn label(self) -> Seq<char> {
        match self {
            BlockKind::Part => "PART"@,
            BlockKind::Fshd => "FSHD"@,
            BlockKind::Lseg => "LSEG"@,
            BlockKind::Badb => "BADB"@,
        }
    }

    /// The block ID as the format writes it.
    pub fn name(&self) -> (s: &'static str)
        ensures
            s@ == self.label(),
    {
        match self {
            BlockKind::Part => "PART",
            BlockKind::Fshd => "FSHD",
            BlockKind::Lseg => "LSEG",
            BlockKind::Badb => "BADB",
        }
    }
}

/// One way an RDB's *layout* is self-destructive, as reported by
/// [`Rdb::validate`]. Not an error: the image parses and reads back exactly
/// what is on it, but some of its blocks have two owners.
#[derive(Debug, Clone, PartialEq, Eq)]
pub enum ValidationIssue {
    /// `rdb_RDBBlocksLo` is above `rdb_RDBBlocksHi`. Reported once, and the
    /// checks that depend on the area are skipped.
    RdbAreaInvalid {
        /// `rdb_RDBBlocksLo` as it was read.
        lo: u32,
        /// `rdb_RDBBlocksHi` as it was read.
        hi: u32,
    },
    /// A chained block sits outside the reserved area.
    BlockOutsideRdbArea {
        /// Which chain the block belongs to.
        kind: BlockKind,
        /// Where it is.
        lba: u64,
        /// First block of the reserved area.
        lo: u64,
        /// Last block of that area, inclusive.
        hi: u64,
    },
    /// A partition's extent covers part of the RDB area.
    PartitionOverlapsRdbArea {
        /// Index into [`Rdb::partitions`].
        index: usize,
        /// The partition's `pb_DriveName`.
        name: String,
        /// First block of the partition's extent.
        start_lba: u64,
        /// Its length.
        block_len: u64,
        /// First block of the reserved area.
        lo: u64,
        /// Last block of that area, inclusive.
        hi: u64,
    },
    /// A partition's `de_HighCyl` is below its `de_LowCyl`.
    PartitionCylindersInverted {
        /// Index into [`Rdb::partitions`].
        index: usize,
        /// The partition's `pb_DriveName`.
        name: String,
        /// `de_LowCyl` as it was read.
        low_cyl: u32,
        /// `de_HighCyl` as it was read.
        high_cyl: u32,
    },
    /// Two partitions' extents intersect.
    PartitionsOverlap {
        /// Index of the first partition, always the lower of the two.
        a: usize,
        /// Index of the second.
        b: usize,
        /// `a`'s `pb_DriveName`.
        a_name: String,
        /// `b`'s `pb_DriveName`.
        b_name: String,
        /// First block both claim.
        start: u64,
        /// How many.
        len: u64,
    },
    /// A partition's `DosEnvec` is too short to reach `de_DosType`. One that
    /// stops short of `de_HighCyl` too has no extent, and meets no overlap check.
    EnvecTooShort {
        /// Index into [`Rdb::partitions`].
        index: usize,
        /// The partition's `pb_DriveName`.
        name: String,
        /// `de_TableSize` as the block declares it.
        table_size: u32,
    },
    /// Two filesystems' `LSEG` chains run through the same block. Reported
    /// once per filesystem that collides with an earlier one.
    SharedLsegChain {
        /// Index of the filesystem whose chain ran into a block an earlier
        /// chain already used.
        index: usize,
        /// Index of that earlier filesystem.
        other: usize,
        /// The first block the two chains share.
        lba: u64,
    },
}

/// A [`ValidationIssue`] as the contracts speak of it.
#[verifier::ext_equal]
pub enum Issue {
    RdbAreaInvalid { lo: u32, hi: u32 },
    BlockOutsideRdbArea { kind: BlockKind, lba: u64, lo: u64, hi: u64 },
    PartitionOverlapsRdbArea {
        index: int,
        name: Seq<char>,
        start_lba: u64,
        block_len: u64,
        lo: u64,
        hi: u64,
    },
    PartitionCylindersInverted { index: int, name: Seq<char>, low_cyl: u32, high_cyl: u32 },
    PartitionsOverlap {
        a: int,
        b: int,
        a_name: Seq<char>,
        b_name: Seq<char>,
        start: u64,
        len: u64,
    },
    EnvecTooShort { index: int, name: Seq<char>, table_size: u32 },
    SharedLsegChain { index: int, other: int, lba: u64 },
}

impl View for ValidationIssue {
    type V = Issue;

    open spec fn view(&self) -> Issue {
        match *self {
            ValidationIssue::RdbAreaInvalid { lo, hi } => Issue::RdbAreaInvalid { lo, hi },
            ValidationIssue::BlockOutsideRdbArea { kind, lba, lo, hi } => {
                Issue::BlockOutsideRdbArea { kind, lba, lo, hi }
            },
            ValidationIssue::PartitionOverlapsRdbArea {
                index,
                name,
                start_lba,
                block_len,
                lo,
                hi,
            } => Issue::PartitionOverlapsRdbArea {
                index: index as int,
                name: name@,
                start_lba,
                block_len,
                lo,
                hi,
            },
            ValidationIssue::PartitionCylindersInverted { index, name, low_cyl, high_cyl } => {
                Issue::PartitionCylindersInverted {
                    index: index as int,
                    name: name@,
                    low_cyl,
                    high_cyl,
                }
            },
            ValidationIssue::PartitionsOverlap { a, b, a_name, b_name, start, len } => {
                Issue::PartitionsOverlap {
                    a: a as int,
                    b: b as int,
                    a_name: a_name@,
                    b_name: b_name@,
                    start,
                    len,
                }
            },
            ValidationIssue::EnvecTooShort { index, name, table_size } => Issue::EnvecTooShort {
                index: index as int,
                name: name@,
                table_size,
            },
            ValidationIssue::SharedLsegChain { index, other, lba } => Issue::SharedLsegChain {
                index: index as int,
                other: other as int,
                lba,
            },
        }
    }
}

impl Issue {
    /// The line [`ValidationIssue::message`] gives.
    pub open spec fn line(self) -> Seq<char> {
        match self {
            Issue::RdbAreaInvalid { lo, hi } => "RDB area is empty or inverted: RDBBlocksLo "@
                + text::decimal(lo as int) + " is above RDBBlocksHi "@ + text::decimal(hi as int),
            Issue::BlockOutsideRdbArea { kind, lba, lo, hi } => kind.label() + " block at "@
                + text::decimal(lba as int) + " lies outside the RDB area "@ + text::decimal(
                lo as int,
            ) + "..="@ + text::decimal(hi as int),
            Issue::PartitionOverlapsRdbArea { index, name, start_lba, block_len, lo, hi } => {
                "partition "@ + text::decimal(index) + " ("@ + name + ") covers blocks "@
                    + text::decimal(start_lba as int) + ".."@ + text::decimal(
                    arith::saturated(start_lba + block_len) as int,
                ) + " and overlaps the RDB area "@ + text::decimal(lo as int) + "..="@
                    + text::decimal(hi as int)
            },
            Issue::PartitionCylindersInverted { index, name, low_cyl, high_cyl } => "partition "@
                + text::decimal(index) + " ("@ + name
                + ") has an inverted cylinder range: LowCyl "@ + text::decimal(low_cyl as int)
                + " is above HighCyl "@ + text::decimal(high_cyl as int),
            Issue::PartitionsOverlap { a, b, a_name, b_name, start, len } => "partitions "@
                + text::decimal(a) + " ("@ + a_name + ") and "@ + text::decimal(b) + " ("@ + b_name
                + ") both claim blocks "@ + text::decimal(start as int) + ".."@ + text::decimal(
                arith::saturated(start + len) as int,
            ),
            Issue::EnvecTooShort { index, name, table_size } => "partition "@ + text::decimal(index)
                + " ("@ + name + ") declares de_TableSize "@ + text::decimal(table_size as int)
                + ", short of the 16 needed to reach de_DosType"@,
            Issue::SharedLsegChain { index, other, lba } => "filesystems "@ + text::decimal(other)
                + " and "@ + text::decimal(index) + " share LSEG block "@ + text::decimal(
                lba as int,
            ),
        }
    }
}

impl ValidationIssue {
    /// A single line fit to show a user.
    pub fn message(&self) -> (s: String)
        ensures
            s@ == self@.line(),
    {
        let mut s: String = String::new();
        match self {
            ValidationIssue::RdbAreaInvalid { lo, hi } => {
                put(&mut s, "RDB area is empty or inverted: RDBBlocksLo ");
                put_number(&mut s, *lo as u64);
                put(&mut s, " is above RDBBlocksHi ");
                put_number(&mut s, *hi as u64);
            },
            ValidationIssue::BlockOutsideRdbArea { kind, lba, lo, hi } => {
                put(&mut s, kind.name());
                put(&mut s, " block at ");
                put_number(&mut s, *lba);
                put(&mut s, " lies outside the RDB area ");
                put_number(&mut s, *lo);
                put(&mut s, "..=");
                put_number(&mut s, *hi);
            },
            ValidationIssue::PartitionOverlapsRdbArea {
                index,
                name,
                start_lba,
                block_len,
                lo,
                hi,
            } => {
                put(&mut s, "partition ");
                put_number(&mut s, *index as u64);
                put(&mut s, " (");
                put(&mut s, name.as_str());
                put(&mut s, ") covers blocks ");
                put_number(&mut s, *start_lba);
                put(&mut s, "..");
                put_number(&mut s, sat_add(*start_lba, *block_len));
                put(&mut s, " and overlaps the RDB area ");
                put_number(&mut s, *lo);
                put(&mut s, "..=");
                put_number(&mut s, *hi);
            },
            ValidationIssue::PartitionCylindersInverted { index, name, low_cyl, high_cyl } => {
                put(&mut s, "partition ");
                put_number(&mut s, *index as u64);
                put(&mut s, " (");
                put(&mut s, name.as_str());
                put(&mut s, ") has an inverted cylinder range: LowCyl ");
                put_number(&mut s, *low_cyl as u64);
                put(&mut s, " is above HighCyl ");
                put_number(&mut s, *high_cyl as u64);
            },
            ValidationIssue::PartitionsOverlap { a, b, a_name, b_name, start, len } => {
                put(&mut s, "partitions ");
                put_number(&mut s, *a as u64);
                put(&mut s, " (");
                put(&mut s, a_name.as_str());
                put(&mut s, ") and ");
                put_number(&mut s, *b as u64);
                put(&mut s, " (");
                put(&mut s, b_name.as_str());
                put(&mut s, ") both claim blocks ");
                put_number(&mut s, *start);
                put(&mut s, "..");
                put_number(&mut s, sat_add(*start, *len));
            },
            ValidationIssue::EnvecTooShort { index, name, table_size } => {
                put(&mut s, "partition ");
                put_number(&mut s, *index as u64);
                put(&mut s, " (");
                put(&mut s, name.as_str());
                put(&mut s, ") declares de_TableSize ");
                put_number(&mut s, *table_size as u64);
                put(&mut s, ", short of the 16 needed to reach de_DosType");
            },
            ValidationIssue::SharedLsegChain { index, other, lba } => {
                put(&mut s, "filesystems ");
                put_number(&mut s, *other as u64);
                put(&mut s, " and ");
                put_number(&mut s, *index as u64);
                put(&mut s, " share LSEG block ");
                put_number(&mut s, *lba);
            },
        }
        assert(s@ =~= self@.line());
        s
    }
}

/// The issues that `f` gives for positions `0..n`, in order.
pub open spec fn collect(n: nat, f: spec_fn(int) -> Option<Issue>) -> Seq<Issue>
    decreases n,
{
    if n == 0 {
        Seq::empty()
    } else {
        match f(n - 1) {
            Some(issue) => collect((n - 1) as nat, f).push(issue),
            None => collect((n - 1) as nat, f),
        }
    }
}

/// The issues as the contracts speak of them.
pub open spec fn views(issues: Seq<ValidationIssue>) -> Seq<Issue> {
    issues.map_values(|i: ValidationIssue| i@)
}

/// Block `lba` of kind `kind` against the area `lo..=hi`.
pub open spec fn outside_issue(kind: BlockKind, lba: u64, lo: u64, hi: u64) -> Option<Issue> {
    if lba < lo || lba > hi {
        Some(Issue::BlockOutsideRdbArea { kind, lba, lo, hi })
    } else {
        None
    }
}

/// The blocks at `lbas` that lie outside the area.
pub open spec fn outside_issues(kind: BlockKind, lbas: Seq<u64>, lo: u64, hi: u64) -> Seq<Issue> {
    collect(lbas.len(), |i: int| outside_issue(kind, lbas[i], lo, hi))
}

/// One past the last block of a partition, saturating.
pub open spec fn end_of(p: Partition) -> u64 {
    arith::saturated(p.start_lba + p.block_len)
}

/// The extent covers part of the area `lo..=hi`.
pub open spec fn covers_area(p: Partition, lo: u64, hi: u64) -> bool {
    p.block_len != 0 && p.start_lba <= hi && end_of(p) > lo
}

/// Partition `i` against the area.
pub open spec fn area_issue(p: Partition, i: int, lo: u64, hi: u64) -> Option<Issue> {
    if covers_area(p, lo, hi) {
        Some(
            Issue::PartitionOverlapsRdbArea {
                index: i,
                name: p.name@,
                start_lba: p.start_lba,
                block_len: p.block_len,
                lo,
                hi,
            },
        )
    } else {
        None
    }
}

/// Everything that depends on the reserved area.
pub open spec fn area_issues(rdb: Rdb) -> Seq<Issue> {
    let lo = rdb.rdb_blocks_lo as u64;
    let hi = rdb.rdb_blocks_hi as u64;
    if lo > hi {
        seq![Issue::RdbAreaInvalid { lo: rdb.rdb_blocks_lo, hi: rdb.rdb_blocks_hi }]
    } else {
        outside_issues(BlockKind::Part, parse::part_lbas(rdb), lo, hi) + outside_issues(
            BlockKind::Fshd,
            parse::fshd_lbas(rdb),
            lo,
            hi,
        ) + outside_issues(BlockKind::Badb, rdb.badb_blocks@, lo, hi) + collect(
            rdb.partitions@.len(),
            |i: int| area_issue(rdb.partitions@[i], i, lo, hi),
        )
    }
}

/// Partition `i`'s cylinder range.
pub open spec fn inverted_issue(p: Partition, i: int) -> Option<Issue> {
    if p.high_cyl < p.low_cyl {
        Some(
            Issue::PartitionCylindersInverted {
                index: i,
                name: p.name@,
                low_cyl: p.low_cyl,
                high_cyl: p.high_cyl,
            },
        )
    } else {
        None
    }
}

/// Two partitions both claim a block.
pub open spec fn overlap(p: Partition, q: Partition) -> bool {
    p.start_lba < end_of(p) && q.start_lba < end_of(q) && p.start_lba < end_of(q) && q.start_lba
        < end_of(p)
}

/// Partitions `i` and `j` against each other, the lower index first.
pub open spec fn pair_issue(ps: Seq<Partition>, i: int, j: int) -> Option<Issue> {
    let (a, b) = if i <= j {
        (i, j)
    } else {
        (j, i)
    };
    let start = if ps[a].start_lba >= ps[b].start_lba {
        ps[a].start_lba
    } else {
        ps[b].start_lba
    };
    let end = if end_of(ps[a]) <= end_of(ps[b]) {
        end_of(ps[a])
    } else {
        end_of(ps[b])
    };
    if overlap(ps[i], ps[j]) {
        Some(
            Issue::PartitionsOverlap {
                a,
                b,
                a_name: ps[a].name@,
                b_name: ps[b].name@,
                start,
                len: (end - start) as u64,
            },
        )
    } else {
        None
    }
}

/// `order` lists every partition once, by start, then by end, then by index.
pub open spec fn is_start_order(ps: Seq<Partition>, order: Seq<usize>) -> bool {
    &&& order.len() == ps.len()
    &&& order.no_duplicates()
    &&& forall|k: int| 0 <= k < order.len() ==> (#[trigger] order[k]) < ps.len()
    &&& forall|i: int| 0 <= i < ps.len() ==> #[trigger] order.contains(i as usize)
    &&& forall|k: int, l: int|
        0 <= k <= l < order.len() ==> sort::no_later(
            extent_of(ps, #[trigger] order[k]),
            extent_of(ps, #[trigger] order[l]),
        )
}

/// Two orders by start begin alike.
proof fn lemma_orders_agree(ps: Seq<Partition>, a: Seq<usize>, b: Seq<usize>, k: int)
    requires
        is_start_order(ps, a),
        is_start_order(ps, b),
        0 <= k <= ps.len(),
        ps.len() <= usize::MAX,
    ensures
        forall|i: int| 0 <= i < k ==> #[trigger] a[i] == b[i],
    decreases k,
{
    if k > 0 {
        lemma_orders_agree(ps, a, b, k - 1);
        let (x, y) = (a[k - 1], b[k - 1]);
        assert(b.contains(x as int as usize));
        let j = choose|j: int| 0 <= j < b.len() && b[j] == x;
        if j < k - 1 {
            assert(a[j] == b[j]);
        }
        assert(a.contains(y as int as usize));
        let i = choose|i: int| 0 <= i < a.len() && a[i] == y;
        if i < k - 1 {
            assert(a[i] == b[i]);
        }
        assert(sort::no_later(extent_of(ps, a[k - 1]), extent_of(ps, a[i])));
        assert(sort::no_later(extent_of(ps, b[k - 1]), extent_of(ps, b[j])));
    }
}

/// There is one order by start, and so one list of issues that
/// [`validate`](Rdb::validate) reports, in one order.
pub proof fn law_issues_are_determined(rdb: Rdb, a: Seq<usize>, b: Seq<usize>)
    requires
        is_start_order(rdb.partitions@, a),
        is_start_order(rdb.partitions@, b),
        rdb.partitions@.len() <= usize::MAX,
    ensures
        a == b,
        issues_in(rdb, a) == issues_in(rdb, b),
{
    lemma_orders_agree(rdb.partitions@, a, b, a.len() as int);
    assert(a =~= b);
}

/// The extent of partition `i`.
pub open spec fn extent_of(ps: Seq<Partition>, i: usize) -> Extent {
    (ps[i as int].start_lba, end_of(ps[i as int]), i)
}

/// The overlaps of the partition at rank `r` with those after it.
pub open spec fn rank_issues(ps: Seq<Partition>, order: Seq<usize>, r: int) -> Seq<Issue> {
    collect(
        (order.len() - r - 1) as nat,
        |k: int| pair_issue(ps, order[r] as int, order[r + 1 + k] as int),
    )
}

/// The overlaps of the partitions at ranks below `r` with those after them.
pub open spec fn overlap_issues(ps: Seq<Partition>, order: Seq<usize>, r: nat) -> Seq<Issue>
    decreases r,
{
    if r == 0 {
        Seq::empty()
    } else {
        overlap_issues(ps, order, (r - 1) as nat) + rank_issues(ps, order, r - 1)
    }
}

/// `de_TableSize` as the raw envec holds it.
pub open spec fn table_size_of(p: Partition) -> u32 {
    if p.envec_raw@.len() > 0 {
        p.envec_raw@[0]
    } else {
        0
    }
}

/// Partition `i`'s envec against `de_DosType`.
pub open spec fn short_issue(p: Partition, i: int) -> Option<Issue> {
    if table_size_of(p) < de::DOS_TYPE {
        Some(Issue::EnvecTooShort { index: i, name: p.name@, table_size: table_size_of(p) })
    } else {
        None
    }
}

/// Every issue of the layout: those of the reserved area, the inverted
/// ranges, the overlaps in `order`, the short envecs.
pub open spec fn issues_in(rdb: Rdb, order: Seq<usize>) -> Seq<Issue> {
    let ps = rdb.partitions@;
    area_issues(rdb) + collect(ps.len(), |i: int| inverted_issue(ps[i], i)) + overlap_issues(
        ps,
        order,
        order.len(),
    ) + collect(ps.len(), |i: int| short_issue(ps[i], i))
}

/// The earliest of the first `n` chains that runs through `lba`.
pub open spec fn owner_of(chains: Seq<Seq<u64>>, n: nat, lba: u64) -> Option<int>
    decreases n,
{
    if n == 0 {
        None
    } else {
        match owner_of(chains, (n - 1) as nat, lba) {
            Some(g) => Some(g),
            None => if chains[n - 1].contains(lba) {
                Some(n - 1)
            } else {
                None
            },
        }
    }
}

/// The first of the first `k` blocks of chain `f` that an earlier chain runs
/// through, and that chain.
pub open spec fn first_shared(chains: Seq<Seq<u64>>, f: nat, k: nat) -> Option<(int, u64)>
    decreases k,
{
    if k == 0 {
        None
    } else {
        match first_shared(chains, f, (k - 1) as nat) {
            Some(s) => Some(s),
            None => match owner_of(chains, f, chains[f as int][k - 1]) {
                Some(g) => Some((g, chains[f as int][k - 1])),
                None => None,
            },
        }
    }
}

/// The issues of driver chain `f`: its blocks outside the area, then the first
/// block it shares with an earlier chain.
pub open spec fn driver_issues(chains: Seq<Seq<u64>>, f: nat, lo: u64, hi: u64) -> Seq<Issue> {
    outside_issues(BlockKind::Lseg, chains[f as int], lo, hi) + match first_shared(
        chains,
        f,
        chains[f as int].len(),
    ) {
        Some((other, lba)) => seq![Issue::SharedLsegChain { index: f as int, other, lba }],
        None => Seq::empty(),
    }
}

/// The issues of the first `n` driver chains.
pub open spec fn seg_list_issues(chains: Seq<Seq<u64>>, n: nat, lo: u64, hi: u64) -> Seq<Issue>
    decreases n,
{
    if n == 0 {
        Seq::empty()
    } else {
        seg_list_issues(chains, (n - 1) as nat, lo, hi) + driver_issues(
            chains,
            (n - 1) as nat,
            lo,
            hi,
        )
    }
}

/// `chains` are the driver chains of the first `chains.len()` filesystems.
pub open spec fn are_driver_chains(m: Medium, rdb: Rdb, chains: Seq<Seq<u64>>) -> bool {
    &&& chains.len() <= rdb.filesystems@.len()
    &&& forall|f: int|
        0 <= f < chains.len() ==> walk::is_chain(
            m,
            rdb.filesystems@[f].seg_list_blocks,
            id::LSEG,
            #[trigger] chains[f],
        )
}

/// What checking the driver chains of `rdb` on `disk` may give.
pub open spec fn seg_lists_outcome<S: BlockSource>(
    rdb: Rdb,
    disk: S,
    r: Result<Vec<ValidationIssue>, RdbError<S::Error>>,
) -> bool {
    let m = disk.medium();
    match r {
        Ok(issues) => {
            if rdb.rdb_blocks_lo > rdb.rdb_blocks_hi {
                issues@.len() == 0
            } else {
                &&& m.block_size == rdb.block_bytes
                &&& exists|chains: Seq<Seq<u64>>| #[trigger]
                    are_driver_chains(m, rdb, chains) && chains.len() == rdb.filesystems@.len()
                        && views(issues@) == seg_list_issues(
                        chains,
                        chains.len(),
                        rdb.rdb_blocks_lo as u64,
                        rdb.rdb_blocks_hi as u64,
                    )
            }
        },
        Err(RdbError::BlockBytesMismatch { block_bytes, block_size }) => {
            &&& rdb.rdb_blocks_lo <= rdb.rdb_blocks_hi
            &&& m.block_size != rdb.block_bytes
            &&& block_bytes == rdb.block_bytes
            &&& block_size == m.block_size
        },
        Err(e) => {
            &&& rdb.rdb_blocks_lo <= rdb.rdb_blocks_hi
            &&& m.block_size == rdb.block_bytes
            &&& exists|chains: Seq<Seq<u64>>| #[trigger]
                are_driver_chains(m, rdb, chains) && chains.len() < rdb.filesystems@.len()
                    && walk::chain_breaks(
                    disk,
                    rdb.filesystems@[chains.len() as int].seg_list_blocks,
                    id::LSEG,
                    e,
                )
        },
    }
}

/// Pushing an issue pushes its view.
proof fn lemma_views_push(issues: Seq<ValidationIssue>, issue: ValidationIssue)
    ensures
        views(issues.push(issue)) == views(issues).push(issue@),
{
    assert(views(issues.push(issue)) =~= views(issues).push(issue@));
}

/// An issue that is not there changes nothing.
proof fn lemma_collect_step(base: Seq<Issue>, n: nat, f: spec_fn(int) -> Option<Issue>)
    ensures
        base + collect(n + 1, f) == match f(n as int) {
            Some(issue) => (base + collect(n, f)).push(issue),
            None => base + collect(n, f),
        },
{
    if let Some(issue) = f(n as int) {
        assert(base + collect(n, f).push(issue) =~= (base + collect(n, f)).push(issue));
    }
}

/// Nothing is collected where nothing is wrong.
pub proof fn lemma_collect_none(n: nat, f: spec_fn(int) -> Option<Issue>)
    requires
        forall|i: int| 0 <= i < n ==> #[trigger] f(i) is None,
    ensures
        collect(n, f) == Seq::<Issue>::empty(),
    decreases n,
{
    if n > 0 {
        lemma_collect_none((n - 1) as nat, f);
    }
}

/// A tail of positions with nothing wrong collects nothing more.
proof fn lemma_collect_tail(n: nat, m: nat, f: spec_fn(int) -> Option<Issue>)
    requires
        n <= m,
        forall|i: int| n <= i < m ==> #[trigger] f(i) is None,
    ensures
        collect(m, f) == collect(n, f),
    decreases m,
{
    if m > n {
        lemma_collect_tail(n, (m - 1) as nat, f);
    }
}

/// Append the blocks at `lbas` that lie outside the area.
fn push_outside(
    issues: &mut Vec<ValidationIssue>,
    kind: BlockKind,
    lbas: &[u64],
    lo: u64,
    hi: u64,
)
    ensures
        views(final(issues)@) == views(old(issues)@) + outside_issues(kind, lbas@, lo, hi),
{
    let ghost f = |i: int| outside_issue(kind, lbas@[i], lo, hi);
    let ghost base = views(issues@);
    assert(base + collect(0, f) =~= base);
    let mut i: usize = 0;
    while i < lbas.len()
        invariant
            i <= lbas.len(),
            f == |i: int| outside_issue(kind, lbas@[i], lo, hi),
            views(issues@) == base + collect(i as nat, f),
        decreases lbas.len() - i,
    {
        let lba: u64 = lbas[i];
        let ghost before = issues@;
        proof {
            lemma_collect_step(base, i as nat, f);
        }
        if lba < lo || lba > hi {
            let issue = ValidationIssue::BlockOutsideRdbArea { kind, lba, lo, hi };
            proof {
                lemma_views_push(before, issue);
            }
            issues.push(issue);
        }
        i += 1;
    }
}

/// The partitions in the order of their starts.
fn start_order(ps: &Vec<Partition>) -> (order: Vec<usize>)
    ensures
        is_start_order(ps@, order@),
{
    let mut extents: Vec<Extent> = Vec::new();
    let mut i: usize = 0;
    while i < ps.len()
        invariant
            i <= ps.len(),
            extents@ =~= Seq::new(i as nat, |k: int| extent_of(ps@, k as usize)),
        decreases ps.len() - i,
    {
        extents.push((ps[i].start_lba, sat_add(ps[i].start_lba, ps[i].block_len), i));
        i += 1;
    }
    let ghost v = extents@;
    let sorted = sort_extents(extents);
    proof {
        sort::lemma_sorted_positions(v, sorted@);
    }
    let mut order: Vec<usize> = Vec::new();
    let mut k: usize = 0;
    while k < sorted.len()
        invariant
            k <= sorted.len(),
            order@ =~= Seq::new(k as nat, |j: int| sorted@[j].2),
        decreases sorted.len() - k,
    {
        order.push(sorted[k].2);
        k += 1;
    }
    proof {
        assert forall|i: int| 0 <= i < ps@.len() implies #[trigger] order@.contains(i as usize) by {
            assert(sorted@.contains(v[i]));
            let j = choose|j: int| 0 <= j < sorted@.len() && sorted@[j] == v[i];
            assert(order@[j] == i as usize);
        }
        assert forall|k: int, l: int| 0 <= k <= l < order@.len() implies sort::no_later(
            extent_of(ps@, #[trigger] order@[k]),
            extent_of(ps@, #[trigger] order@[l]),
        ) by {
            assert(sorted@[k] == v[sorted@[k].2 as int]);
            assert(sorted@[l] == v[sorted@[l].2 as int]);
            assert(sort::no_later(sorted@[k], sorted@[l]));
        }
    }
    order
}

/// Append the overlaps of the partition at rank `r` with those after it.
fn push_rank_overlaps(
    issues: &mut Vec<ValidationIssue>,
    ps: &Vec<Partition>,
    order: &Vec<usize>,
    r: usize,
)
    requires
        is_start_order(ps@, order@),
        r < order.len(),
    ensures
        views(final(issues)@) == views(old(issues)@) + rank_issues(ps@, order@, r as int),
{
    let i: usize = order[r];
    let ghost f = |k: int| pair_issue(ps@, order@[r as int] as int, order@[r + 1 + k] as int);
    let ghost base = views(issues@);
    let ghost total = (order@.len() - r - 1) as nat;
    assert(base + collect(0, f) =~= base);
    let i_start: u64 = ps[i].start_lba;
    let i_end: u64 = sat_add(ps[i].start_lba, ps[i].block_len);
    if i_start >= i_end {
        proof {
            lemma_collect_none(total, f);
            assert(base + collect(total, f) =~= base);
        }
        return;
    }
    let mut k: usize = r + 1;
    while k < order.len()
        invariant
            r + 1 <= k <= order.len(),
            is_start_order(ps@, order@),
            r < order.len(),
            base == views(old(issues)@),
            i == order@[r as int],
            i_start == ps@[i as int].start_lba,
            i_end == end_of(ps@[i as int]),
            i_start < i_end,
            total == order@.len() - r - 1,
            f == |k: int| pair_issue(ps@, order@[r as int] as int, order@[r + 1 + k] as int),
            views(issues@) == base + collect((k - r - 1) as nat, f),
        decreases order.len() - k,
    {
        let j: usize = order[k];
        let j_start: u64 = ps[j].start_lba;
        let j_end: u64 = sat_add(ps[j].start_lba, ps[j].block_len);
        let ghost n = (k - r - 1) as nat;
        assert(sort::no_later(extent_of(ps@, order@[r as int]), extent_of(ps@, order@[k as int])));
        if j_start >= i_end {
            proof {
                assert forall|l: int| n <= l < total implies #[trigger] f(l) is None by {
                    assert(sort::no_later(
                        extent_of(ps@, order@[k as int]),
                        extent_of(ps@, order@[r + 1 + l]),
                    ));
                }
                lemma_collect_tail(n, total, f);
            }
            return;
        }
        let ghost before = issues@;
        proof {
            lemma_collect_step(base, n, f);
        }
        if j_start < j_end {
            let a: usize = if i <= j {
                i
            } else {
                j
            };
            let b: usize = if i <= j {
                j
            } else {
                i
            };
            let end: u64 = if i_end <= j_end {
                i_end
            } else {
                j_end
            };
            let issue = ValidationIssue::PartitionsOverlap {
                a,
                b,
                a_name: ps[a].name.clone(),
                b_name: ps[b].name.clone(),
                start: j_start,
                len: end - j_start,
            };
            proof {
                lemma_views_push(before, issue);
                assert(f(n as int) == Some(issue@));
            }
            issues.push(issue);
        } else {
            assert(f(n as int) is None);
        }
        k += 1;
    }
}

impl Rdb {
    /// Check the *layout* for blocks with two owners.
    ///
    /// Reports, in a stable order: every chained block (`PART`, `FSHD`,
    /// `BADB`) outside the reserved area; every partition extent overlapping
    /// it; every inverted cylinder range; every pair of partitions whose
    /// extents intersect; every partition whose `de_TableSize` is too short to
    /// reach `de_DosType`. `LSEG` blocks are
    /// [`validate_seg_lists`](Self::validate_seg_lists)'s business.
    pub fn validate(&self) -> (issues: Vec<ValidationIssue>)
        ensures
            exists|order: Seq<usize>| #[trigger]
                is_start_order(self.partitions@, order) && views(issues@) == issues_in(*self, order),
    {
        let mut issues: Vec<ValidationIssue> = Vec::new();
        let ghost ps = self.partitions@;
        assert(views(issues@) =~= Seq::<Issue>::empty());
        if self.rdb_blocks_lo > self.rdb_blocks_hi {
            issues.push(
                ValidationIssue::RdbAreaInvalid { lo: self.rdb_blocks_lo, hi: self.rdb_blocks_hi },
            );
            assert(views(issues@) =~= area_issues(*self));
        } else {
            let lo: u64 = self.rdb_blocks_lo as u64;
            let hi: u64 = self.rdb_blocks_hi as u64;
            let mut lbas: Vec<u64> = Vec::new();
            let mut i: usize = 0;
            while i < self.partitions.len()
                invariant
                    i <= self.partitions.len(),
                    lbas@ =~= parse::part_lbas(*self).take(i as int),
                decreases self.partitions.len() - i,
            {
                lbas.push(self.partitions[i].part_block);
                i += 1;
            }
            assert(lbas@ =~= parse::part_lbas(*self));
            push_outside(&mut issues, BlockKind::Part, lbas.as_slice(), lo, hi);
            let mut lbas: Vec<u64> = Vec::new();
            let mut i: usize = 0;
            while i < self.filesystems.len()
                invariant
                    i <= self.filesystems.len(),
                    lbas@ =~= parse::fshd_lbas(*self).take(i as int),
                decreases self.filesystems.len() - i,
            {
                lbas.push(self.filesystems[i].fshd_block);
                i += 1;
            }
            assert(lbas@ =~= parse::fshd_lbas(*self));
            push_outside(&mut issues, BlockKind::Fshd, lbas.as_slice(), lo, hi);
            push_outside(&mut issues, BlockKind::Badb, self.badb_blocks.as_slice(), lo, hi);

            let ghost f = |i: int| area_issue(self.partitions@[i], i, lo, hi);
            let ghost base = views(issues@);
            assert(base + collect(0, f) =~= base);
            let mut i: usize = 0;
            while i < self.partitions.len()
                invariant
                    i <= self.partitions.len(),
                    f == |i: int| area_issue(self.partitions@[i], i, lo, hi),
                    views(issues@) == base + collect(i as nat, f),
                decreases self.partitions.len() - i,
            {
                let p = &self.partitions[i];
                let ghost before = issues@;
                proof {
                    lemma_collect_step(base, i as nat, f);
                }
                if p.block_len != 0 && p.start_lba <= hi && sat_add(p.start_lba, p.block_len) > lo {
                    let issue = ValidationIssue::PartitionOverlapsRdbArea {
                        index: i,
                        name: p.name.clone(),
                        start_lba: p.start_lba,
                        block_len: p.block_len,
                        lo,
                        hi,
                    };
                    proof {
                        lemma_views_push(before, issue);
                        assert(f(i as int) == Some(issue@));
                    }
                    issues.push(issue);
                }
                i += 1;
            }
            assert(views(issues@) =~= area_issues(*self));
        }

        let ghost f = |i: int| inverted_issue(ps[i], i);
        let ghost base = views(issues@);
        assert(base + collect(0, f) =~= base);
        let mut i: usize = 0;
        while i < self.partitions.len()
            invariant
                i <= self.partitions.len(),
                ps == self.partitions@,
                f == |i: int| inverted_issue(ps[i], i),
                views(issues@) == base + collect(i as nat, f),
            decreases self.partitions.len() - i,
        {
            let p = &self.partitions[i];
            let ghost before = issues@;
            proof {
                lemma_collect_step(base, i as nat, f);
            }
            if p.high_cyl < p.low_cyl {
                let issue = ValidationIssue::PartitionCylindersInverted {
                    index: i,
                    name: p.name.clone(),
                    low_cyl: p.low_cyl,
                    high_cyl: p.high_cyl,
                };
                proof {
                    lemma_views_push(before, issue);
                    assert(f(i as int) == Some(issue@));
                }
                issues.push(issue);
            }
            i += 1;
        }

        let order = start_order(&self.partitions);
        let ghost base = views(issues@);
        assert(base + overlap_issues(ps, order@, 0) =~= base);
        let mut r: usize = 0;
        while r < order.len()
            invariant
                r <= order.len(),
                ps == self.partitions@,
                is_start_order(ps, order@),
                views(issues@) == base + overlap_issues(ps, order@, r as nat),
            decreases order.len() - r,
        {
            push_rank_overlaps(&mut issues, &self.partitions, &order, r);
            assert(base + overlap_issues(ps, order@, r as nat) + rank_issues(ps, order@, r as int)
                =~= base + overlap_issues(ps, order@, (r + 1) as nat));
            r += 1;
        }

        let ghost f = |i: int| short_issue(ps[i], i);
        let ghost base = views(issues@);
        assert(base + collect(0, f) =~= base);
        let mut i: usize = 0;
        while i < self.partitions.len()
            invariant
                i <= self.partitions.len(),
                ps == self.partitions@,
                f == |i: int| short_issue(ps[i], i),
                views(issues@) == base + collect(i as nat, f),
            decreases self.partitions.len() - i,
        {
            let p = &self.partitions[i];
            let ghost before = issues@;
            proof {
                lemma_collect_step(base, i as nat, f);
            }
            let table_size: u32 = if p.envec_raw.len() > 0 {
                p.envec_raw[0]
            } else {
                0
            };
            if (table_size as usize) < de::DOS_TYPE {
                let issue = ValidationIssue::EnvecTooShort {
                    index: i,
                    name: p.name.clone(),
                    table_size,
                };
                proof {
                    lemma_views_push(before, issue);
                    assert(f(i as int) == Some(issue@));
                }
                issues.push(issue);
            }
            i += 1;
        }
        assert(views(issues@) =~= issues_in(*self, order@));
        issues
    }

    /// The `LSEG` half of [`validate`](Self::validate): walk every
    /// filesystem's driver chain and report blocks outside the RDB area, and
    /// chains that run through each other.
    ///
    /// A broken chain is an error, not a layout issue. When the RDB area
    /// itself is unusable this returns no issues, there being no range to
    /// compare against.
    pub fn validate_seg_lists<S: BlockSource>(&self, disk: &mut S) -> (r: Result<
        Vec<ValidationIssue>,
        RdbError<S::Error>,
    >)
        requires
            self.rdb_blocks_lo <= self.rdb_blocks_hi && old(disk).medium().block_size
                == self.block_bytes ==> self.block_bytes >= 20 || forall|i: int|
                0 <= i < self.filesystems@.len() ==> (
                #[trigger] self.filesystems@[i]).seg_list_blocks == CHAIN_END,
        ensures
            final(disk).medium() == old(disk).medium(),
            forall|l: u64, e: S::Error|
                #[trigger] final(disk).read_fails(l, e) == old(disk).read_fails(l, e),
            seg_lists_outcome(*self, *old(disk), r),
            self.rdb_blocks_lo > self.rdb_blocks_hi ==> *final(disk) == *old(disk),
    {
        if self.rdb_blocks_lo > self.rdb_blocks_hi {
            return Ok(Vec::new());
        }
        let block_size: usize = disk.block_size();
        if block_size != self.block_bytes as usize {
            return Err(
                RdbError::BlockBytesMismatch { block_bytes: self.block_bytes, block_size },
            );
        }
        let lo: u64 = self.rdb_blocks_lo as u64;
        let hi: u64 = self.rdb_blocks_hi as u64;
        let mut buf: Vec<u8> = vec![0u8; block_size];
        let mut issues: Vec<ValidationIssue> = Vec::new();
        let mut owner: BTreeMap<u64, usize> = BTreeMap::new();
        let ghost mut chains: Seq<Seq<u64>> = Seq::empty();
        let ghost m = disk.medium();
        assert(views(issues@) =~= Seq::<Issue>::empty());
        let mut index: usize = 0;
        while index < self.filesystems.len()
            invariant
                index <= self.filesystems.len(),
                chains.len() == index,
                m == old(disk).medium(),
                disk.medium() == m,
                m.block_size == self.block_bytes,
                self.rdb_blocks_lo <= self.rdb_blocks_hi,
                self.block_bytes >= 20 || forall|i: int|
                    0 <= i < self.filesystems@.len() ==> (
                    #[trigger] self.filesystems@[i]).seg_list_blocks == CHAIN_END,
                forall|l: u64, e: S::Error|
                    #[trigger] disk.read_fails(l, e) == old(disk).read_fails(l, e),
                buf@.len() == m.block_size,
                lo == self.rdb_blocks_lo,
                hi == self.rdb_blocks_hi,
                are_driver_chains(m, *self, chains),
                views(issues@) == seg_list_issues(chains, index as nat, lo, hi),
                forall|lba: u64| #[trigger]
                    owner@.contains_key(lba) <==> owner_of(chains, index as nat, lba) is Some,
                forall|lba: u64| #[trigger]
                    owner@.contains_key(lba) ==> owner_of(chains, index as nat, lba) == Some(
                        owner@[lba] as int,
                    ),
            decreases self.filesystems.len() - index,
        {
            let head: u32 = self.filesystems[index].seg_list_blocks;
            let lbas = match walk_chain(disk, head, id::LSEG, buf.as_mut_slice()) {
                Ok(lbas) => lbas,
                Err(e) => {
                    assert(walk::chain_breaks(*old(disk), head, id::LSEG, e)) by {
                        lemma_same_breaks(*disk, *old(disk), head, id::LSEG, e);
                    }
                    return Err(e);
                },
            };
            let ghost earlier = chains;
            proof {
                chains = chains.push(lbas@);
                lemma_prefix_chains(earlier, lbas@, index as nat, lo, hi);
                reveal(walk::is_walk);
            }
            push_outside(&mut issues, BlockKind::Lseg, lbas.as_slice(), lo, hi);
            let shared = claim_chain(&mut owner, &lbas, index, Ghost(chains));
            let ghost before = issues@;
            if let Some((other, lba)) = shared {
                let issue = ValidationIssue::SharedLsegChain { index, other, lba };
                proof {
                    lemma_views_push(before, issue);
                }
                issues.push(issue);
            }
            assert(views(issues@) =~= seg_list_issues(chains, (index + 1) as nat, lo, hi));
            index += 1;
        }
        assert(are_driver_chains(m, *self, chains));
        Ok(issues)
    }
}

/// Breaking off says nothing but what the medium and its failures say.
pub proof fn lemma_same_breaks<S: BlockSource>(
    a: S,
    b: S,
    head: u32,
    id: u32,
    e: RdbError<S::Error>,
)
    requires
        a.medium() == b.medium(),
        forall|l: u64, e: S::Error| #[trigger] a.read_fails(l, e) == b.read_fails(l, e),
        walk::chain_breaks(a, head, id, e),
    ensures
        walk::chain_breaks(b, head, id, e),
{
    let (lbas, tail) = choose|lbas: Seq<u64>, tail: u32| #[trigger]
        walk::is_walk(a.medium(), head, id, lbas, tail) && walk::stops_with(a, id, lbas, tail, e);
    assert(walk::is_walk(b.medium(), head, id, lbas, tail) && walk::stops_with(
        b,
        id,
        lbas,
        tail,
        e,
    ));
}

/// A further chain does not change what was said of those before it.
proof fn lemma_prefix_chains(chains: Seq<Seq<u64>>, more: Seq<u64>, n: nat, lo: u64, hi: u64)
    requires
        n <= chains.len(),
    ensures
        seg_list_issues(chains.push(more), n, lo, hi) == seg_list_issues(chains, n, lo, hi),
        forall|lba: u64|
            #[trigger] owner_of(chains.push(more), n, lba) == owner_of(chains, n, lba),
    decreases n,
{
    if n > 0 {
        let p = (n - 1) as nat;
        lemma_prefix_chains(chains, more, p, lo, hi);
        assert(chains.push(more)[p as int] == chains[p as int]);
        assert forall|lba: u64| #[trigger]
            owner_of(chains.push(more), n, lba) == owner_of(chains, n, lba) by {
            assert(owner_of(chains.push(more), p, lba) == owner_of(chains, p, lba));
        }
        assert forall|k: nat| k <= chains[p as int].len() implies #[trigger] first_shared(
            chains.push(more),
            p,
            k,
        ) == first_shared(chains, p, k) by {
            lemma_prefix_shared(chains, more, p, k);
        }
    }
}

/// A further chain does not change which block an earlier one shares.
proof fn lemma_prefix_shared(chains: Seq<Seq<u64>>, more: Seq<u64>, f: nat, k: nat)
    requires
        f < chains.len(),
        k <= chains[f as int].len(),
        forall|lba: u64|
            #[trigger] owner_of(chains.push(more), f, lba) == owner_of(chains, f, lba),
    ensures
        first_shared(chains.push(more), f, k) == first_shared(chains, f, k),
    decreases k,
{
    if k > 0 {
        lemma_prefix_shared(chains, more, f, (k - 1) as nat);
    }
}

/// Record chain `index` in `owner`, and give the first block of it that an
/// earlier chain runs through.
fn claim_chain(
    owner: &mut BTreeMap<u64, usize>,
    lbas: &Vec<u64>,
    index: usize,
    chains: Ghost<Seq<Seq<u64>>>,
) -> (shared: Option<(usize, u64)>)
    requires
        chains@.len() == index + 1,
        chains@[index as int] == lbas@,
        lbas@.no_duplicates(),
        forall|lba: u64| #[trigger]
            old(owner)@.contains_key(lba) <==> owner_of(chains@, index as nat, lba) is Some,
        forall|lba: u64| #[trigger]
            old(owner)@.contains_key(lba) ==> owner_of(chains@, index as nat, lba) == Some(
                old(owner)@[lba] as int,
            ),
    ensures
        forall|lba: u64| #[trigger]
            final(owner)@.contains_key(lba) <==> owner_of(
                chains@,
                (index + 1) as nat,
                lba,
            ) is Some,
        forall|lba: u64| #[trigger]
            final(owner)@.contains_key(lba) ==> owner_of(chains@, (index + 1) as nat, lba) == Some(
                final(owner)@[lba] as int,
            ),
        match shared {
            Some((other, lba)) => first_shared(chains@, index as nat, lbas@.len()) == Some(
                (other as int, lba),
            ),
            None => first_shared(chains@, index as nat, lbas@.len()) is None,
        },
{
    let mut shared: Option<(usize, u64)> = None;
    let ghost before = owner@;
    let mut k: usize = 0;
    while k < lbas.len()
        invariant
            k <= lbas.len(),
            chains@.len() == index + 1,
            chains@[index as int] == lbas@,
            lbas@.no_duplicates(),
            forall|lba: u64| #[trigger]
                before.contains_key(lba) <==> owner_of(chains@, index as nat, lba) is Some,
            forall|lba: u64| #[trigger]
                before.contains_key(lba) ==> owner_of(chains@, index as nat, lba) == Some(
                    before[lba] as int,
                ),
            forall|lba: u64| #[trigger]
                owner@.contains_key(lba) <==> before.contains_key(lba) || lbas@.take(
                    k as int,
                ).contains(lba),
            forall|lba: u64| #[trigger]
                owner@.contains_key(lba) ==> owner@[lba] == if before.contains_key(lba) {
                    before[lba]
                } else {
                    index
                },
            match shared {
                Some((other, lba)) => first_shared(chains@, index as nat, k as nat) == Some(
                    (other as int, lba),
                ),
                None => first_shared(chains@, index as nat, k as nat) is None,
            },
        decreases lbas.len() - k,
    {
        let lba: u64 = lbas[k];
        assert(!lbas@.take(k as int).contains(lba)) by {
            if lbas@.take(k as int).contains(lba) {
                let j = choose|j: int| 0 <= j < k && lbas@.take(k as int)[j] == lba;
                assert(lbas@[j] == lbas@[k as int]);
            }
        }
        assert(lbas@.take(k + 1) =~= lbas@.take(k as int).push(lba));
        assert forall|l: u64| #[trigger] lbas@.take(k + 1).contains(l) <==> lbas@.take(
            k as int,
        ).contains(l) || l == lba by {
            if l == lba {
                assert(lbas@.take(k + 1)[k as int] == l);
            }
            if lbas@.take(k as int).contains(l) {
                let j = choose|j: int| 0 <= j < k && lbas@.take(k as int)[j] == l;
                assert(lbas@.take(k + 1)[j] == l);
            }
        }
        let found: Option<usize> = match owner.get(&lba) {
            Some(other) => Some(*other),
            None => None,
        };
        match found {
            Some(other) => {
                if shared.is_none() {
                    shared = Some((other, lba));
                }
            },
            None => {
                owner.insert(lba, index);
            },
        }
        k += 1;
    }
    assert(lbas@.take(lbas@.len() as int) =~= lbas@);
    shared
}

} // verus!
