//! What the checks of a layout report: everything that is wrong, and nothing
//! else.
use vstd::prelude::*;

use crate::media::BlockSource;
use crate::model::{Partition, Rdb};
use crate::validate::{BlockKind, Issue, ValidationIssue};
use crate::walk::RdbError;
use crate::{id, parse, sort, validate, walk};

verus! {

/// The block after the last of a partition, as far as 64 bits go.
pub open spec fn end_block(p: Partition) -> int {
    if p.start_lba + p.block_len > 0xFFFF_FFFF_FFFF_FFFF {
        0xFFFF_FFFF_FFFF_FFFF
    } else {
        p.start_lba + p.block_len
    }
}

/// The block is one of the partition's.
pub open spec fn is_in(p: Partition, b: int) -> bool {
    p.start_lba <= b < end_block(p)
}

/// The chain pointer of a structure of this kind leads to `lba`.
pub open spec fn stands_on(rdb: Rdb, kind: BlockKind, lba: u64) -> bool {
    match kind {
        BlockKind::Part => exists|i: int|
            0 <= i < rdb.partitions@.len() && (#[trigger] rdb.partitions@[i]).part_block == lba,
        BlockKind::Fshd => exists|i: int|
            0 <= i < rdb.filesystems@.len() && (#[trigger] rdb.filesystems@[i]).fshd_block == lba,
        BlockKind::Badb => exists|i: int|
            0 <= i < rdb.badb_blocks@.len() && #[trigger] rdb.badb_blocks@[i] == lba,
        BlockKind::Lseg => false,
    }
}

/// What the issue says is so.
pub open spec fn is_so(rdb: Rdb, issue: Issue) -> bool {
    let ps = rdb.partitions@;
    let first = rdb.rdb_blocks_lo;
    let last = rdb.rdb_blocks_hi;
    match issue {
        Issue::RdbAreaInvalid { lo, hi } => lo == first && hi == last && first > last,
        Issue::BlockOutsideRdbArea { kind, lba, lo, hi } => {
            &&& lo == first <= hi == last
            &&& lba < first || lba > last
            &&& stands_on(rdb, kind, lba)
        },
        Issue::PartitionOverlapsRdbArea { index, name, start_lba, block_len, lo, hi } => {
            &&& lo == first <= hi == last
            &&& 0 <= index < ps.len()
            &&& name == ps[index].name@
            &&& start_lba == ps[index].start_lba
            &&& block_len == ps[index].block_len
            &&& exists|b: int| first <= b <= last && #[trigger] is_in(ps[index], b)
        },
        Issue::PartitionCylindersInverted { index, name, low_cyl, high_cyl } => {
            &&& 0 <= index < ps.len()
            &&& name == ps[index].name@
            &&& low_cyl == ps[index].low_cyl
            &&& high_cyl == ps[index].high_cyl
            &&& high_cyl < low_cyl
        },
        Issue::PartitionsOverlap { a, b, a_name, b_name, start, len } => {
            &&& 0 <= a < b < ps.len()
            &&& a_name == ps[a].name@
            &&& b_name == ps[b].name@
            &&& len > 0
            &&& forall|x: int|
                #![trigger is_in(ps[a], x)]
                start <= x < start + len <==> is_in(ps[a], x) && is_in(ps[b], x)
        },
        Issue::EnvecTooShort { index, name, table_size } => {
            &&& 0 <= index < ps.len()
            &&& name == ps[index].name@
            &&& table_size == if ps[index].envec_raw@.len() == 0 {
                0
            } else {
                ps[index].envec_raw@[0]
            }
            &&& table_size < 16
        },
        Issue::SharedLsegChain { .. } => false,
    }
}

/// What is collected is what is found at the positions.
proof fn lemma_collect_contains(n: nat, f: spec_fn(int) -> Option<Issue>, issue: Issue)
    ensures
        validate::collect(n, f).contains(issue) <==> exists|i: int|
            0 <= i < n && #[trigger] f(i) == Some(issue),
    decreases n,
{
    let all = validate::collect(n, f);
    if n > 0 {
        let head = validate::collect((n - 1) as nat, f);
        lemma_collect_contains((n - 1) as nat, f, issue);
        if all.contains(issue) {
            let k = choose|k: int| 0 <= k < all.len() && all[k] == issue;
            if k < head.len() {
                assert(head[k] == issue);
                let i = choose|i: int| 0 <= i < n - 1 && #[trigger] f(i) == Some(issue);
                assert(f(i) == Some(issue));
            } else {
                assert(f(n - 1) == Some(issue));
            }
        }
        if exists|i: int| 0 <= i < n && #[trigger] f(i) == Some(issue) {
            let i = choose|i: int| 0 <= i < n && #[trigger] f(i) == Some(issue);
            if i == n - 1 {
                assert(all.last() == issue);
            } else {
                assert(head.contains(issue));
                let k = choose|k: int| 0 <= k < head.len() && head[k] == issue;
                assert(all[k] == issue);
            }
        }
    }
}

/// What two lists hold between them.
proof fn lemma_add_contains(a: Seq<Issue>, b: Seq<Issue>, issue: Issue)
    ensures
        (a + b).contains(issue) <==> a.contains(issue) || b.contains(issue),
{
    if a.contains(issue) {
        let k = choose|k: int| 0 <= k < a.len() && a[k] == issue;
        assert((a + b)[k] == issue);
    }
    if b.contains(issue) {
        let k = choose|k: int| 0 <= k < b.len() && b[k] == issue;
        assert((a + b)[a.len() + k] == issue);
    }
    if (a + b).contains(issue) {
        let k = choose|k: int| 0 <= k < (a + b).len() && (a + b)[k] == issue;
        if k < a.len() {
            assert(a[k] == issue);
        } else {
            assert(b[k - a.len()] == issue);
        }
    }
}

/// The blocks of a list that are reported are those outside the area.
proof fn lemma_outside_contains(kind: BlockKind, lbas: Seq<u64>, lo: u64, hi: u64, issue: Issue)
    ensures
        validate::outside_issues(kind, lbas, lo, hi).contains(issue) <==> exists|i: int|
            0 <= i < lbas.len() && (lbas[i] < lo || lbas[i] > hi) && issue
                == (Issue::BlockOutsideRdbArea { kind, lba: #[trigger] lbas[i], lo, hi }),
{
    let f = |i: int| validate::outside_issue(kind, lbas[i], lo, hi);
    lemma_collect_contains(lbas.len(), f, issue);
    if exists|i: int| 0 <= i < lbas.len() && #[trigger] f(i) == Some(issue) {
        let i = choose|i: int| 0 <= i < lbas.len() && #[trigger] f(i) == Some(issue);
        assert(issue == (Issue::BlockOutsideRdbArea { kind, lba: lbas[i], lo, hi }));
    }
    if exists|i: int|
        0 <= i < lbas.len() && (lbas[i] < lo || lbas[i] > hi) && issue
            == (Issue::BlockOutsideRdbArea { kind, lba: #[trigger] lbas[i], lo, hi }) {
        let i = choose|i: int|
            0 <= i < lbas.len() && (lbas[i] < lo || lbas[i] > hi) && issue
                == (Issue::BlockOutsideRdbArea { kind, lba: #[trigger] lbas[i], lo, hi });
        assert(f(i) == Some(issue));
    }
}

/// `lba` is the first block of chain `f` that an earlier chain runs through, and
/// `other` the earliest that does.
pub open spec fn is_first_shared(chains: Seq<Seq<u64>>, f: int, other: int, lba: u64) -> bool {
    &&& 0 <= other < f
    &&& chains[other].contains(lba)
    &&& forall|g: int| 0 <= g < other ==> !(#[trigger] chains[g]).contains(lba)
    &&& exists|k: int|
        {
            &&& 0 <= k < chains[f].len()
            &&& #[trigger] chains[f][k] == lba
            &&& forall|j: int, g: int|
                #![trigger chains[g].contains(chains[f][j])]
                0 <= j < k && 0 <= g < f ==> !chains[g].contains(chains[f][j])
        }
}

/// What the issue says of chain `f` is so.
pub open spec fn is_so_of_chain(
    chains: Seq<Seq<u64>>,
    f: int,
    lo: u64,
    hi: u64,
    issue: Issue,
) -> bool {
    match issue {
        Issue::BlockOutsideRdbArea { kind, lba, lo: first, hi: last } => {
            &&& kind == BlockKind::Lseg
            &&& first == lo
            &&& last == hi
            &&& chains[f].contains(lba)
            &&& lba < lo || lba > hi
        },
        Issue::SharedLsegChain { index, other, lba } => index == f && is_first_shared(
            chains,
            f,
            other,
            lba,
        ),
        _ => false,
    }
}

/// The earliest of the chains that run through a block.
proof fn lemma_owner(chains: Seq<Seq<u64>>, n: nat, lba: u64)
    ensures
        match validate::owner_of(chains, n, lba) {
            Some(g) => {
                &&& 0 <= g < n
                &&& chains[g].contains(lba)
                &&& forall|h: int| 0 <= h < g ==> !(#[trigger] chains[h]).contains(lba)
            },
            None => forall|h: int| 0 <= h < n ==> !(#[trigger] chains[h]).contains(lba),
        },
    decreases n,
{
    if n > 0 {
        lemma_owner(chains, (n - 1) as nat, lba);
    }
}

/// The first block of a chain that an earlier one runs through.
proof fn lemma_first_shared(chains: Seq<Seq<u64>>, f: nat, k: nat)
    requires
        k <= chains[f as int].len(),
    ensures
        match validate::first_shared(chains, f, k) {
            Some((other, lba)) => is_first_shared(chains, f as int, other, lba),
            None => forall|j: int, g: int|
                #![trigger chains[g].contains(chains[f as int][j])]
                0 <= j < k && 0 <= g < f ==> !chains[g].contains(chains[f as int][j]),
        },
    decreases k,
{
    if k > 0 {
        lemma_first_shared(chains, f, (k - 1) as nat);
        let lba = chains[f as int][k - 1];
        lemma_owner(chains, f, lba);
    }
}

/// There is one first block that a chain shares.
proof fn lemma_first_shared_unique(
    chains: Seq<Seq<u64>>,
    f: int,
    a: int,
    lba: u64,
    b: int,
    mba: u64,
)
    requires
        is_first_shared(chains, f, a, lba),
        is_first_shared(chains, f, b, mba),
    ensures
        a == b,
        lba == mba,
{
    let j = choose|k: int|
        {
            &&& 0 <= k < chains[f].len()
            &&& #[trigger] chains[f][k] == lba
            &&& forall|j: int, g: int|
                #![trigger chains[g].contains(chains[f][j])]
                0 <= j < k && 0 <= g < f ==> !chains[g].contains(chains[f][j])
        };
    let k = choose|k: int|
        {
            &&& 0 <= k < chains[f].len()
            &&& #[trigger] chains[f][k] == mba
            &&& forall|j: int, g: int|
                #![trigger chains[g].contains(chains[f][j])]
                0 <= j < k && 0 <= g < f ==> !chains[g].contains(chains[f][j])
        };
    assert(chains[a].contains(chains[f][j]));
    assert(chains[b].contains(chains[f][k]));
    assert(j == k);
    if a < b {
        assert(!chains[a].contains(mba));
    }
    if b < a {
        assert(!chains[b].contains(lba));
    }
}

/// The issues of one driver chain.
proof fn lemma_driver_contains(chains: Seq<Seq<u64>>, f: nat, lo: u64, hi: u64, issue: Issue)
    ensures
        validate::driver_issues(chains, f, lo, hi).contains(issue) <==> is_so_of_chain(
            chains,
            f as int,
            lo,
            hi,
            issue,
        ),
{
    let lbas = chains[f as int];
    let outside = validate::outside_issues(BlockKind::Lseg, lbas, lo, hi);
    let shared = match validate::first_shared(chains, f, lbas.len()) {
        Some((other, lba)) => seq![Issue::SharedLsegChain { index: f as int, other, lba }],
        None => Seq::<Issue>::empty(),
    };
    lemma_add_contains(outside, shared, issue);
    lemma_outside_contains(BlockKind::Lseg, lbas, lo, hi, issue);
    lemma_first_shared(chains, f, lbas.len());
    if let Issue::SharedLsegChain { index, other, lba } = issue {
        if index == f && is_first_shared(chains, f as int, other, lba) {
            match validate::first_shared(chains, f, lbas.len()) {
                Some((o, l)) => {
                    lemma_first_shared_unique(chains, f as int, other, lba, o, l);
                    assert(shared[0] == issue);
                },
                None => {
                    let k = choose|k: int| 0 <= k < lbas.len() && #[trigger] lbas[k] == lba;
                    assert(!chains[other].contains(chains[f as int][k]));
                },
            }
        }
        if shared.contains(issue) {
            assert(shared[0] == issue);
        }
    } else {
        if shared.contains(issue) {
            assert(shared[0] == issue);
        }
    }
}

/// Of the driver chains, exactly this is reported: every block of every chain
/// that lies outside the area, whichever filesystem it belongs to, and for every
/// chain that runs into an earlier one the first block they share.
pub proof fn law_driver_issues_are_what_is_wrong(
    chains: Seq<Seq<u64>>,
    n: nat,
    lo: u64,
    hi: u64,
    issue: Issue,
)
    ensures
        validate::seg_list_issues(chains, n, lo, hi).contains(issue) <==> exists|f: int|
            0 <= f < n && #[trigger] is_so_of_chain(chains, f, lo, hi, issue),
    decreases n,
{
    if n > 0 {
        let m = (n - 1) as nat;
        law_driver_issues_are_what_is_wrong(chains, m, lo, hi, issue);
        lemma_driver_contains(chains, m, lo, hi, issue);
        lemma_add_contains(
            validate::seg_list_issues(chains, m, lo, hi),
            validate::driver_issues(chains, m, lo, hi),
            issue,
        );
        if exists|f: int| 0 <= f < n && #[trigger] is_so_of_chain(chains, f, lo, hi, issue) {
            let f = choose|f: int|
                0 <= f < n && #[trigger] is_so_of_chain(chains, f, lo, hi, issue);
            assert(f < m || f == m);
        }
        if is_so_of_chain(chains, m as int, lo, hi, issue) {
            assert(exists|f: int|
                0 <= f < n && #[trigger] is_so_of_chain(chains, f, lo, hi, issue));
        }
    }
}

/// A check of the driver chains that gives an answer reports every block of
/// every driver that lies outside the area and every chain that runs into an
/// earlier one, and nothing else. Where it reports nothing, all blocks of all
/// drivers lie inside the area and no two drivers share one. An inverted area is
/// for [`validate`](Rdb::validate) to report, and nothing is said of it here.
pub proof fn law_driver_check_is_complete<S: BlockSource>(
    rdb: Rdb,
    disk: S,
    issues: Vec<ValidationIssue>,
    chains: Seq<Seq<u64>>,
)
    requires
        validate::seg_lists_outcome::<S>(rdb, disk, Ok(issues)),
        validate::are_driver_chains(disk.medium(), rdb, chains),
        chains.len() == rdb.filesystems@.len(),
    ensures
        rdb.rdb_blocks_lo > rdb.rdb_blocks_hi ==> issues@.len() == 0,
        rdb.rdb_blocks_lo <= rdb.rdb_blocks_hi ==> {
            let lo = rdb.rdb_blocks_lo as u64;
            let hi = rdb.rdb_blocks_hi as u64;
            let reported = Seq::new(issues@.len(), |k: int| issues@[k]@);
            &&& forall|issue: Issue| #[trigger]
                reported.contains(issue) <==> exists|f: int|
                    0 <= f < chains.len() && #[trigger] is_so_of_chain(chains, f, lo, hi, issue)
            &&& issues@.len() == 0 ==> {
                &&& forall|f: int, k: int|
                    0 <= f < chains.len() && 0 <= k < chains[f].len() ==> lo
                        <= #[trigger] chains[f][k] <= hi
                &&& forall|f: int, g: int, b: u64|
                    #![trigger chains[f].contains(b), chains[g].contains(b)]
                    0 <= f < g < chains.len() && chains[f].contains(b) ==> !chains[g].contains(b)
            }
        },
{
    let m = disk.medium();
    if rdb.rdb_blocks_lo <= rdb.rdb_blocks_hi {
        let lo = rdb.rdb_blocks_lo as u64;
        let hi = rdb.rdb_blocks_hi as u64;
        let walked = choose|w: Seq<Seq<u64>>| #[trigger]
            validate::are_driver_chains(m, rdb, w) && w.len() == rdb.filesystems@.len()
                && validate::views(issues@) == validate::seg_list_issues(w, w.len(), lo, hi);
        assert forall|f: int| 0 <= f < chains.len() implies chains[f] == #[trigger] walked[f] by {
            walk::law_chain_is_unique(
                m,
                rdb.filesystems@[f].seg_list_blocks,
                id::LSEG,
                chains[f],
                walked[f],
            );
        }
        assert(chains =~= walked);
        let reported = Seq::new(issues@.len(), |k: int| issues@[k]@);
        assert(reported =~= validate::views(issues@));
        assert forall|issue: Issue| #[trigger] reported.contains(issue) <==> exists|f: int|
            0 <= f < chains.len() && #[trigger] is_so_of_chain(chains, f, lo, hi, issue) by {
            law_driver_issues_are_what_is_wrong(chains, chains.len(), lo, hi, issue);
        }
        if issues@.len() == 0 {
            assert forall|f: int, k: int|
                0 <= f < chains.len() && 0 <= k < chains[f].len() implies lo
                <= #[trigger] chains[f][k] <= hi by {
                let lba = chains[f][k];
                let issue = Issue::BlockOutsideRdbArea { kind: BlockKind::Lseg, lba, lo, hi };
                if lba < lo || lba > hi {
                    assert(is_so_of_chain(chains, f, lo, hi, issue));
                    assert(reported.contains(issue));
                }
            }
            assert forall|f: int, g: int, b: u64|
                #![trigger chains[f].contains(b), chains[g].contains(b)]
                0 <= f < g < chains.len() && chains[f].contains(b) implies !chains[g].contains(
                b,
            ) by {
                if chains[g].contains(b) {
                    lemma_first_shared(chains, g as nat, chains[g].len());
                    let k = choose|k: int| 0 <= k < chains[g].len() && chains[g][k] == b;
                    assert(chains[f].contains(chains[g][k]));
                    let (other, lba) = validate::first_shared(
                        chains,
                        g as nat,
                        chains[g].len(),
                    )->Some_0;
                    let issue = Issue::SharedLsegChain { index: g, other, lba };
                    assert(is_so_of_chain(chains, g, lo, hi, issue));
                    assert(reported.contains(issue));
                }
            }
        }
    }
}

/// The overlaps at the ranks below `r` are those of pairs of partitions.
proof fn lemma_overlaps_contain(ps: Seq<Partition>, order: Seq<usize>, r: nat, issue: Issue)
    requires
        r <= order.len(),
    ensures
        validate::overlap_issues(ps, order, r).contains(issue) <==> exists|x: int, y: int|
            0 <= x < r && x < y < order.len() && validate::pair_issue(
                ps,
                #[trigger] order[x] as int,
                #[trigger] order[y] as int,
            ) == Some(issue),
    decreases r,
{
    if r > 0 {
        let x = r - 1;
        let f = |k: int| validate::pair_issue(ps, order[x] as int, order[x + 1 + k] as int);
        let count = (order.len() - x - 1) as nat;
        lemma_overlaps_contain(ps, order, (r - 1) as nat, issue);
        lemma_collect_contains(count, f, issue);
        lemma_add_contains(
            validate::overlap_issues(ps, order, (r - 1) as nat),
            validate::rank_issues(ps, order, x),
            issue,
        );
        if validate::rank_issues(ps, order, x).contains(issue) {
            let k = choose|k: int| 0 <= k < count && #[trigger] f(k) == Some(issue);
            assert(validate::pair_issue(ps, order[x] as int, order[x + 1 + k] as int) == Some(
                issue,
            ));
        }
        if exists|x: int, y: int|
            0 <= x < r && x < y < order.len() && validate::pair_issue(
                ps,
                #[trigger] order[x] as int,
                #[trigger] order[y] as int,
            ) == Some(issue) {
            let (u, v) = choose|x: int, y: int|
                0 <= x < r && x < y < order.len() && validate::pair_issue(
                    ps,
                    #[trigger] order[x] as int,
                    #[trigger] order[y] as int,
                ) == Some(issue);
            if u == x {
                assert(f(v - x - 1) == Some(issue));
            }
        }
    }
}

/// Two partitions overlap in the blocks that both have.
proof fn lemma_pair(ps: Seq<Partition>, i: int, j: int, issue: Issue)
    requires
        0 <= i < ps.len(),
        0 <= j < ps.len(),
        i != j,
    ensures
        validate::pair_issue(ps, i, j) == validate::pair_issue(ps, j, i),
        i < j ==> (validate::pair_issue(ps, i, j) == Some(issue) <==> issue is PartitionsOverlap
            && issue->a == i && issue->b == j && issue->a_name == ps[i].name@ && issue->b_name
            == ps[j].name@ && issue->len > 0 && forall|x: int|
            #![trigger is_in(ps[i], x)]
            issue->start <= x < issue->start + issue->len <==> is_in(ps[i], x) && is_in(ps[j], x)),
{
    if i < j && issue is PartitionsOverlap && issue->len > 0 && forall|x: int|
        #![trigger is_in(ps[i], x)]
        issue->start <= x < issue->start + issue->len <==> is_in(ps[i], x) && is_in(ps[j], x) {
        let start = issue->start as int;
        let end = issue->start + issue->len;
        assert(is_in(ps[i], start));
        assert(is_in(ps[i], end - 1));
        assert(!is_in(ps[i], end) || !is_in(ps[j], end));
        assert(!is_in(ps[i], start - 1) || !is_in(ps[j], start - 1));
    }
}

/// The overlaps that are reported are those of every two partitions with a block
/// in common.
proof fn lemma_overlaps_are_so(rdb: Rdb, order: Seq<usize>, issue: Issue)
    requires
        validate::is_start_order(rdb.partitions@, order),
        rdb.partitions@.len() <= usize::MAX,
    ensures
        validate::overlap_issues(rdb.partitions@, order, order.len()).contains(issue)
            <==> issue is PartitionsOverlap && is_so(rdb, issue),
{
    let ps = rdb.partitions@;
    lemma_overlaps_contain(ps, order, order.len(), issue);
    if validate::overlap_issues(ps, order, order.len()).contains(issue) {
        let (x, y) = choose|x: int, y: int|
            0 <= x < order.len() && x < y < order.len() && validate::pair_issue(
                ps,
                #[trigger] order[x] as int,
                #[trigger] order[y] as int,
            ) == Some(issue);
        let (i, j) = (order[x] as int, order[y] as int);
        assert(i != j);
        lemma_pair(ps, i, j, issue);
        lemma_pair(ps, j, i, issue);
    }
    if issue is PartitionsOverlap && is_so(rdb, issue) {
        let (a, b) = (issue->a, issue->b);
        lemma_pair(ps, a, b, issue);
        assert(order.contains(a as usize));
        assert(order.contains(b as usize));
        let x = choose|x: int| 0 <= x < order.len() && order[x] == a as usize;
        let y = choose|y: int| 0 <= y < order.len() && order[y] == b as usize;
        if x < y {
            assert(validate::pair_issue(ps, order[x] as int, order[y] as int) == Some(issue));
        } else {
            assert(validate::pair_issue(ps, order[y] as int, order[x] as int) == Some(issue));
        }
    }
}

/// A partition covers part of the area where a block of it is one of the area.
proof fn lemma_covers(p: Partition, lo: u64, hi: u64)
    requires
        lo <= hi <= 0xFFFF_FFFF,
    ensures
        validate::covers_area(p, lo, hi) <==> exists|b: int| lo <= b <= hi && #[trigger] is_in(p, b),
{
    if validate::covers_area(p, lo, hi) {
        let b = if p.start_lba < lo {
            lo as int
        } else {
            p.start_lba as int
        };
        assert(is_in(p, b));
    }
}

/// What is reported of the area.
proof fn lemma_area_is_so(rdb: Rdb, issue: Issue)
    ensures
        validate::area_issues(rdb).contains(issue) <==> is_so(rdb, issue) && (
        issue is RdbAreaInvalid || issue is BlockOutsideRdbArea
            || issue is PartitionOverlapsRdbArea),
{
    let lo = rdb.rdb_blocks_lo as u64;
    let hi = rdb.rdb_blocks_hi as u64;
    let ps = rdb.partitions@;
    if lo > hi {
        let all = validate::area_issues(rdb);
        assert(all[0] == (Issue::RdbAreaInvalid { lo: rdb.rdb_blocks_lo, hi: rdb.rdb_blocks_hi }));
        if issue is RdbAreaInvalid && is_so(rdb, issue) {
            assert(all[0] == issue);
        }
    } else {
        let parts = parse::part_lbas(rdb);
        let fshds = parse::fshd_lbas(rdb);
        let a = validate::outside_issues(BlockKind::Part, parts, lo, hi);
        let b = validate::outside_issues(BlockKind::Fshd, fshds, lo, hi);
        let c = validate::outside_issues(BlockKind::Badb, rdb.badb_blocks@, lo, hi);
        let f = |i: int| validate::area_issue(ps[i], i, lo, hi);
        let d = validate::collect(ps.len(), f);
        lemma_add_contains(a, b, issue);
        lemma_add_contains(a + b, c, issue);
        lemma_add_contains(a + b + c, d, issue);
        lemma_outside_contains(BlockKind::Part, parts, lo, hi, issue);
        lemma_outside_contains(BlockKind::Fshd, fshds, lo, hi, issue);
        lemma_outside_contains(BlockKind::Badb, rdb.badb_blocks@, lo, hi, issue);
        lemma_collect_contains(ps.len(), f, issue);
        assert forall|i: int| 0 <= i < ps.len() implies (#[trigger] validate::covers_area(
            ps[i],
            lo,
            hi,
        ) <==> exists|b: int| lo <= b <= hi && #[trigger] is_in(ps[i], b)) by {
            lemma_covers(ps[i], lo, hi);
        }
        match issue {
            Issue::BlockOutsideRdbArea { kind, lba, .. } => {
                if is_so(rdb, issue) {
                    match kind {
                        BlockKind::Part => {
                            let i = choose|i: int|
                                0 <= i < ps.len() && (#[trigger] ps[i]).part_block == lba;
                            assert(parts[i] == lba);
                        },
                        BlockKind::Fshd => {
                            let i = choose|i: int|
                                0 <= i < rdb.filesystems@.len() && (
                                #[trigger] rdb.filesystems@[i]).fshd_block == lba;
                            assert(fshds[i] == lba);
                        },
                        _ => {},
                    }
                }
                if a.contains(issue) {
                    let i = choose|i: int| 0 <= i < parts.len() && #[trigger] parts[i] == lba;
                    assert(ps[i].part_block == lba);
                }
                if b.contains(issue) {
                    let i = choose|i: int| 0 <= i < fshds.len() && #[trigger] fshds[i] == lba;
                    assert(rdb.filesystems@[i].fshd_block == lba);
                }
            },
            Issue::PartitionOverlapsRdbArea { index, .. } => {
                if is_so(rdb, issue) {
                    assert(validate::covers_area(ps[index], lo, hi));
                    assert(f(index) == Some(issue));
                }
                if d.contains(issue) {
                    let i = choose|i: int| 0 <= i < ps.len() && #[trigger] f(i) == Some(issue);
                    assert(validate::covers_area(ps[i], lo, hi));
                }
            },
            _ => {},
        }
    }
}

/// A check of a layout reports everything that is wrong with it, and nothing
/// that is not: an issue is in the list exactly where what it says is so.
pub proof fn law_issues_are_what_is_wrong(rdb: Rdb, order: Seq<usize>, issue: Issue)
    requires
        validate::is_start_order(rdb.partitions@, order),
        rdb.partitions@.len() <= usize::MAX,
    ensures
        validate::issues_in(rdb, order).contains(issue) <==> is_so(rdb, issue),
{
    let ps = rdb.partitions@;
    let inverted = |i: int| validate::inverted_issue(ps[i], i);
    let short = |i: int| validate::short_issue(ps[i], i);
    let a = validate::area_issues(rdb);
    let b = validate::collect(ps.len(), inverted);
    let c = validate::overlap_issues(ps, order, order.len());
    let d = validate::collect(ps.len(), short);
    lemma_add_contains(a, b, issue);
    lemma_add_contains(a + b, c, issue);
    lemma_add_contains(a + b + c, d, issue);
    lemma_area_is_so(rdb, issue);
    lemma_overlaps_are_so(rdb, order, issue);
    lemma_collect_contains(ps.len(), inverted, issue);
    lemma_collect_contains(ps.len(), short, issue);
    match issue {
        Issue::PartitionCylindersInverted { index, .. } => {
            if is_so(rdb, issue) {
                assert(inverted(index) == Some(issue));
            }
        },
        Issue::EnvecTooShort { index, .. } => {
            if is_so(rdb, issue) {
                assert(short(index) == Some(issue));
            }
        },
        _ => {},
    }
}

/// The blocks of a list that lie outside the area are reported in the order of the
/// list, each as often as it is in it.
pub proof fn law_blocks_outside_are_reported_in_order(
    kind: BlockKind,
    lbas: Seq<u64>,
    lo: u64,
    hi: u64,
)
    ensures
        validate::outside_issues(kind, lbas, lo, hi) == lbas.filter(
            |b: u64| b < lo || b > hi,
        ).map_values(|b: u64| Issue::BlockOutsideRdbArea { kind, lba: b, lo, hi }),
    decreases lbas.len(),
{
    let outside = |b: u64| b < lo || b > hi;
    let report = |b: u64| Issue::BlockOutsideRdbArea { kind, lba: b, lo, hi };
    let all = validate::outside_issues(kind, lbas, lo, hi);
    reveal(Seq::filter);
    if lbas.len() > 0 {
        let head = lbas.drop_last();
        law_blocks_outside_are_reported_in_order(kind, head, lo, hi);
        let f = |i: int| validate::outside_issue(kind, lbas[i], lo, hi);
        let g = |i: int| validate::outside_issue(kind, head[i], lo, hi);
        lemma_collect_same(head.len(), f, g);
        assert(all =~= lbas.filter(outside).map_values(report));
    } else {
        assert(all =~= lbas.filter(outside).map_values(report));
    }
}

proof fn lemma_collect_same(n: nat, f: spec_fn(int) -> Option<Issue>, g: spec_fn(int) -> Option<Issue>)
    requires
        forall|i: int| 0 <= i < n ==> #[trigger] f(i) == g(i),
    ensures
        validate::collect(n, f) == validate::collect(n, g),
    decreases n,
{
    if n > 0 {
        lemma_collect_same((n - 1) as nat, f, g);
        assert(f(n - 1) == g(n - 1));
    }
}

/// The issues of the driver chains come filesystem by filesystem.
pub proof fn law_driver_issues_come_in_order(
    chains: Seq<Seq<u64>>,
    m: nat,
    n: nat,
    lo: u64,
    hi: u64,
)
    requires
        m <= n,
    ensures
        validate::seg_list_issues(chains, m, lo, hi).is_prefix_of(
            validate::seg_list_issues(chains, n, lo, hi),
        ),
    decreases n,
{
    if m < n {
        law_driver_issues_come_in_order(chains, m, (n - 1) as nat, lo, hi);
        let part = validate::seg_list_issues(chains, m, lo, hi);
        let head = validate::seg_list_issues(chains, (n - 1) as nat, lo, hi);
        let all = validate::seg_list_issues(chains, n, lo, hi);
        assert(head.is_prefix_of(all)) by {
            assert(all.subrange(0, head.len() as int) =~= head);
        }
        assert(all.subrange(0, part.len() as int) =~= head.subrange(0, part.len() as int));
    } else {
        let all = validate::seg_list_issues(chains, n, lo, hi);
        assert(all.subrange(0, all.len() as int) =~= all);
    }
}

/// Which part of the report the issue belongs to.
pub open spec fn section(issue: Issue) -> int {
    match issue {
        Issue::RdbAreaInvalid { .. } => 0,
        Issue::BlockOutsideRdbArea { kind, .. } => match kind {
            BlockKind::Part => 1,
            BlockKind::Fshd => 2,
            _ => 3,
        },
        Issue::PartitionOverlapsRdbArea { .. } => 4,
        Issue::PartitionCylindersInverted { .. } => 5,
        Issue::PartitionsOverlap { .. } => 6,
        Issue::EnvecTooShort { .. } => 7,
        Issue::SharedLsegChain { .. } => 8,
    }
}

/// Which partition the issue is about, where it is about one.
pub open spec fn subject(issue: Issue) -> int {
    match issue {
        Issue::PartitionOverlapsRdbArea { index, .. } => index,
        Issue::PartitionCylindersInverted { index, .. } => index,
        Issue::EnvecTooShort { index, .. } => index,
        _ => 0,
    }
}

/// The issues are of sections `from..=to`, in the order of their sections, and
/// those about one partition in the order of the partitions, each once.
pub open spec fn is_in_order(issues: Seq<Issue>, from: int, to: int) -> bool {
    &&& forall|i: int| 0 <= i < issues.len() ==> from <= section(#[trigger] issues[i]) <= to
    &&& forall|i: int, j: int|
        0 <= i < j < issues.len() ==> section(#[trigger] issues[i]) <= section(
            #[trigger] issues[j],
        )
    &&& forall|i: int, j: int|
        0 <= i < j < issues.len() && section(#[trigger] issues[i]) == section(
            #[trigger] issues[j],
        ) && (section(issues[i]) == 4 || section(issues[i]) == 5 || section(issues[i]) == 7)
            ==> subject(issues[i]) < subject(issues[j])
}

proof fn lemma_order_joins(a: Seq<Issue>, b: Seq<Issue>, from: int, mid: int, to: int)
    requires
        is_in_order(a, from, mid),
        is_in_order(b, mid + 1, to),
        from <= mid < to,
    ensures
        is_in_order(a + b, from, to),
{
}

proof fn lemma_collect_in_order(n: nat, f: spec_fn(int) -> Option<Issue>, at: int)
    requires
        forall|i: int|
            0 <= i < n ==> (#[trigger] f(i) matches Some(x) ==> section(x) == at && (at == 4 || at
                == 5 || at == 7 ==> subject(x) == i)),
    ensures
        is_in_order(validate::collect(n, f), at, at),
        forall|k: int|
            0 <= k < validate::collect(n, f).len() && (at == 4 || at == 5 || at == 7) ==> subject(
                #[trigger] validate::collect(n, f)[k],
            ) < n,
    decreases n,
{
    if n > 0 {
        lemma_collect_in_order((n - 1) as nat, f, at);
        assert(f(n - 1) matches Some(x) ==> section(x) == at);
    }
}

proof fn lemma_overlaps_in_order(ps: Seq<Partition>, order: Seq<usize>, r: nat)
    ensures
        is_in_order(validate::overlap_issues(ps, order, r), 6, 6),
    decreases r,
{
    if r > 0 {
        lemma_overlaps_in_order(ps, order, (r - 1) as nat);
        let x = r - 1;
        let f = |k: int| validate::pair_issue(ps, order[x] as int, order[x + 1 + k] as int);
        lemma_collect_in_order((order.len() - x - 1) as nat, f, 6);
    }
}

/// A report comes in order: what is wrong with the area, then the blocks outside
/// it, the partitions in it, the inverted ones, those that overlap and those with
/// a short envec; and of each of these, where it is about one partition, that
/// partition once, in the order of the partitions.
pub proof fn law_issues_come_in_order(rdb: Rdb, order: Seq<usize>)
    ensures
        is_in_order(validate::issues_in(rdb, order), 0, 7),
{
    let ps = rdb.partitions@;
    let lo = rdb.rdb_blocks_lo as u64;
    let hi = rdb.rdb_blocks_hi as u64;
    let inverted = |i: int| validate::inverted_issue(ps[i], i);
    let short = |i: int| validate::short_issue(ps[i], i);
    let covering = |i: int| validate::area_issue(ps[i], i, lo, hi);
    lemma_collect_in_order(ps.len(), inverted, 5);
    lemma_collect_in_order(ps.len(), short, 7);
    lemma_collect_in_order(ps.len(), covering, 4);
    lemma_overlaps_in_order(ps, order, order.len());
    let area = validate::area_issues(rdb);
    assert(is_in_order(area, 0, 4)) by {
        if lo <= hi {
            let parts = parse::part_lbas(rdb);
            let fshds = parse::fshd_lbas(rdb);
            let badbs = rdb.badb_blocks@;
            lemma_collect_in_order(
                parts.len(),
                |i: int| validate::outside_issue(BlockKind::Part, parts[i], lo, hi),
                1,
            );
            lemma_collect_in_order(
                fshds.len(),
                |i: int| validate::outside_issue(BlockKind::Fshd, fshds[i], lo, hi),
                2,
            );
            lemma_collect_in_order(
                badbs.len(),
                |i: int| validate::outside_issue(BlockKind::Badb, badbs[i], lo, hi),
                3,
            );
            let a = validate::outside_issues(BlockKind::Part, parts, lo, hi);
            let b = validate::outside_issues(BlockKind::Fshd, fshds, lo, hi);
            let c = validate::outside_issues(BlockKind::Badb, badbs, lo, hi);
            lemma_order_joins(a, b, 1, 1, 2);
            lemma_order_joins(a + b, c, 1, 2, 3);
            lemma_order_joins(a + b + c, validate::collect(ps.len(), covering), 1, 3, 4);
        }
    }
    let b = validate::collect(ps.len(), inverted);
    let c = validate::overlap_issues(ps, order, order.len());
    let d = validate::collect(ps.len(), short);
    lemma_order_joins(area, b, 0, 4, 5);
    lemma_order_joins(area + b, c, 0, 5, 6);
    lemma_order_joins(area + b + c, d, 0, 6, 7);
}

/// What is collected comes once, where no two positions give the same.
proof fn lemma_collect_once(n: nat, f: spec_fn(int) -> Option<Issue>)
    requires
        forall|i: int, j: int|
            0 <= i < j < n && #[trigger] f(i) is Some ==> f(i) != #[trigger] f(j),
    ensures
        validate::collect(n, f).no_duplicates(),
    decreases n,
{
    if n > 0 {
        let head = validate::collect((n - 1) as nat, f);
        lemma_collect_once((n - 1) as nat, f);
        if let Some(issue) = f(n - 1) {
            lemma_collect_contains((n - 1) as nat, f, issue);
            assert(!head.contains(issue)) by {
                if head.contains(issue) {
                    let i = choose|i: int| 0 <= i < n - 1 && #[trigger] f(i) == Some(issue);
                    assert(f(i) != f(n - 1));
                }
            }
        }
    }
}

/// Every two partitions that overlap are reported once.
pub proof fn law_overlaps_are_reported_once(ps: Seq<Partition>, order: Seq<usize>, r: nat)
    requires
        validate::is_start_order(ps, order),
        r <= order.len(),
        ps.len() <= usize::MAX,
    ensures
        validate::overlap_issues(ps, order, r).no_duplicates(),
    decreases r,
{
    if r > 0 {
        law_overlaps_are_reported_once(ps, order, (r - 1) as nat);
        let x = r - 1;
        let f = |k: int| validate::pair_issue(ps, order[x] as int, order[x + 1 + k] as int);
        let count = (order.len() - x - 1) as nat;
        let head = validate::overlap_issues(ps, order, (r - 1) as nat);
        let last = validate::rank_issues(ps, order, x);
        assert forall|i: int, j: int|
            0 <= i < j < count && #[trigger] f(i) is Some implies f(i) != #[trigger] f(j) by {
            assert(order[x + 1 + i] != order[x + 1 + j]);
            assert(order[x] != order[x + 1 + i]);
            assert(order[x] != order[x + 1 + j]);
        }
        lemma_collect_once(count, f);
        assert forall|i: int, j: int|
            0 <= i < head.len() && 0 <= j < last.len() implies head[i] != last[j] by {
            let issue = last[j];
            if head[i] == issue {
                assert(head.contains(issue));
                assert(last.contains(issue));
                lemma_overlaps_contain(ps, order, (r - 1) as nat, issue);
                lemma_collect_contains(count, f, issue);
                let (u, v) = choose|u: int, v: int|
                    0 <= u < r - 1 && u < v < order.len() && validate::pair_issue(
                        ps,
                        #[trigger] order[u] as int,
                        #[trigger] order[v] as int,
                    ) == Some(issue);
                let k = choose|k: int| 0 <= k < count && #[trigger] f(k) == Some(issue);
                assert(order[u] != order[x]);
                assert(order[u] != order[x + 1 + k]);
            }
        }
        vstd::seq_lib::lemma_no_dup_in_concat(head, last);
    }
}

/// Where the first of the two partitions of an overlap starts.
pub open spec fn earlier_start(ps: Seq<Partition>, issue: Issue) -> int {
    let a = ps[issue->a].start_lba;
    let b = ps[issue->b].start_lba;
    if a <= b {
        a as int
    } else {
        b as int
    }
}

/// The overlaps come in the order in which the first of each two partitions
/// starts.
pub proof fn law_overlaps_come_by_start(ps: Seq<Partition>, order: Seq<usize>, r: nat)
    requires
        validate::is_start_order(ps, order),
        r <= order.len(),
        ps.len() <= usize::MAX,
    ensures
        ({
            let issues = validate::overlap_issues(ps, order, r);
            &&& forall|i: int, j: int|
                0 <= i < j < issues.len() ==> earlier_start(ps, #[trigger] issues[i])
                    <= earlier_start(ps, #[trigger] issues[j])
            &&& forall|i: int|
                0 <= i < issues.len() ==> r > 0 && earlier_start(ps, #[trigger] issues[i])
                    <= ps[order[r - 1] as int].start_lba
        }),
    decreases r,
{
    if r > 0 {
        law_overlaps_come_by_start(ps, order, (r - 1) as nat);
        let x = r - 1;
        let f = |k: int| validate::pair_issue(ps, order[x] as int, order[x + 1 + k] as int);
        let count = (order.len() - x - 1) as nat;
        let last = validate::rank_issues(ps, order, x);
        assert forall|j: int| 0 <= j < last.len() implies earlier_start(ps, #[trigger] last[j])
            == ps[order[x] as int].start_lba by {
            let issue = last[j];
            lemma_collect_contains(count, f, issue);
            assert(last.contains(issue));
            let k = choose|k: int| 0 <= k < count && #[trigger] f(k) == Some(issue);
            let y = x + 1 + k;
            assert(validate::is_start_order(ps, order));
            assert(sort::no_later(
                validate::extent_of(ps, order[x]),
                validate::extent_of(ps, order[y]),
            ));
        }
        if r > 1 {
            assert(sort::no_later(
                validate::extent_of(ps, order[x - 1]),
                validate::extent_of(ps, order[x]),
            ));
        }
        let head = validate::overlap_issues(ps, order, (r - 1) as nat);
        let all = validate::overlap_issues(ps, order, r);
        assert(all == head + last);
        assert forall|i: int| 0 <= i < all.len() implies earlier_start(ps, #[trigger] all[i])
            <= ps[order[x] as int].start_lba by {
            if i < head.len() {
                assert(all[i] == head[i]);
            } else {
                assert(all[i] == last[i - head.len()]);
            }
        }
        assert forall|i: int, j: int| 0 <= i < j < all.len() implies earlier_start(
            ps,
            #[trigger] all[i],
        ) <= earlier_start(ps, #[trigger] all[j]) by {
            if j < head.len() {
                assert(all[i] == head[i] && all[j] == head[j]);
            } else {
                assert(all[j] == last[j - head.len()]);
            }
        }
    }
}

/// A check of the driver chains fails for a reason: the disk is in another block
/// size than the table, or a driver's chain breaks off, those before it being
/// whole. Where every chain is whole and can be read, it gives an answer.
pub proof fn law_driver_check_fails_for_a_reason<S: BlockSource>(
    rdb: Rdb,
    disk: S,
    e: RdbError<S::Error>,
)
    requires
        validate::seg_lists_outcome::<S>(rdb, disk, Err(e)),
    ensures
        rdb.rdb_blocks_lo <= rdb.rdb_blocks_hi,
        match e {
            RdbError::BlockBytesMismatch { block_bytes, block_size } => {
                &&& block_bytes == rdb.block_bytes
                &&& block_size == disk.medium().block_size
                &&& block_bytes != block_size
            },
            _ => disk.medium().block_size == rdb.block_bytes && exists|f: int|
                0 <= f < rdb.filesystems@.len() && #[trigger] walk::chain_breaks(
                    disk,
                    rdb.filesystems@[f].seg_list_blocks,
                    0x4C53_4547,
                    e,
                ),
        },
        forall|chains: Seq<Seq<u64>>|
            {
                &&& disk.medium().block_size == rdb.block_bytes
                &&& #[trigger] validate::are_driver_chains(disk.medium(), rdb, chains)
                &&& chains.len() == rdb.filesystems@.len()
            } ==> exists|f: int, k: int, x: S::Error|
                0 <= f < chains.len() && 0 <= k < chains[f].len() && #[trigger] disk.read_fails(
                    chains[f][k],
                    x,
                ),
{
    if !(e is BlockBytesMismatch) {
        let m = disk.medium();
        let walked = choose|w: Seq<Seq<u64>>| #[trigger]
            validate::are_driver_chains(m, rdb, w) && w.len() < rdb.filesystems@.len()
                && walk::chain_breaks(
                disk,
                rdb.filesystems@[w.len() as int].seg_list_blocks,
                id::LSEG,
                e,
            );
        let f = walked.len() as int;
        assert(walk::chain_breaks(disk, rdb.filesystems@[f].seg_list_blocks, 0x4C53_4547, e));
        assert forall|chains: Seq<Seq<u64>>|
            {
                &&& m.block_size == rdb.block_bytes
                &&& #[trigger] validate::are_driver_chains(m, rdb, chains)
                &&& chains.len() == rdb.filesystems@.len()
            } implies exists|f: int, k: int, x: S::Error|
            0 <= f < chains.len() && 0 <= k < chains[f].len() && #[trigger] disk.read_fails(
                chains[f][k],
                x,
            ) by {
            walk::law_whole_chain_breaks_only_on_a_failed_read(
                disk,
                rdb.filesystems@[f].seg_list_blocks,
                id::LSEG,
                chains[f],
                e,
            );
        }
    }
}

} // verus!
