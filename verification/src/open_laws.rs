//! What opening a table for editing refuses, and what validation says of it.
use vstd::prelude::*;

use crate::editor::RdbEditor;
use crate::media::BlockSource;
use crate::model::Rdb;
use crate::validate::{BlockKind, Issue, ValidationIssue};
use crate::walk::RdbError;
use crate::{editor, id, opening, parse, table, validate, walk};

verus! {

/// The block of the first `SharedLsegChain` of a list of issues.
pub open spec fn first_shared_block(issues: Seq<Issue>) -> Option<u64>
    decreases issues.len(),
{
    if issues.len() == 0 {
        None
    } else {
        match first_shared_block(issues.drop_last()) {
            Some(lba) => Some(lba),
            None => match issues.last() {
                Issue::SharedLsegChain { lba, .. } => Some(lba),
                _ => None,
            },
        }
    }
}

/// The first of two lists is looked at first.
proof fn lemma_first_of_both(a: Seq<Issue>, b: Seq<Issue>)
    ensures
        first_shared_block(a + b) == match first_shared_block(a) {
            Some(lba) => Some(lba),
            None => first_shared_block(b),
        },
    decreases b.len(),
{
    if b.len() == 0 {
        assert(a + b =~= a);
    } else {
        assert((a + b).drop_last() =~= a + b.drop_last());
        lemma_first_of_both(a, b.drop_last());
    }
}

/// A block outside the area is no shared block.
proof fn lemma_none_outside(lbas: Seq<u64>, lo: u64, hi: u64, n: nat)
    requires
        n <= lbas.len(),
    ensures
        first_shared_block(
            validate::collect(
                n,
                |i: int| validate::outside_issue(BlockKind::Lseg, lbas[i], lo, hi),
            ),
        ) is None,
    decreases n,
{
    let f = |i: int| validate::outside_issue(BlockKind::Lseg, lbas[i], lo, hi);
    if n > 0 {
        lemma_none_outside(lbas, lo, hi, (n - 1) as nat);
        let before = validate::collect((n - 1) as nat, f);
        match f(n - 1) {
            Some(issue) => {
                assert(before.push(issue).drop_last() =~= before);
            },
            None => {},
        }
    }
}

/// The issues of one chain: the first block it shares, if it shares one.
proof fn lemma_first_of_driver(chains: Seq<Seq<u64>>, f: nat, lo: u64, hi: u64)
    ensures
        first_shared_block(validate::driver_issues(chains, f, lo, hi))
            == match validate::first_shared(chains, f, chains[f as int].len()) {
            Some((_, lba)) => Some(lba),
            None => None,
        },
{
    let lbas = chains[f as int];
    let outside = validate::outside_issues(BlockKind::Lseg, lbas, lo, hi);
    lemma_none_outside(lbas, lo, hi, lbas.len());
    match validate::first_shared(chains, f, lbas.len()) {
        Some((other, lba)) => {
            let issue = Issue::SharedLsegChain { index: f as int, other, lba };
            lemma_first_of_both(outside, seq![issue]);
            assert(seq![issue].drop_last() =~= Seq::<Issue>::empty());
            assert(first_shared_block(seq![issue].drop_last()) is None);
        },
        None => {
            lemma_first_of_both(outside, Seq::empty());
        },
    }
}

/// A block belongs to one of the first `n` chains where one of them runs through
/// it.
proof fn lemma_owner(chains: Seq<Seq<u64>>, n: nat, lba: u64)
    requires
        n <= chains.len(),
    ensures
        validate::owner_of(chains, n, lba) is Some <==> opening::in_any(
            chains.take(n as int),
            lba,
        ),
    decreases n,
{
    if n > 0 {
        lemma_owner(chains, (n - 1) as nat, lba);
        let a = chains.take(n - 1);
        let b = chains.take(n as int);
        if opening::in_any(a, lba) {
            let f = choose|f: int| 0 <= f < a.len() && (#[trigger] a[f]).contains(lba);
            assert(b[f].contains(lba));
        }
        if chains[n - 1].contains(lba) {
            assert(b[n - 1].contains(lba));
        }
        if opening::in_any(b, lba) {
            let f = choose|f: int| 0 <= f < b.len() && (#[trigger] b[f]).contains(lba);
            if f < n - 1 {
                assert(a[f].contains(lba));
            }
        }
    }
}

/// The first `k` blocks of chain `f` share nothing with the chains before it,
/// where none of them is a block of those.
proof fn lemma_shares_nothing(chains: Seq<Seq<u64>>, f: nat, k: nat)
    requires
        f < chains.len(),
        k <= chains[f as int].len(),
        forall|j: int|
            0 <= j < k ==> !opening::in_any(
                chains.take(f as int),
                #[trigger] chains[f as int][j],
            ),
    ensures
        validate::first_shared(chains, f, k) is None,
    decreases k,
{
    if k > 0 {
        lemma_shares_nothing(chains, f, (k - 1) as nat);
        lemma_owner(chains, f, chains[f as int][k - 1]);
        assert(!opening::in_any(chains.take(f as int), chains[f as int][k - 1]));
    }
}

/// The first block of chain `f` that a chain before it runs through is the one
/// that is reported.
proof fn lemma_shares_first(chains: Seq<Seq<u64>>, f: nat, at: int, k: nat)
    requires
        f < chains.len(),
        0 <= at < k <= chains[f as int].len(),
        opening::in_any(chains.take(f as int), chains[f as int][at]),
        forall|j: int|
            0 <= j < at ==> !opening::in_any(
                chains.take(f as int),
                #[trigger] chains[f as int][j],
            ),
    ensures
        validate::first_shared(chains, f, k) matches Some(s) && s.1 == chains[f as int][at],
    decreases k,
{
    if k == at + 1 {
        lemma_shares_nothing(chains, f, at as nat);
        lemma_owner(chains, f, chains[f as int][at]);
    } else {
        lemma_shares_first(chains, f, at, (k - 1) as nat);
    }
}

/// Chains that are apart share nothing.
proof fn lemma_apart_share_nothing(
    chains: Seq<Seq<u64>>,
    n: nat,
    lo: u64,
    hi: u64,
)
    requires
        n <= chains.len(),
        table::chains_apart(chains.take(n as int)),
    ensures
        first_shared_block(validate::seg_list_issues(chains, n, lo, hi)) is None,
    decreases n,
{
    if n > 0 {
        let f = (n - 1) as nat;
        let all = chains.take(n as int);
        let a = chains.take(f as int);
        assert(table::chains_apart(a)) by {
            assert forall|g: int, h: int, b: u64|
                #![trigger a[g].contains(b), a[h].contains(b)]
                0 <= g < h < a.len() && a[g].contains(b) implies !a[h].contains(b) by {
                assert(all[g].contains(b));
                assert(all[h].contains(b) == a[h].contains(b));
            }
        }
        lemma_apart_share_nothing(chains, f, lo, hi);
        let c = chains[f as int];
        assert forall|j: int| 0 <= j < c.len() implies !opening::in_any(a, #[trigger] c[j]) by {
            if opening::in_any(a, c[j]) {
                let g = choose|g: int| 0 <= g < a.len() && (#[trigger] a[g]).contains(c[j]);
                assert(all[g].contains(c[j]));
                assert(all[f as int].contains(c[j]));
            }
        }
        lemma_shares_nothing(chains, f, c.len());
        lemma_first_of_driver(chains, f, lo, hi);
        lemma_first_of_both(
            validate::seg_list_issues(chains, f, lo, hi),
            validate::driver_issues(chains, f, lo, hi),
        );
    }
}

/// A shared block that was reported stays the first.
proof fn lemma_first_stays(chains: Seq<Seq<u64>>, k: nat, n: nat, lo: u64, hi: u64)
    requires
        k <= n,
        first_shared_block(validate::seg_list_issues(chains, k, lo, hi)) is Some,
    ensures
        first_shared_block(validate::seg_list_issues(chains, n, lo, hi)) == first_shared_block(
            validate::seg_list_issues(chains, k, lo, hi),
        ),
    decreases n,
{
    if k < n {
        lemma_first_stays(chains, k, (n - 1) as nat, lo, hi);
        lemma_first_of_both(
            validate::seg_list_issues(chains, (n - 1) as nat, lo, hi),
            validate::driver_issues(chains, (n - 1) as nat, lo, hi),
        );
    }
}

/// Where the first chains are apart and the next runs through a block of one of
/// them, that block is the first that is reported.
proof fn lemma_first_reported(chains: Seq<Seq<u64>>, k: nat, lba: u64, lo: u64, hi: u64)
    requires
        k < chains.len(),
        table::chains_apart(chains.take(k as int)),
        opening::is_first_shared(chains.take(k as int), chains[k as int], lba),
    ensures
        first_shared_block(validate::seg_list_issues(chains, chains.len(), lo, hi)) == Some(lba),
{
    let c = chains[k as int];
    let a = chains.take(k as int);
    let at = choose|at: int|
        {
            &&& 0 <= at < c.len()
            &&& #[trigger] c[at] == lba
            &&& opening::in_any(a, lba)
            &&& forall|j: int| 0 <= j < at ==> !opening::in_any(a, #[trigger] c[j])
        };
    lemma_shares_first(chains, k, at, c.len());
    lemma_apart_share_nothing(chains, k, lo, hi);
    lemma_first_of_driver(chains, k, lo, hi);
    lemma_first_of_both(
        validate::seg_list_issues(chains, k, lo, hi),
        validate::driver_issues(chains, k, lo, hi),
    );
    lemma_first_stays(chains, k + 1, chains.len(), lo, hi);
}

/// The driver chains of a table are the ones there are.
proof fn lemma_same_chains<S: BlockSource>(
    disk: S,
    a: Rdb,
    whole: Seq<Seq<u64>>,
    b: Rdb,
    chains: Seq<Seq<u64>>,
)
    requires
        parse::parses_as(disk.medium(), a),
        parse::parses_as(disk.medium(), b),
        validate::are_driver_chains(disk.medium(), a, whole),
        whole.len() == a.filesystems@.len(),
        validate::are_driver_chains(disk.medium(), b, chains),
    ensures
        chains == whole.take(chains.len() as int),
{
    let m = disk.medium();
    parse::law_parse_is_determined(m, a, b);
    assert forall|f: int| 0 <= f < chains.len() implies chains[f] == whole[f] by {
        walk::law_chain_is_unique(
            m,
            a.filesystems@[f].seg_list_blocks,
            id::LSEG,
            chains[f],
            whole[f],
        );
    }
    assert(chains =~= whole.take(chains.len() as int));
}

/// Opening a table whose driver chains can be walked refuses it exactly where
/// validation reports that two of them share a block, and names the first such
/// block; otherwise it succeeds, with the model that a parse gives. Reads of the
/// blocks up to the `RDSK` block, of the table's blocks and of its drivers' blocks
/// are taken not to fail.
pub proof fn law_open_refuses_what_validation_reports_shared<S: BlockSource>(
    disk: S,
    rdb: Rdb,
    issues: Vec<ValidationIssue>,
    r: Result<RdbEditor, RdbError<S::Error>>,
)
    requires
        parse::parses_as(disk.medium(), rdb),
        parse::reads_model(disk, rdb),
        forall|f: int, lbas: Seq<u64>|
            0 <= f < rdb.filesystems@.len() && #[trigger] walk::is_chain(
                disk.medium(),
                rdb.filesystems@[f].seg_list_blocks,
                id::LSEG,
                lbas,
            ) ==> walk::reads_all(disk, lbas),
        rdb.rdb_blocks_lo <= rdb.rdb_blocks_hi,
        validate::seg_lists_outcome::<S>(rdb, disk, Ok(issues)),
        editor::open_outcome(disk, r),
    ensures
        match first_shared_block(validate::views(issues@)) {
            Some(lba) => r matches Err(RdbError::SharedChain { lba: b }) && b == lba,
            None => r matches Ok(opened) && parse::same_table(opened.model(), rdb),
        },
{
    let m = disk.medium();
    let lo = rdb.rdb_blocks_lo as u64;
    let hi = rdb.rdb_blocks_hi as u64;
    let whole = choose|chains: Seq<Seq<u64>>| #[trigger]
        validate::are_driver_chains(m, rdb, chains) && chains.len() == rdb.filesystems@.len()
            && validate::views(issues@) == validate::seg_list_issues(
            chains,
            chains.len(),
            lo,
            hi,
        );
    let n = whole.len();
    assert(whole.take(n as int) =~= whole);
    match r {
        Ok(opened) => {
            let chains = choose|chains: Seq<Seq<u64>>|
                table::opened_as(m, opened.model(), chains, opened@);
            parse::law_parse_is_determined(m, opened.model(), rdb);
            lemma_same_chains(disk, rdb, whole, opened.model(), chains);
            lemma_apart_share_nothing(whole, n, lo, hi);
        },
        Err(e) => {
            lemma_parses(disk, rdb, e);
            let other = choose|other: Rdb| #[trigger]
                parse::parses_as(m, other) && opening::reading_fails(disk, other, e);
            parse::law_parse_is_determined(m, rdb, other);
            lemma_table_reads(disk, rdb, other, e);
            let chains = choose|chains: Seq<Seq<u64>>|
                opening::driver_fails(disk, other, chains, e);
            let k = chains.len();
            lemma_same_chains(disk, rdb, whole, other, chains);
            let head = other.filesystems@[k as int].seg_list_blocks;
            assert(walk::is_chain(
                m,
                rdb.filesystems@[k as int].seg_list_blocks,
                id::LSEG,
                whole[k as int],
            ));
            match e {
                RdbError::SharedChain { lba } => {
                    let c = choose|c: Seq<u64>| #[trigger]
                        walk::is_chain(m, head, id::LSEG, c) && opening::is_first_shared(
                            chains,
                            c,
                            lba,
                        );
                    walk::law_chain_is_unique(m, head, id::LSEG, c, whole[k as int]);
                    lemma_first_reported(whole, k, lba, lo, hi);
                },
                _ => {
                    walk::law_whole_chain_breaks_only_on_a_failed_read(
                        disk,
                        head,
                        id::LSEG,
                        whole[k as int],
                        e,
                    );
                },
            }
        },
    }
}

/// Where no read of its blocks fails, reading a table fails on its drivers, if
/// at all.
proof fn lemma_table_reads<S: BlockSource>(disk: S, rdb: Rdb, other: Rdb, e: RdbError<S::Error>)
    requires
        parse::reads_model(disk, rdb),
        parse::same_table(rdb, other),
        opening::reading_fails(disk, other, e),
    ensures
        exists|chains: Seq<Seq<u64>>| opening::driver_fails(disk, other, chains, e),
{
    if let RdbError::Io(x) = e {
        assert(parse::fshd_lbas(rdb) == parse::fshd_lbas(other));
        assert forall|lba: u64| opening::is_table_block(
            other,
            lba,
        ) implies !#[trigger] disk.read_fails(lba, x) by {
            if lba == rdb.rdsk_block {
                assert(walk::reads_at(disk, lba));
            } else if parse::part_lbas(rdb).contains(lba) {
                let k = parse::part_lbas(rdb).index_of(lba);
                assert(walk::reads_at(disk, parse::part_lbas(rdb)[k]));
            } else if parse::fshd_lbas(rdb).contains(lba) {
                let k = parse::fshd_lbas(rdb).index_of(lba);
                assert(walk::reads_at(disk, parse::fshd_lbas(rdb)[k]));
            } else {
                let k = rdb.badb_blocks@.index_of(lba);
                assert(walk::reads_at(disk, rdb.badb_blocks@[k]));
            }
        }
    }
}

/// A parse of a table that is whole does not fail, where no read of it does.
proof fn lemma_parses<S: BlockSource>(disk: S, rdb: Rdb, e: RdbError<S::Error>)
    requires
        parse::reads_model(disk, rdb),
        parse::parses_as(disk.medium(), rdb),
    ensures
        !parse::parse_fails(disk, e),
{
    if parse::parse_fails(disk, e) {
        parse::law_whole_table_parses(
            disk,
            rdb.rdsk_block,
            parse::part_lbas(rdb),
            parse::fshd_lbas(rdb),
            rdb.badb_blocks@,
            Err(e),
        );
    }
}

} // verus!
