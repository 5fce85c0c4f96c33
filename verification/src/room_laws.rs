//! When a table can be committed.
use vstd::prelude::*;

use crate::edit_error::{CommitError, CommitReport};
use crate::media::BlockSink;
use crate::table::{Driver, Table};
use crate::{commit, format_laws, geometry_laws, media, table};

verus! {

/// How many blocks the filesystems of a list have: one for each header and one
/// for each piece of a driver.
pub open spec fn driver_block_count(drivers: Seq<Driver>) -> nat
    decreases drivers.len(),
{
    if drivers.len() == 0 {
        0
    } else {
        1 + drivers[0].chain.len() + driver_block_count(drivers.drop_first())
    }
}

/// The commit was not refused.
pub open spec fn is_accepted<E>(r: Result<CommitReport, CommitError<E>>) -> bool {
    match r {
        Ok(_) => true,
        Err(CommitError::Io(_)) => true,
        Err(_) => false,
    }
}

/// How many blocks of the area from `lo` on the table needs: one for each
/// partition, for each block of a filesystem and for each of the bad-block list,
/// and one more where the `RDSK` lies in the area too.
pub open spec fn needed_from(t: Table, lo: int) -> int {
    let blocks = t.parts.len() + driver_block_count(t.drivers) + t.badbs.len();
    if t.rdsk_block >= lo {
        blocks as int + 1
    } else {
        blocks as int
    }
}

/// The list of the filesystems' blocks is as long as they have blocks.
pub proof fn lemma_driver_block_count(drivers: Seq<Driver>)
    ensures
        table::driver_blocks(drivers).len() == driver_block_count(drivers),
    decreases drivers.len(),
{
    if drivers.len() > 0 {
        let first = seq![drivers[0]];
        let rest = drivers.drop_first();
        assert(first + rest =~= drivers);
        table::lemma_driver_blocks_add(first, rest);
        lemma_driver_block_count(rest);
        assert(first.drop_last() =~= Seq::<Driver>::empty());
        assert(table::driver_blocks(first.drop_last()).len() == 0);
        assert(table::driver_blocks(first).len() == 1 + drivers[0].chain.len());
    }
}

/// A commit is refused for want of room exactly where the area has fewer blocks
/// than the table needs, and for another reason exactly where that holds: a
/// target with blocks of an unsupported size or of another size than the
/// table's, an area that was grown past the end of the target, an inverted area
/// or one that ends before the `RDSK`. Otherwise it succeeds, or a write fails.
/// A commit that is refused has written nothing.
pub proof fn law_commit_is_refused_for_a_reason<S: BlockSink>(
    t: Table,
    before: S,
    after: S,
    r: Result<CommitReport, CommitError<S::Error>>,
)
    requires
        commit::commit_outcome(t, before, after, r),
    ensures
        ({
            let size = before.target().block_size;
            let lo = format_laws::number(t.rdsk, 128);
            let hi = format_laws::number(t.rdsk, 132);
            let usable = geometry_laws::is_block_size(size) && size == t.block_size;
            let grown_past_end = match before.target().block_count {
                Some(n) => hi != t.opened_hi && hi >= n,
                None => false,
            };
            let reachable = usable && !grown_past_end;
            &&& match r {
                Ok(_) => true,
                Err(CommitError::Io(e)) => exists|lba: u64| #[trigger] before.write_fails(lba, e),
                Err(CommitError::UnsupportedBlockSize { block_size }) => block_size == size
                    && !geometry_laws::is_block_size(size),
                Err(CommitError::BlockSizeMismatch { rdb, sink }) => rdb == t.block_size && sink
                    == size && size != t.block_size && geometry_laws::is_block_size(size),
                Err(CommitError::RdbAreaPastEndOfDisk { hi: past, block_count }) => past == hi
                    && usable && grown_past_end && before.target().block_count == Some(block_count),
                Err(CommitError::RdbAreaInvalid { lo: first, hi: last }) => first == lo && last
                    == hi && reachable && lo > hi,
                Err(CommitError::RdskOutsideRdbArea { rdsk_block, hi: last }) => rdsk_block
                    == t.rdsk_block && last == hi && reachable && lo <= hi < t.rdsk_block,
                Err(CommitError::RdbAreaTooSmall { needed, available, lo: first, hi: last }) => {
                    &&& available == hi - lo + 1
                    &&& needed > available
                    &&& needed == needed_from(t, lo) || needed == u64::MAX < needed_from(t, lo)
                    &&& first == lo
                    &&& last == hi
                    &&& reachable
                    &&& lo <= hi
                    &&& t.rdsk_block <= hi
                },
                Err(e) => e !is OutsideRdbArea && e !is Seal,
            }
            &&& reachable && lo <= hi && t.rdsk_block <= hi && needed_from(t, lo) <= hi - lo + 1
                <==> is_accepted(r)
            &&& !is_accepted(r) ==> after == before
        }),
{
    format_laws::lemma_number(t.rdsk, 128);
    format_laws::lemma_number(t.rdsk, 132);
    lemma_driver_block_count(t.drivers);
    assert(t.blocks().len() == t.parts.len() + driver_block_count(t.drivers) + t.badbs.len());
    if let Err(CommitError::Io(e)) = r {
        let (assigned, zeroed) = choose|assigned: Seq<u64>, zeroed: Seq<u64>| #[trigger]
            commit::is_plan(t, assigned, zeroed) && media::broke_off(
                after,
                before,
                commit::commit_writes(t, assigned, zeroed),
                e,
            );
        let writes = commit::commit_writes(t, assigned, zeroed);
        let k = choose|k: int| media::broke_off_at(after, before, writes, e, k);
        assert(before.write_fails(writes[k].0, e));
    }
}

} // verus!
