//! Where a commit puts the blocks of a table, and what it reports of it.
use vstd::prelude::*;

use crate::edit_error::CommitReport;
use crate::media::BlockSink;
use crate::table::Table;
use crate::{commit, commit_laws, format_laws, media, plan, room_laws, table};

verus! {

/// First block of the area a commit may use.
pub open spec fn area_start(t: Table) -> int {
    format_laws::number(t.rdsk, 128)
}

/// Last block of that area.
pub open spec fn area_end(t: Table) -> int {
    format_laws::number(t.rdsk, 132)
}

/// The new layout has a use for block `b`.
pub open spec fn has_use_for(t: Table, assigned: Seq<u64>, b: u64) -> bool {
    b == t.rdsk_block || exists|i: int| 0 <= i < assigned.len() && #[trigger] assigned[i] == b
}

/// `b` is the lowest block of the area, or all below it are the published table's
/// or in use.
pub open spec fn is_lowest_unused(t: Table, assigned: Seq<u64>, b: u64) -> bool {
    forall|c: u64|
        area_start(t) <= c < b ==> t.original.contains_key(c) || #[trigger] has_use_for(
            t,
            assigned,
            c,
        )
}

/// No block of the area is left that neither the published table nor the new one
/// uses.
pub open spec fn is_full(t: Table, assigned: Seq<u64>) -> bool {
    forall|c: u64|
        area_start(t) <= c <= area_end(t) ==> t.original.contains_key(c) || #[trigger] has_use_for(
            t,
            assigned,
            c,
        )
}

proof fn lemma_area(t: Table)
    ensures
        t.area().lo == area_start(t),
        t.area().hi == area_end(t),
{
    format_laws::lemma_number(t.rdsk, 128);
    format_laws::lemma_number(t.rdsk, 132);
}

/// A commit puts every block of the table on a block of its own in the area, none
/// on the `RDSK`. A block that moves goes to the lowest place that neither the
/// published table nor the new one uses, and onto the published table only where
/// no such place is left.
pub proof fn law_blocks_go_to_the_lowest_free_places(
    t: Table,
    assigned: Seq<u64>,
    zeroed: Seq<u64>,
)
    requires
        commit_laws::planned(t, assigned, zeroed),
    ensures
        assigned.len() == t.parts.len() + room_laws::driver_block_count(t.drivers)
            + t.badbs.len(),
        forall|i: int|
            0 <= i < assigned.len() ==> area_start(t) <= #[trigger] assigned[i] <= area_end(t)
                && assigned[i] != t.rdsk_block,
        forall|i: int, j: int|
            0 <= i < j < assigned.len() ==> #[trigger] assigned[i] != #[trigger] assigned[j],
        forall|i: int|
            0 <= i < assigned.len() && #[trigger] assigned[i] != t.blocks()[i].lba ==> if t
                .original.contains_key(assigned[i]) {
                is_full(t, assigned)
            } else {
                is_lowest_unused(t, assigned, assigned[i])
            },
{
    let slots = t.slots();
    let area = t.area();
    lemma_area(t);
    commit::lemma_plannable(t);
    commit::lemma_slots_len(t);
    room_laws::lemma_driver_block_count(t.drivers);
    let k = choose|k: nat| plan::settles_at(slots, area, t.original, assigned, k);
    let relocate = plan::relocated(slots, area, t.original, k);
    plan::lemma_assignment_distinct(slots, area, t.original, relocate, assigned);
    assert forall|i: int|
        0 <= i < assigned.len() && #[trigger] assigned[i] != t.blocks()[i].lba implies if t
        .original.contains_key(assigned[i]) {
        is_full(t, assigned)
    } else {
        is_lowest_unused(t, assigned, assigned[i])
    } by {
        commit::lemma_slot(t, i);
        assert(!plan::keeps(slots, area, relocate, i));
        let taken = plan::taken_before(slots, area, relocate, assigned, i);
        assert(plan::is_pick(area, t.original, taken, assigned[i]));
        assert forall|c: u64| #[trigger] taken.contains(c) implies has_use_for(t, assigned, c) by {
            assert(plan::is_taken(slots, area, relocate, assigned, i, c));
        }
        assert forall|c: u64|
            area.holds(c) && !#[trigger] plan::is_fresh(
                area,
                t.original,
                taken,
                c,
            ) implies t.original.contains_key(c) || has_use_for(t, assigned, c) by {
            if !t.original.contains_key(c) {
                assert(taken.contains(c));
            }
        }
        if exists|c: u64| plan::is_fresh(area, t.original, taken, c) {
            assert forall|c: u64|
                area_start(t) <= c < assigned[i] implies t.original.contains_key(c)
                || #[trigger] has_use_for(t, assigned, c) by {
                assert(!plan::is_fresh(area, t.original, taken, c));
            }
        } else {
            assert forall|c: u64|
                area_start(t) <= c <= area_end(t) implies t.original.contains_key(c)
                || #[trigger] has_use_for(t, assigned, c) by {
                assert(!plan::is_fresh(area, t.original, taken, c));
            }
            assert(!plan::is_fresh(area, t.original, taken, assigned[i]));
        }
    }
}

/// What the published table used inside the area and the new one does not is
/// zeroed, every such block and no other, in ascending order.
pub proof fn law_what_is_left_is_zeroed(t: Table, assigned: Seq<u64>, zeroed: Seq<u64>, b: u64)
    requires
        commit::is_plan(t, assigned, zeroed),
    ensures
        forall|i: int, j: int|
            0 <= i < j < zeroed.len() ==> #[trigger] zeroed[i] < #[trigger] zeroed[j],
        (exists|i: int| 0 <= i < zeroed.len() && #[trigger] zeroed[i] == b) <==> {
            &&& area_start(t) <= b <= area_end(t)
            &&& t.original.contains_key(b)
            &&& !has_use_for(t, assigned, b)
        },
{
    lemma_area(t);
    assert(zeroed.contains(b) <==> t.area().holds(b) && t.original.contains_key(b)
        && !plan::is_used(t.area(), assigned, b));
    if exists|i: int| 0 <= i < zeroed.len() && #[trigger] zeroed[i] == b {
        assert(zeroed.contains(b));
    }
    if has_use_for(t, assigned, b) && b != t.rdsk_block {
        let i = choose|i: int| 0 <= i < assigned.len() && #[trigger] assigned[i] == b;
        assert(assigned.contains(b));
    }
}

/// The number of the block of the table at which filesystem `f` starts.
pub open spec fn header_place(t: Table, f: int) -> int {
    (t.parts.len() + room_laws::driver_block_count(t.drivers.take(f))) as int
}

/// A commit that succeeds reports what it did: where the `RDSK`, each partition
/// and each filesystem header are, the end of the area and the highest block in
/// use, and every block that was written and zeroed. No other block of the medium
/// has changed, and those that were zeroed hold zeros.
pub proof fn law_report_says_what_was_done<S: BlockSink>(
    t: Table,
    before: S,
    after: S,
    report: CommitReport,
)
    requires
        t.wf(),
        t.blocks().len() <= usize::MAX,
        commit::commit_outcome::<S>(t, before, after, Ok(report)),
    ensures
        exists|assigned: Seq<u64>|
            {
                &&& #[trigger] is_reported(t, assigned, report)
                &&& exists|zeroed: Seq<u64>| #[trigger]
                    commit_laws::planned(t, assigned, zeroed) && report.blocks_zeroed@ == zeroed
            },
        after.target().block_size == before.target().block_size,
        after.target().block_count == before.target().block_count,
        forall|b: u64|
            !report.blocks_written@.contains(b) ==> #[trigger] after.target().blocks[b]
                == before.target().blocks[b],
        forall|z: int|
            0 <= z < report.blocks_zeroed@.len() ==> {
                let b = #[trigger] report.blocks_zeroed@[z];
                &&& report.blocks_written@.contains(b)
                &&& after.target().blocks[b].len() == t.block_size
                &&& forall|i: int|
                    0 <= i < t.block_size ==> #[trigger] after.target().blocks[b][i] == 0
            },
        report.blocks_written@.contains(t.rdsk_block),
{
    let target = before.target();
    let (assigned, zeroed) = choose|assigned: Seq<u64>, zeroed: Seq<u64>|
        {
            &&& #[trigger] commit::is_plan(t, assigned, zeroed)
            &&& commit::is_report(t, assigned, zeroed, report)
            &&& after.target() == media::after_writes(
                target,
                commit::commit_writes(t, assigned, zeroed),
            )
        };
    let writes = commit::commit_writes(t, assigned, zeroed);
    assert(commit_laws::planned(t, assigned, zeroed));
    lemma_is_reported(t, assigned, zeroed, report);
    assert(is_reported(t, assigned, report));
    media::lemma_after_writes_frame(target, writes);
    assert forall|b: u64| !report.blocks_written@.contains(b) implies #[trigger] after.target()
        .blocks[b] == target.blocks[b] by {
        assert forall|k: int| 0 <= k < writes.len() implies (#[trigger] writes[k]).0 != b by {
            assert(report.blocks_written@[k] == writes[k].0);
        }
    }
    commit_laws::law_commit_publishes_last(t, assigned, zeroed);
    commit_laws::lemma_writes_apart(t, assigned, zeroed);
    let n = t.blocks().len() as int;
    assert forall|z: int| 0 <= z < report.blocks_zeroed@.len() implies {
        let b = #[trigger] report.blocks_zeroed@[z];
        &&& report.blocks_written@.contains(b)
        &&& after.target().blocks[b].len() == t.block_size
        &&& forall|i: int| 0 <= i < t.block_size ==> #[trigger] after.target().blocks[b][i] == 0
    } by {
        let k = n + 1 + z;
        assert(writes[k].0 == zeroed[z]);
        assert(report.blocks_written@[k] == writes[k].0);
        assert(writes[k] == commit::zero_writes(t, zeroed)[z]);
        media::lemma_after_writes_block(target, writes, k);
    }
    assert(report.blocks_written@[n] == writes[n].0);
}

/// The report is of this layout.
pub open spec fn is_reported(t: Table, assigned: Seq<u64>, report: CommitReport) -> bool {
    &&& report.rdsk_block == t.rdsk_block
    &&& report.rdb_blocks_hi == area_end(t)
    &&& report.high_rdsk_block >= t.rdsk_block
    &&& forall|i: int|
        0 <= i < assigned.len() ==> report.high_rdsk_block >= #[trigger] assigned[i]
    &&& has_use_for(t, assigned, report.high_rdsk_block as u64)
    &&& report.part_blocks@.len() == t.parts.len()
    &&& forall|i: int| 0 <= i < t.parts.len() ==> #[trigger] report.part_blocks@[i] == assigned[i]
    &&& report.fshd_blocks@.len() == t.drivers.len()
    &&& forall|f: int|
        0 <= f < t.drivers.len() ==> #[trigger] report.fshd_blocks@[f] == assigned[header_place(
            t,
            f,
        )]
    &&& report.blocks_written@.len() == assigned.len() + 1 + report.blocks_zeroed@.len()
    &&& forall|i: int| 0 <= i < assigned.len() ==> report.blocks_written@.contains(
        #[trigger] assigned[i],
    )
}

/// The highest block in use is in use, and none is higher.
proof fn lemma_high(t: Table, assigned: Seq<u64>, zeroed: Seq<u64>)
    requires
        commit_laws::planned(t, assigned, zeroed),
    ensures
        ({
            let high = plan::highest(t.area(), assigned);
            &&& t.rdsk_block <= high <= 0xFFFF_FFFF
            &&& has_use_for(t, assigned, high)
            &&& forall|i: int| 0 <= i < assigned.len() ==> high >= #[trigger] assigned[i]
        }),
{
    lemma_area(t);
    format_laws::lemma_number(t.rdsk, 132);
    law_blocks_go_to_the_lowest_free_places(t, assigned, zeroed);
    plan::lemma_highest(t.area(), assigned);
    let high = plan::highest(t.area(), assigned);
    assert(plan::is_used(t.area(), assigned, t.rdsk_block));
    assert forall|i: int| 0 <= i < assigned.len() implies high >= #[trigger] assigned[i] by {
        assert(plan::is_used(t.area(), assigned, assigned[i]));
    }
    assert(has_use_for(t, assigned, high)) by {
        if high != t.rdsk_block {
            let i = choose|i: int| 0 <= i < assigned.len() && assigned[i] == high;
            assert(assigned[i] == high);
        }
    }
    assert(high <= 0xFFFF_FFFF) by {
        if high != t.rdsk_block {
            let i = choose|i: int| 0 <= i < assigned.len() && assigned[i] == high;
            assert(assigned[i] <= area_end(t));
        }
    }
}

proof fn lemma_is_reported(t: Table, assigned: Seq<u64>, zeroed: Seq<u64>, report: CommitReport)
    requires
        commit_laws::planned(t, assigned, zeroed),
        commit::is_report(t, assigned, zeroed, report),
    ensures
        is_reported(t, assigned, report),
{
    let writes = commit::commit_writes(t, assigned, zeroed);
    lemma_area(t);
    law_blocks_go_to_the_lowest_free_places(t, assigned, zeroed);
    lemma_high(t, assigned, zeroed);
    commit::lemma_plan_places(t, assigned, zeroed);
    commit_laws::law_commit_publishes_last(t, assigned, zeroed);
    assert forall|i: int| 0 <= i < assigned.len() implies report.blocks_written@.contains(
        #[trigger] assigned[i],
    ) by {
        let k = commit_laws::turn(t, i);
        assert(writes[k].0 == assigned[i]);
        assert(report.blocks_written@[k] == writes[k].0);
    }
    assert forall|f: int| 0 <= f < t.drivers.len() implies #[trigger] report.fshd_blocks@[f]
        == assigned[header_place(t, f)] by {
        room_laws::lemma_driver_block_count(t.drivers.take(f));
    }
}

/// Structure `i` was found in the area, and it and everything behind it in its
/// chains is where the published pointers lead.
pub open spec fn is_undisturbed(t: Table, i: int) -> bool
    decreases t.slots().len() - i,
{
    let slot = t.slots()[i];
    let links = t.original[slot.lba];
    &&& 0 <= i < t.slots().len()
    &&& area_start(t) <= slot.lba <= area_end(t)
    &&& match slot.next {
        Some(k) => i < k < t.slots().len() && links.next == t.slots()[k as int].lba
            && is_undisturbed(t, k as int),
        None => links.next == 0xFFFF_FFFF,
    }
    &&& match slot.seg {
        Some(k) => i < k < t.slots().len() && links.seg_list == t.slots()[k as int].lba
            && is_undisturbed(t, k as int),
        None => links.seg_list == 0xFFFF_FFFF,
    }
}

/// No round moves a structure that is undisturbed.
proof fn lemma_undisturbed_stays(t: Table, k: nat, i: int)
    requires
        t.wf(),
        t.blocks().len() <= usize::MAX,
        t.area().lo <= t.area().hi,
        t.area().rdsk <= t.area().hi,
        t.area().needed(t.slots().len()) <= t.area().size(),
        is_undisturbed(t, i),
    ensures
        !plan::relocated(t.slots(), t.area(), t.original, k)[i],
    decreases k, t.slots().len() - i,
{
    let slots = t.slots();
    let area = t.area();
    lemma_area(t);
    reveal_with_fuel(is_undisturbed, 2);
    if k > 0 {
        let before = plan::relocated(slots, area, t.original, (k - 1) as nat);
        let a = plan::assignment(slots, area, t.original, before);
        commit::lemma_plannable(t);
        plan::lemma_assignment_exists(slots, area, t.original, before);
        lemma_undisturbed_stays(t, (k - 1) as nat, i);
        assert(plan::keeps(slots, area, before, i));
        assert(a[i] == slots[i].lba);
        if let Some(n) = slots[i].next {
            lemma_undisturbed_stays(t, (k - 1) as nat, n as int);
            assert(plan::keeps(slots, area, before, n as int));
            assert(a[n as int] == slots[n as int].lba);
        }
        if let Some(n) = slots[i].seg {
            lemma_undisturbed_stays(t, (k - 1) as nat, n as int);
            assert(plan::keeps(slots, area, before, n as int));
            assert(a[n as int] == slots[n as int].lba);
        }
        assert(!plan::splices(slots, t.original, a, i));
    }
}

/// What an edit leaves undisturbed stays where it is: a block moves only where it,
/// or something behind it in its chains, is not where the published pointers
/// lead.
pub proof fn law_undisturbed_blocks_stay(t: Table, assigned: Seq<u64>, zeroed: Seq<u64>, i: int)
    requires
        commit_laws::planned(t, assigned, zeroed),
        is_undisturbed(t, i),
    ensures
        assigned[i] == t.blocks()[i].lba,
{
    let slots = t.slots();
    let area = t.area();
    lemma_area(t);
    commit::lemma_slots_len(t);
    commit::lemma_slot(t, i);
    let k = choose|k: nat| plan::settles_at(slots, area, t.original, assigned, k);
    lemma_undisturbed_stays(t, k, i);
    assert(plan::keeps(slots, area, plan::relocated(slots, area, t.original, k), i));
}

/// The partitions from `i` on were found in the area, each where the published
/// pointer of the one before leads, and the last leads to the end.
pub open spec fn is_tail_undisturbed(t: Table, i: int) -> bool {
    &&& 0 <= i < t.parts.len()
    &&& forall|p: int|
        i <= p < t.parts.len() ==> {
            let links = t.original[(#[trigger] t.parts[p]).lba];
            &&& area_start(t) <= t.parts[p].lba <= area_end(t)
            &&& links.seg_list == 0xFFFF_FFFF
            &&& links.next == if p + 1 < t.parts.len() {
                t.parts[p + 1].lba
            } else {
                0xFFFF_FFFF
            }
        }
}

proof fn lemma_tail(t: Table, i: int)
    requires
        is_tail_undisturbed(t, i),
        t.parts.len() <= usize::MAX,
    ensures
        is_undisturbed(t, i),
    decreases t.parts.len() - i,
{
    commit::lemma_slots_len(t);
    assert(t.slots()[i] == table::chain_slots(t.parts, 0)[i]);
    assert(area_start(t) <= t.parts[i].lba <= area_end(t));
    if i + 1 < t.parts.len() {
        lemma_tail(t, i + 1);
        assert(t.slots()[i + 1] == table::chain_slots(t.parts, 0)[i + 1]);
        assert(t.slots()[i].next == Some((i + 1) as usize));
    }
}

/// A partition stays on its block where it and those behind it in the chain are
/// as the published table has them: adding and removing partitions before it, or
/// filesystems, moves no block of it.
pub proof fn law_tail_of_partitions_stays(t: Table, assigned: Seq<u64>, zeroed: Seq<u64>, i: int)
    requires
        commit_laws::planned(t, assigned, zeroed),
        is_tail_undisturbed(t, i),
    ensures
        assigned[i] == t.parts[i].lba,
{
    lemma_tail(t, i);
    law_undisturbed_blocks_stay(t, assigned, zeroed, i);
    assert(t.blocks()[i] == t.parts[i]);
}

} // verus!
