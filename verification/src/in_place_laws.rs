//! What a commit of a table that stays where it was found changes.
use vstd::prelude::*;

use crate::bytes::CHAIN_END;
use crate::edit_error::{CommitError, CommitReport};
use crate::media::{BlockSink, Medium};
use crate::model::Rdb;
use crate::table::Table;
use crate::{
    bytes, chain, checksum, commit, commit_laws, fshd, hdr, id, media, model, parse, part, patch,
    plan, rdsk, table, walk,
};

verus! {

broadcast use crate::bytes::group_long_axioms;

/// Where the blocks of a table were found.
pub open spec fn found(t: Table) -> Seq<u64> {
    Seq::new(t.blocks().len(), |i: int| t.blocks()[i].lba)
}

/// Block `i` of a table leads where its slot says.
pub open spec fn leads_as_slotted(t: Table, i: int) -> bool {
    &&& walk::next_of(t.blocks()[i].bytes) == plan::pointer(found(t), t.slots()[i].next)
    &&& t.slots()[i].is_fshd ==> model::seg_list_of(t.blocks()[i].bytes) == plan::pointer(
        found(t),
        t.slots()[i].seg,
    )
    &&& !t.slots()[i].is_fshd ==> t.slots()[i].seg is None
}

/// The `PART` blocks of an opened table lead where its slots say.
proof fn lemma_part_pointers(m: Medium, rdb: Rdb, chains: Seq<Seq<u64>>, t: Table, i: int)
    requires
        table::opened_as(m, rdb, chains, t),
        t.wf(),
        t.blocks().len() <= usize::MAX,
        0 <= i < t.drivers_from(),
    ensures
        leads_as_slotted(t, i),
{
    let p = t.drivers_from();
    commit::lemma_slots_len(t);
    commit::lemma_slot(t, i);
    reveal(walk::is_walk);
    let lbas = parse::part_lbas(rdb);
    assert(lbas =~= Seq::new(rdb.partitions@.len(), |i: int| rdb.partitions@[i].part_block));
    assert(t.blocks()[i] == t.parts[i]);
    assert(t.parts[i].lba == lbas[i]);
    assert(t.slots()[i] == table::chain_slots(t.parts, 0)[i]);
    if i + 1 < p {
        assert(found(t)[i + 1] == lbas[i + 1]) by {
            assert(t.blocks()[i + 1] == t.parts[i + 1]);
        }
    }
}

/// A block of a chain points at the next, and the last at nothing.
proof fn lemma_chain_links(m: Medium, head: u32, id: u32, lbas: Seq<u64>, j: int)
    requires
        walk::is_chain(m, head, id, lbas),
        0 <= j < lbas.len(),
    ensures
        head == lbas[0] as u32,
        walk::next_of(m.blocks[lbas[j]]) == if j + 1 < lbas.len() {
            lbas[j + 1] as u32
        } else {
            CHAIN_END
        },
{
    reveal(walk::is_walk);
}

/// A chain of no blocks has no head.
proof fn lemma_empty_chain(m: Medium, head: u32, id: u32, lbas: Seq<u64>)
    requires
        walk::is_chain(m, head, id, lbas),
        lbas.len() == 0,
    ensures
        head == CHAIN_END,
{
    reveal(walk::is_walk);
}

/// The `FSHD` blocks of an opened table lead where its slots say.
proof fn lemma_header_pointers(m: Medium, rdb: Rdb, chains: Seq<Seq<u64>>, t: Table, f: int)
    requires
        table::opened_as(m, rdb, chains, t),
        t.wf(),
        t.blocks().len() <= usize::MAX,
        0 <= f < t.drivers.len(),
    ensures
        leads_as_slotted(t, commit_laws::fshd_places(t)[f]),
{
    let at = commit_laws::fshd_places(t)[f];
    let heads = parse::fshd_lbas(rdb);
    let lbas = chains[f];
    commit_laws::lemma_driver_entries(t, f);
    commit::lemma_slot(t, at);
    assert(heads =~= Seq::new(rdb.filesystems@.len(), |i: int| rdb.filesystems@[i].fshd_block));
    assert(walk::is_chain(m, rdb.filesystems@[f].seg_list_blocks, id::LSEG, lbas));
    assert(t.blocks()[at].lba == heads[f]);
    assert(model::fshd_reads(rdb.filesystems@[f], m.blocks[heads[f]], heads[f]));
    lemma_chain_links(m, rdb.filesys_header_list, id::FSHD, heads, f);
    if f + 1 < t.drivers.len() {
        commit_laws::lemma_driver_entries(t, f + 1);
        assert(found(t)[commit_laws::fshd_places(t)[f + 1]] == heads[f + 1]);
    }
    if lbas.len() > 0 {
        lemma_chain_links(m, rdb.filesystems@[f].seg_list_blocks, id::LSEG, lbas, 0);
        assert(commit_laws::lseg_places(t, f)[0] == at + 1);
        assert(t.blocks()[at + 1] == t.drivers[f].chain[0]);
        assert(found(t)[at + 1] == lbas[0]);
    } else {
        lemma_empty_chain(m, rdb.filesystems@[f].seg_list_blocks, id::LSEG, lbas);
    }
}

/// The `LSEG` blocks of an opened table lead where its slots say.
proof fn lemma_lseg_pointers(m: Medium, rdb: Rdb, chains: Seq<Seq<u64>>, t: Table, f: int, j: int)
    requires
        table::opened_as(m, rdb, chains, t),
        t.wf(),
        t.blocks().len() <= usize::MAX,
        0 <= f < t.drivers.len(),
        0 <= j < t.drivers[f].chain.len(),
    ensures
        leads_as_slotted(t, commit_laws::lseg_places(t, f)[j]),
{
    let i = commit_laws::lseg_places(t, f)[j];
    let lbas = chains[f];
    commit_laws::lemma_driver_entries(t, f);
    commit::lemma_slot(t, i);
    assert(walk::is_chain(m, rdb.filesystems@[f].seg_list_blocks, id::LSEG, lbas));
    assert(t.blocks()[i] == t.drivers[f].chain[j]);
    assert(t.blocks()[i].lba == lbas[j]);
    lemma_chain_links(m, rdb.filesystems@[f].seg_list_blocks, id::LSEG, lbas, j);
    if j + 1 < lbas.len() {
        assert(commit_laws::lseg_places(t, f)[j + 1] == i + 1);
        assert(t.blocks()[i + 1] == t.drivers[f].chain[j + 1]);
        assert(found(t)[i + 1] == lbas[j + 1]);
    }
}

/// The `FSHD` and `LSEG` blocks of an opened table lead where its slots say.
proof fn lemma_driver_pointers(m: Medium, rdb: Rdb, chains: Seq<Seq<u64>>, t: Table, i: int)
    requires
        table::opened_as(m, rdb, chains, t),
        t.wf(),
        t.blocks().len() <= usize::MAX,
        t.drivers_from() <= i < t.badbs_from(),
    ensures
        leads_as_slotted(t, i),
{
    let (f, j) = table::lemma_driver_block(t.drivers, i - t.drivers_from());
    commit_laws::lemma_driver_entries(t, f);
    if j == -1 {
        assert(i == commit_laws::fshd_places(t)[f]);
        lemma_header_pointers(m, rdb, chains, t, f);
    } else {
        assert(i == commit_laws::lseg_places(t, f)[j]);
        lemma_lseg_pointers(m, rdb, chains, t, f, j);
    }
}

/// The `BADB` blocks of an opened table lead where its slots say.
proof fn lemma_badb_pointers(m: Medium, rdb: Rdb, chains: Seq<Seq<u64>>, t: Table, i: int)
    requires
        table::opened_as(m, rdb, chains, t),
        t.wf(),
        t.blocks().len() <= usize::MAX,
        t.badbs_from() <= i < t.blocks().len(),
    ensures
        leads_as_slotted(t, i),
{
    let q = t.badbs_from();
    commit::lemma_slots_len(t);
    commit::lemma_slot(t, i);
    reveal(walk::is_walk);
    let lbas = rdb.badb_blocks@;
    assert(t.blocks()[i] == t.badbs[i - q]);
    assert(t.badbs[i - q].lba == lbas[i - q]);
    assert(t.slots()[i] == table::chain_slots(t.badbs, q)[i - q]);
    if i - q + 1 < lbas.len() {
        assert(found(t)[i + 1] == lbas[i - q + 1]) by {
            assert(t.blocks()[i + 1] == t.badbs[i - q + 1]);
        }
    }
}

/// The blocks of an opened table lead where its slots say, and what was recorded
/// of them says so too.
proof fn lemma_opened_pointers(m: Medium, rdb: Rdb, chains: Seq<Seq<u64>>, t: Table, i: int)
    requires
        table::opened_as(m, rdb, chains, t),
        t.wf(),
        0 <= i < t.blocks().len() <= usize::MAX,
    ensures
        leads_as_slotted(t, i),
        t.original.contains_key(t.blocks()[i].lba),
        t.original[t.blocks()[i].lba].next == plan::pointer(found(t), t.slots()[i].next),
        t.original[t.blocks()[i].lba].seg_list == plan::pointer(found(t), t.slots()[i].seg),
{
    assert(t.original[t.blocks()[i].lba] == table::links_of(t.blocks()[i], t.slots()[i].is_fshd));
    if i < t.drivers_from() {
        lemma_part_pointers(m, rdb, chains, t, i);
    } else if i < t.badbs_from() {
        lemma_driver_pointers(m, rdb, chains, t, i);
    } else {
        lemma_badb_pointers(m, rdb, chains, t, i);
    }
}

/// `t` is the table `t0` with the same structures in the same places: what its
/// blocks say may have been edited, but not where they point.
pub open spec fn edited_in_place(t0: Table, t: Table) -> bool {
    &&& t.wf()
    &&& t.block_size == t0.block_size
    &&& t.rdsk_block == t0.rdsk_block
    &&& t.original == t0.original
    &&& t.opened_hi == t0.opened_hi
    &&& t.parts.len() == t0.parts.len()
    &&& t.badbs.len() == t0.badbs.len()
    &&& t.slots() == t0.slots()
    &&& forall|i: int|
        0 <= i < t.blocks().len() ==> {
            &&& walk::next_of((#[trigger] t.blocks()[i]).bytes) == walk::next_of(
                t0.blocks()[i].bytes,
            )
            &&& t.slots()[i].is_fshd ==> model::seg_list_of(t.blocks()[i].bytes)
                == model::seg_list_of(t0.blocks()[i].bytes)
        }
    &&& same_heads(t0.rdsk, t.rdsk)
}

/// Two `RDSK` blocks head the same chains.
pub open spec fn same_heads(a: Seq<u8>, b: Seq<u8>) -> bool {
    &&& bytes::long_at(a, rdsk::PARTITION_LIST as int) == bytes::long_at(
        b,
        rdsk::PARTITION_LIST as int,
    )
    &&& bytes::long_at(a, rdsk::FILESYS_HEADER_LIST as int) == bytes::long_at(
        b,
        rdsk::FILESYS_HEADER_LIST as int,
    )
    &&& bytes::long_at(a, rdsk::BAD_BLOCK_LIST as int) == bytes::long_at(
        b,
        rdsk::BAD_BLOCK_LIST as int,
    )
}

/// The area of the table is not inverted, reaches up to the `RDSK`, and holds
/// every block of the table.
pub open spec fn inside_area(t: Table) -> bool {
    &&& t.area().lo <= t.area().hi
    &&& t.area().rdsk <= t.area().hi
    &&& forall|i: int| 0 <= i < t.blocks().len() ==> t.area().holds((#[trigger] t.blocks()[i]).lba)
}

/// The blocks of tables with the same structures were found in the same places.
proof fn lemma_same_places(t0: Table, t: Table)
    requires
        t.slots() == t0.slots(),
        t0.blocks().len() <= usize::MAX,
    ensures
        t.blocks().len() == t0.blocks().len(),
        found(t) == found(t0),
{
    commit::lemma_slots_len(t);
    commit::lemma_slots_len(t0);
    assert forall|i: int| 0 <= i < t.blocks().len() implies found(t)[i] == found(t0)[i] by {
        commit::lemma_slot(t, i);
        commit::lemma_slot(t0, i);
    }
    assert(found(t) =~= found(t0));
}

/// A table that was opened, and edited in place if at all, stays where it was
/// found as long as its area holds it: a commit is not refused for want of room,
/// moves nothing and zeroes nothing.
pub proof fn law_edit_in_place_moves_nothing(
    m: Medium,
    rdb: Rdb,
    chains: Seq<Seq<u64>>,
    t0: Table,
    t: Table,
)
    requires
        table::opened_as(m, rdb, chains, t0),
        t0.wf(),
        t0.blocks().len() <= usize::MAX,
        edited_in_place(t0, t),
        inside_area(t),
    ensures
        commit::plan_refusal::<()>(t) is None,
        commit::is_plan(t, found(t0), Seq::empty()),
        forall|assigned: Seq<u64>, zeroed: Seq<u64>| #[trigger]
            commit::is_plan(t, assigned, zeroed) ==> assigned == found(t0) && zeroed.len() == 0,
{
    let slots = t.slots();
    let area = t.area();
    let a = found(t0);
    lemma_same_places(t0, t);
    commit::lemma_slots_len(t);
    let relocate = plan::relocated(slots, area, t.original, 0);
    assert forall|i: int| 0 <= i < slots.len() implies {
        &&& plan::keeps(slots, area, relocate, i)
        &&& #[trigger] a[i] == slots[i].lba
        &&& !plan::splices(slots, t.original, a, i)
    } by {
        commit::lemma_slot(t, i);
        assert(area.holds(t.blocks()[i].lba));
        assert(a[i] == found(t)[i]);
        lemma_opened_pointers(m, rdb, chains, t0, i);
    }
    assert(plan::is_assignment(slots, area, t.original, relocate, a));
    assert(plan::more_relocated(slots, t.original, relocate, a) =~= relocate) by {
        assert forall|i: int| 0 <= i < slots.len() implies plan::more_relocated(
            slots,
            t.original,
            relocate,
            a,
        )[i] == relocate[i] by {
            assert(a[i] == slots[i].lba);
        }
    }
    assert(plan::settles_at(slots, area, t.original, a, 0));
    commit::lemma_plannable(t);
    plan::lemma_assignment_fits(slots, area, t.original, relocate, a);
    let none = Seq::<u64>::empty();
    assert forall|b: u64| area.holds(b) && t.original.contains_key(b) implies plan::is_used(
        area,
        a,
        b,
    ) by {
        let i = choose|i: int| 0 <= i < t0.blocks().len() && (#[trigger] t0.blocks()[i]).lba == b;
        assert(a[i] == b);
        assert(a.contains(b));
    }
    assert(plan::is_zeroed(area, t.original, a, none));
    assert(commit::is_plan(t, a, none));
    assert forall|assigned: Seq<u64>, zeroed: Seq<u64>| #[trigger]
        commit::is_plan(t, assigned, zeroed) implies assigned == a && zeroed.len() == 0 by {
        commit::law_plan_is_unique(t, assigned, zeroed, a, none);
    }
}

/// A block that stays where it was found is written as it is held, sealed again.
proof fn lemma_block_in_place(
    m: Medium,
    rdb: Rdb,
    chains: Seq<Seq<u64>>,
    t0: Table,
    t: Table,
    i: int,
)
    requires
        table::opened_as(m, rdb, chains, t0),
        t0.wf(),
        t0.blocks().len() <= usize::MAX,
        edited_in_place(t0, t),
        0 <= i < t0.blocks().len(),
    ensures
        commit::block_image(t, found(t0), i) == checksum::resealed(t.blocks()[i].bytes),
        t.blocks()[i].bytes == t0.blocks()[i].bytes ==> commit::block_image(t, found(t0), i)
            == m.blocks[found(t0)[i]],
{
    let b = t.blocks()[i].bytes;
    lemma_same_places(t0, t);
    commit::lemma_block_sound(t, i);
    table::lemma_opened_bytes(m, rdb, chains, t0, i);
    lemma_opened_pointers(m, rdb, chains, t0, i);
    assert(walk::next_of(b) == walk::next_of(t0.blocks()[i].bytes));
    bytes::lemma_with_long_same_value(b, chain::NEXT as int);
    bytes::lemma_with_long_same_value(b, fshd::SEG_LIST as int);
    if b == t0.blocks()[i].bytes {
        checksum::law_resealing_a_good_block_is_identity(b);
    }
}

/// The heads of the chains of an opened table are its first structures.
proof fn lemma_opened_heads(m: Medium, rdb: Rdb, chains: Seq<Seq<u64>>, t: Table)
    requires
        table::opened_as(m, rdb, chains, t),
        t.wf(),
        t.blocks().len() <= usize::MAX,
    ensures
        bytes::long_at(t.rdsk, rdsk::PARTITION_LIST as int) == commit::head_pointer(
            found(t),
            0,
            t.drivers_from(),
        ),
        bytes::long_at(t.rdsk, rdsk::FILESYS_HEADER_LIST as int) == commit::head_pointer(
            found(t),
            t.drivers_from(),
            t.badbs_from(),
        ),
        bytes::long_at(t.rdsk, rdsk::BAD_BLOCK_LIST as int) == commit::head_pointer(
            found(t),
            t.badbs_from(),
            t.blocks().len() as int,
        ),
{
    let a = found(t);
    commit_laws::lemma_heads(t, a);
    let parts = parse::part_lbas(rdb);
    let fshds = parse::fshd_lbas(rdb);
    assert(parts =~= Seq::new(rdb.partitions@.len(), |i: int| rdb.partitions@[i].part_block));
    assert(fshds =~= Seq::new(rdb.filesystems@.len(), |i: int| rdb.filesystems@[i].fshd_block));
    reveal(walk::is_walk);
    if t.parts.len() > 0 {
        assert(t.blocks()[0] == t.parts[0]);
        assert(a[0] == parts[0]);
    }
    if t.drivers.len() > 0 {
        commit_laws::lemma_driver_entries(t, 0);
        assert(a[t.drivers_from()] == fshds[0]);
    }
    if t.badbs.len() > 0 {
        assert(t.blocks()[t.badbs_from()] == t.badbs[0]);
        assert(a[t.badbs_from()] == rdb.badb_blocks@[0]);
    }
}

/// The `RDSK` block of a table that stays where it was found is written as it is
/// held, with its high-water mark recomputed, and sealed again.
proof fn lemma_rdsk_in_place(m: Medium, rdb: Rdb, chains: Seq<Seq<u64>>, t0: Table, t: Table)
    requires
        table::opened_as(m, rdb, chains, t0),
        t0.wf(),
        t0.blocks().len() <= usize::MAX,
        edited_in_place(t0, t),
    ensures
        ({
            let high = plan::highest(t.area(), found(t0)) as u32;
            &&& commit::rdsk_image(t, found(t0)) == checksum::resealed(
                bytes::with_long(t.rdsk, rdsk::HIGH_RDSK_BLOCK as int, high),
            )
            &&& t.rdsk == t0.rdsk && rdb.high_rdsk_block == high ==> commit::rdsk_image(
                t,
                found(t0),
            ) == m.blocks[t.rdsk_block]
        }),
{
    let b = t.rdsk;
    lemma_same_places(t0, t);
    lemma_opened_heads(m, rdb, chains, t0);
    bytes::lemma_with_long_same_value(b, rdsk::PARTITION_LIST as int);
    bytes::lemma_with_long_same_value(b, rdsk::FILESYS_HEADER_LIST as int);
    bytes::lemma_with_long_same_value(b, rdsk::BAD_BLOCK_LIST as int);
    bytes::lemma_with_long_same_value(b, rdsk::HIGH_RDSK_BLOCK as int);
    if t.rdsk == t0.rdsk {
        checksum::law_resealing_a_good_block_is_identity(b);
    }
}

/// No write fails that committing a table takes which stays where it was found.
pub open spec fn writes_in_place<S: BlockSink>(sink: S, t0: Table) -> bool {
    media::writes_at(sink, t0.rdsk_block) && media::writes_all(sink, found(t0))
}

/// A device whose writes fail past its end alone can write every block of a
/// table that was opened from it.
pub proof fn law_opened_tables_lie_inside<S: BlockSink>(
    sink: S,
    rdb: Rdb,
    chains: Seq<Seq<u64>>,
    t: Table,
)
    requires
        media::writes_inside(sink),
        table::opened_as(sink.target(), rdb, chains, t),
    ensures
        writes_in_place(sink, t),
{
    let m = sink.target();
    assert(m.has(t.rdsk_block));
    assert forall|i: int| 0 <= i < found(t).len() implies media::writes_at(
        sink,
        #[trigger] found(t)[i],
    ) by {
        table::lemma_opened_bytes(m, rdb, chains, t, i);
        assert(m.has(t.blocks()[i].lba));
    }
}

/// Where every block it writes can be written, such a commit does not break off.
proof fn lemma_succeeds_in_place<S: BlockSink>(
    t0: Table,
    t: Table,
    before: S,
    after: S,
    e: S::Error,
)
    requires
        commit_laws::planned(t, found(t0), Seq::empty()),
        found(t).len() == t.blocks().len(),
        t.rdsk_block == t0.rdsk_block,
        writes_in_place(before, t0),
    ensures
        !media::broke_off(after, before, commit::commit_writes(t, found(t0), Seq::empty()), e),
{
    let a = found(t0);
    let none = Seq::<u64>::empty();
    let w = commit::commit_writes(t, a, none);
    let n = t.blocks().len() as int;
    commit::lemma_plan_places(t, a, none);
    commit_laws::law_commit_publishes_last(t, a, none);
    if media::broke_off(after, before, w, e) {
        let k = choose|k: int| media::broke_off_at(after, before, w, e, k);
        if k < n {
            let i = commit::lemma_write_of(t, a, none, k);
            assert(media::writes_at(before, a[i]));
        } else {
            assert(w.len() == n + 1);
            assert(media::writes_at(before, t0.rdsk_block));
        }
    }
}

/// What a commit of a table that stays where it was found leaves: every block
/// of the table as it is held, sealed again, the `RDSK` block with its high-water
/// mark recomputed, and every other block as it was.
pub open spec fn written_in_place(m: Medium, after: Medium, t0: Table, t: Table) -> bool {
    let high = plan::highest(t.area(), found(t0)) as u32;
    &&& after.block_size == m.block_size
    &&& after.block_count == m.block_count
    &&& forall|i: int|
        0 <= i < t.blocks().len() ==> after.blocks[#[trigger] found(t0)[i]] == checksum::resealed(
            t.blocks()[i].bytes,
        )
    &&& after.blocks[t.rdsk_block] == checksum::resealed(
        bytes::with_long(t.rdsk, rdsk::HIGH_RDSK_BLOCK as int, high),
    )
    &&& forall|lba: u64|
        lba != t.rdsk_block && !found(t0).contains(lba) ==> #[trigger] after.blocks[lba]
            == m.blocks[lba]
    &&& forall|i: int|
        0 <= i < t.blocks().len() && t.blocks()[i].bytes == t0.blocks()[i].bytes
            ==> after.blocks[#[trigger] found(t0)[i]] == m.blocks[found(t0)[i]]
    &&& t.rdsk == t0.rdsk && bytes::long_at(t.rdsk, rdsk::HIGH_RDSK_BLOCK as int) == high
        ==> after.blocks[t.rdsk_block] == m.blocks[t.rdsk_block]
}

/// What a commit that moves nothing reports: the blocks of the table where they
/// were, and none zeroed.
pub open spec fn reports_in_place(t0: Table, t: Table, rdb: Rdb, report: CommitReport) -> bool {
    &&& report.rdsk_block == rdb.rdsk_block
    &&& report.rdb_blocks_hi == t.hi()
    &&& report.high_rdsk_block == plan::highest(t.area(), found(t0)) as u32
    &&& report.part_blocks@ == parse::part_lbas(rdb)
    &&& report.blocks_zeroed@.len() == 0
}

/// Committing a table that was opened and edited in place, and that its area
/// holds, succeeds, unless a write of its own blocks fails, and changes only what was edited and
/// the checksums over it: nothing moves, and nothing is zeroed.
pub proof fn law_edit_in_place_changes_what_was_edited<S: BlockSink>(
    rdb: Rdb,
    chains: Seq<Seq<u64>>,
    t0: Table,
    t: Table,
    before: S,
    after: S,
    r: Result<CommitReport, CommitError<S::Error>>,
)
    requires
        table::opened_as(before.target(), rdb, chains, t0),
        t0.wf(),
        t0.blocks().len() <= usize::MAX,
        edited_in_place(t0, t),
        inside_area(t),
        t.hi() == t.opened_hi || before.target().has(t.hi() as u64),
        writes_in_place(before, t0),
        commit::commit_outcome(t, before, after, r),
    ensures
        r matches Ok(report) && reports_in_place(t0, t, rdb, report),
        written_in_place(before.target(), after.target(), t0, t),
{
    let m = before.target();
    let a = found(t0);
    let none = Seq::<u64>::empty();
    lemma_same_places(t0, t);
    law_edit_in_place_moves_nothing(m, rdb, chains, t0, t);
    assert(r is Ok) by {
        if let Err(CommitError::Io(e)) = r {
            let (assigned, zeroed) = choose|assigned: Seq<u64>, zeroed: Seq<u64>| #[trigger]
                commit::is_plan(t, assigned, zeroed) && media::broke_off(
                    after,
                    before,
                    commit::commit_writes(t, assigned, zeroed),
                    e,
                );
            assert(assigned == a && zeroed =~= none);
            lemma_succeeds_in_place(t0, t, before, after, e);
        }
    }
    let report = r->Ok_0;
    let (assigned, zeroed) = choose|assigned: Seq<u64>, zeroed: Seq<u64>|
        {
            &&& #[trigger] commit::is_plan(t, assigned, zeroed)
            &&& commit::is_report(t, assigned, zeroed, report)
            &&& after.target() == media::after_writes(
                m,
                commit::commit_writes(t, assigned, zeroed),
            )
        };
    assert(assigned == a && zeroed =~= none);
    assert(a.take(t.drivers_from()) =~= parse::part_lbas(rdb)) by {
        assert(parse::part_lbas(rdb) =~= Seq::new(
            rdb.partitions@.len(),
            |i: int| rdb.partitions@[i].part_block,
        ));
        assert forall|i: int| 0 <= i < t0.parts.len() implies a[i] == parse::part_lbas(rdb)[i] by {
            assert(t0.blocks()[i] == t0.parts[i]);
        }
    }
    lemma_left_in_place(m, rdb, chains, t0, t, after.target());
}

/// What the blocks are after such a commit.
proof fn lemma_left_in_place(
    m: Medium,
    rdb: Rdb,
    chains: Seq<Seq<u64>>,
    t0: Table,
    t: Table,
    after: Medium,
)
    requires
        table::opened_as(m, rdb, chains, t0),
        t0.wf(),
        t0.blocks().len() <= usize::MAX,
        edited_in_place(t0, t),
        commit_laws::planned(t, found(t0), Seq::empty()),
        after == media::after_writes(m, commit::commit_writes(t, found(t0), Seq::empty())),
    ensures
        written_in_place(m, after, t0, t),
{
    let a = found(t0);
    let none = Seq::<u64>::empty();
    let writes = commit::commit_writes(t, a, none);
    let n = writes.len() as int;
    lemma_same_places(t0, t);
    assert(writes.take(n) =~= writes);
    commit_laws::lemma_writes_apart(t, a, none);
    commit_laws::lemma_state(m, t, a, none, n);
    lemma_rdsk_in_place(m, rdb, chains, t0, t);
    assert forall|i: int| 0 <= i < t.blocks().len() implies {
        &&& after.blocks[#[trigger] a[i]] == checksum::resealed(t.blocks()[i].bytes)
        &&& t.blocks()[i].bytes == t0.blocks()[i].bytes ==> after.blocks[a[i]] == m.blocks[a[i]]
    } by {
        commit_laws::lemma_turn(t, a, none, i);
        lemma_block_in_place(m, rdb, chains, t0, t, i);
    }
}

/// Committing a table that was opened and not edited, and that its area holds,
/// succeeds, unless a write of its own blocks fails, and changes nothing but `rdb_HighRDSKBlock`,
/// which is recomputed; where it was right, no block changes at all. The report
/// says where everything is, and that nothing was zeroed.
pub proof fn law_commit_without_edits_changes_nothing<S: BlockSink>(
    rdb: Rdb,
    chains: Seq<Seq<u64>>,
    t: Table,
    before: S,
    after: S,
    r: Result<CommitReport, CommitError<S::Error>>,
)
    requires
        table::opened_as(before.target(), rdb, chains, t),
        t.wf(),
        t.blocks().len() <= usize::MAX,
        inside_area(t),
        writes_in_place(before, t),
        commit::commit_outcome(t, before, after, r),
    ensures
        ({
            let m = before.target();
            let n = after.target();
            let high = plan::highest(t.area(), found(t)) as u32;
            &&& r matches Ok(report) && {
                &&& reports_in_place(t, t, rdb, report)
                &&& report.rdb_blocks_hi == rdb.rdb_blocks_hi
                &&& report.fshd_blocks@ == parse::fshd_lbas(rdb)
            }
            &&& n.block_size == m.block_size
            &&& n.block_count == m.block_count
            &&& forall|lba: u64| lba != t.rdsk_block ==> #[trigger] n.blocks[lba] == m.blocks[lba]
            &&& n.blocks[t.rdsk_block] == checksum::resealed(
                bytes::with_long(m.blocks[t.rdsk_block], rdsk::HIGH_RDSK_BLOCK as int, high),
            )
            &&& rdb.high_rdsk_block == high ==> n.blocks[t.rdsk_block] == m.blocks[t.rdsk_block]
        }),
{
    let m = before.target();
    let n = after.target();
    let a = found(t);
    law_edit_in_place_changes_what_was_edited(rdb, chains, t, t, before, after, r);
    assert forall|lba: u64| lba != t.rdsk_block implies #[trigger] n.blocks[lba]
        == m.blocks[lba] by {
        if a.contains(lba) {
            let i = choose|i: int| 0 <= i < a.len() && a[i] == lba;
            assert(n.blocks[a[i]] == m.blocks[a[i]]);
        }
    }
    let report = r->Ok_0;
    let heads = parse::fshd_lbas(rdb);
    assert(heads =~= Seq::new(rdb.filesystems@.len(), |i: int| rdb.filesystems@[i].fshd_block));
    law_edit_in_place_moves_nothing(m, rdb, chains, t, t);
    assert forall|f: int| 0 <= f < t.drivers.len() implies report.fshd_blocks@[f] == heads[f] by {
        commit_laws::lemma_driver_entries(t, f);
        assert(a[commit_laws::fshd_places(t)[f]] == heads[f]);
    }
    assert(report.fshd_blocks@ =~= heads);
}

/// Replacing what a `PART` block says, but not where it points, is an edit in
/// place.
pub proof fn law_part_edit_is_in_place(t: Table, i: int, b: Seq<u8>)
    requires
        t.wf(),
        0 <= i < t.parts.len(),
        table::sound_bytes(b, id::PART, t.block_size),
        walk::next_of(b) == walk::next_of(t.parts[i].bytes),
    ensures
        edited_in_place(t, t.with_part(i, b)),
        forall|k: int|
            0 <= k < t.blocks().len() && k != i ==> (#[trigger] t.with_part(i, b).blocks()[k]).bytes
                == t.blocks()[k].bytes,
        t.with_part(i, b).blocks()[i].bytes == b,
{
    let u = t.with_part(i, b);
    table::lemma_with_part_wf(t, i, b);
    assert(table::chain_slots(u.parts, 0) =~= table::chain_slots(t.parts, 0));
    assert forall|k: int| 0 <= k < t.blocks().len() && k != i implies (
    #[trigger] u.blocks()[k]).bytes == t.blocks()[k].bytes by {
        if k < t.parts.len() {
            assert(u.blocks()[k] == u.parts[k]);
            assert(t.blocks()[k] == t.parts[k]);
        } else {
            let rest = table::driver_blocks(t.drivers) + t.badbs;
            assert(t.blocks() =~= t.parts + rest);
            assert(u.blocks() =~= u.parts + rest);
        }
    }
    assert(u.blocks()[i] == u.parts[i]);
    assert(t.blocks()[i] == t.parts[i]);
    commit_laws::law_part_edit_descends(t, i, b);
    lemma_part_is_no_fshd(t, i);
    assert(u.slots() =~= t.slots());
}

/// A `PART` block is no `FSHD`.
proof fn lemma_part_is_no_fshd(t: Table, i: int)
    requires
        0 <= i < t.parts.len(),
    ensures
        !t.slots()[i].is_fshd,
{
    assert(t.slots()[i] == table::chain_slots(t.parts, 0)[i]);
}

/// Setting one field of one partition, where its envec already reaches that
/// field, and committing: the bytes of the field and the `ChkSum` of that `PART`
/// block are all that may differ on the disk.
pub proof fn law_field_edit_changes_that_field<S: BlockSink>(
    rdb: Rdb,
    chains: Seq<Seq<u64>>,
    t0: Table,
    i: int,
    field: int,
    value: u32,
    before: S,
    after: S,
    r: Result<CommitReport, CommitError<S::Error>>,
)
    requires
        table::opened_as(before.target(), rdb, chains, t0),
        t0.wf(),
        t0.blocks().len() <= usize::MAX,
        inside_area(t0),
        rdb.high_rdsk_block == plan::highest(t0.area(), found(t0)) as u32,
        0 <= i < t0.parts.len(),
        0 < field < 96,
        field <= model::envec(t0.parts[i].bytes, crate::de::TABLE_SIZE as int),
        writes_in_place(before, t0),
        commit::commit_outcome(
            t0.with_part(i, patch::with_envec(t0.parts[i].bytes, field, value)),
            before,
            after,
            r,
        ),
    ensures
        ({
            let m = before.target();
            let n = after.target();
            let at = rdb.partitions@[i].part_block;
            let from = part::ENVIRONMENT + 4 * field;
            &&& r matches Ok(report) && {
                &&& report.part_blocks@ == parse::part_lbas(rdb)
                &&& report.blocks_zeroed@.len() == 0
            }
            &&& forall|lba: u64| lba != at ==> #[trigger] n.blocks[lba] == m.blocks[lba]
            &&& n.blocks[at].len() == m.blocks[at].len()
            &&& forall|j: int|
                0 <= j < m.blocks[at].len() && !(hdr::CHK_SUM <= j < hdr::CHK_SUM + 4) && !(from
                    <= j < from + 4) ==> #[trigger] n.blocks[at][j] == m.blocks[at][j]
            &&& bytes::long_at(n.blocks[at], from) == value
        }),
{
    let m = before.target();
    let n = after.target();
    let b = t0.parts[i].bytes;
    let w = patch::with_envec(b, field, value);
    let t = t0.with_part(i, w);
    let a = found(t0);
    patch::law_set_envec_in_reach_changes_one_field(b, field, value);
    assert(table::sound_bytes(b, id::PART, t0.block_size));
    law_part_edit_is_in_place(t0, i, w);
    lemma_same_places(t0, t);
    assert(inside_area(t)) by {
        assert forall|k: int| 0 <= k < t.blocks().len() implies t.area().holds(
            (#[trigger] t.blocks()[k]).lba,
        ) by {
            assert(found(t)[k] == found(t0)[k]);
            assert(t0.area().holds(t0.blocks()[k].lba));
        }
    }
    law_edit_in_place_changes_what_was_edited(rdb, chains, t0, t, before, after, r);
    let at = rdb.partitions@[i].part_block;
    assert(a[i] == at) by {
        assert(t0.blocks()[i] == t0.parts[i]);
        assert(parse::part_lbas(rdb)[i] == at);
    }
    table::lemma_opened_bytes(m, rdb, chains, t0, i);
    assert(t0.blocks()[i] == t0.parts[i]);
    assert forall|lba: u64| lba != at implies #[trigger] n.blocks[lba] == m.blocks[lba] by {
        if a.contains(lba) {
            let k = choose|k: int| 0 <= k < a.len() && a[k] == lba;
            assert(t.blocks()[k].bytes == t0.blocks()[k].bytes);
            assert(n.blocks[a[k]] == m.blocks[a[k]]);
        }
    }
    assert(n.blocks[a[i]] == checksum::resealed(w));
    checksum::law_resealing_changes_the_checksum_alone(w);
}

} // verus!
