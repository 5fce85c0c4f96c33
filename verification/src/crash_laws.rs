//! What a commit that is interrupted leaves.
use vstd::prelude::*;

use crate::media::{BlockSource, Medium};
use crate::model::{FileSysHeader, Partition, Rdb};
use crate::table::{Table, UNPLACED_BLOCK};
use crate::walk::RdbError;
use crate::{bytes, checksum, commit, commit_laws, hdr, id, model, parse, plan, rdsk, table, walk};

verus! {

broadcast use crate::bytes::group_long_axioms;

/// No block of the table that is published is overwritten, unless it is as
/// itself and with the pointers that the published table reads there.
pub open spec fn keeps_clear(t: Table, assigned: Seq<u64>) -> bool {
    forall|i: int|
        0 <= i < t.blocks().len() && t.original.contains_key(#[trigger] assigned[i]) ==> {
            &&& assigned[i] == t.blocks()[i].lba
            &&& !plan::splices(t.slots(), t.original, assigned, i)
        }
}

/// While the area has any spare block, everything that has to move goes to a
/// block that the published table does not use: where a block of the area is
/// left that neither table uses, the published table is kept clear of.
pub proof fn law_spare_blocks_keep_clear(
    t: Table,
    assigned: Seq<u64>,
    zeroed: Seq<u64>,
    spare: u64,
)
    requires
        commit_laws::planned(t, assigned, zeroed),
        t.area().holds(spare),
        !t.original.contains_key(spare),
        !plan::is_used(t.area(), assigned, spare),
    ensures
        keeps_clear(t, assigned),
{
    let slots = t.slots();
    let area = t.area();
    commit::lemma_slots_len(t);
    let k = choose|k: nat| plan::settles_at(slots, area, t.original, assigned, k);
    let relocate = plan::relocated(slots, area, t.original, k);
    assert forall|i: int|
        0 <= i < t.blocks().len() && t.original.contains_key(#[trigger] assigned[i]) implies {
        &&& assigned[i] == t.blocks()[i].lba
        &&& !plan::splices(slots, t.original, assigned, i)
    } by {
        commit::lemma_slot(t, i);
        lemma_moves_to_spare(t, assigned, relocate, i, spare);
        if plan::keeps(slots, area, relocate, i) {
            assert(plan::more_relocated(slots, t.original, relocate, assigned)[i] == relocate[i]);
        }
    }
}

/// A structure that moves while a spare block is left goes to a block that the
/// published table does not use.
proof fn lemma_moves_to_spare(
    t: Table,
    assigned: Seq<u64>,
    relocate: Seq<bool>,
    i: int,
    spare: u64,
)
    requires
        plan::is_assignment(t.slots(), t.area(), t.original, relocate, assigned),
        0 <= i < t.slots().len(),
        t.area().holds(spare),
        !t.original.contains_key(spare),
        !plan::is_used(t.area(), assigned, spare),
    ensures
        plan::keeps(t.slots(), t.area(), relocate, i) ==> assigned[i] == t.slots()[i].lba,
        !plan::keeps(t.slots(), t.area(), relocate, i) ==> !t.original.contains_key(assigned[i]),
{
    let slots = t.slots();
    let area = t.area();
    assert(assigned[i] == assigned[i]);
    if !plan::keeps(slots, area, relocate, i) {
        let taken = plan::taken_before(slots, area, relocate, assigned, i);
        assert(!taken.contains(spare)) by {
            if plan::is_taken(slots, area, relocate, assigned, i, spare) {
                let j = choose|j: int|
                    0 <= j < slots.len() && (j < i || plan::keeps(slots, area, relocate, j))
                        && #[trigger] assigned[j] == spare;
                assert(assigned.contains(spare));
            }
        }
        assert(plan::is_fresh(area, t.original, taken, spare));
    }
}

/// An area with a spare block for every block of the table is room enough to
/// keep clear of the published table.
pub proof fn law_headroom_leaves_a_spare_block(
    t: Table,
    assigned: Seq<u64>,
    zeroed: Seq<u64>,
    spare: Seq<u64>,
)
    requires
        commit_laws::planned(t, assigned, zeroed),
        spare.no_duplicates(),
        spare.len() >= t.blocks().len(),
        forall|k: int|
            0 <= k < spare.len() ==> {
                &&& t.area().holds(#[trigger] spare[k])
                &&& spare[k] != t.rdsk_block
                &&& !t.original.contains_key(spare[k])
            },
    ensures
        keeps_clear(t, assigned),
{
    commit::lemma_plan_places(t, assigned, zeroed);
    let all = spare.to_set();
    let used = assigned.to_set();
    spare.unique_seq_to_set();
    assigned.unique_seq_to_set();
    if all.subset_of(used) {
        vstd::set_lib::lemma_len_subset(all, used);
        vstd::set_lib::lemma_subset_equality(all, used);
        assert forall|i: int| 0 <= i < t.blocks().len() implies !t.original.contains_key(
            #[trigger] assigned[i],
        ) by {
            assert(used.contains(assigned[i]));
            assert(spare.contains(assigned[i]));
        }
    } else {
        let b = choose|b: u64| all.contains(b) && !used.contains(b);
        assert(spare.contains(b));
        let k = choose|k: int| 0 <= k < spare.len() && spare[k] == b;
        assert(!assigned.contains(spare[k]));
        law_spare_blocks_keep_clear(t, assigned, zeroed, spare[k]);
    }
}

/// A block of a sound table is a `FSHD` where its slot says so.
proof fn lemma_fshd_slot(t: Table, i: int)
    requires
        t.wf(),
        0 <= i < t.blocks().len() <= usize::MAX,
    ensures
        t.slots()[i].is_fshd == (bytes::long_at(t.blocks()[i].bytes, hdr::ID as int) == id::FSHD),
{
    let p = t.drivers_from();
    let q = t.badbs_from();
    let n = t.drivers.len() as int;
    let middle = table::driver_slots(t.drivers, p, n);
    commit::lemma_slots_len(t);
    if i < p {
        assert(t.blocks()[i] == t.parts[i]);
        assert(t.slots()[i] == table::chain_slots(t.parts, 0)[i]);
    } else if i < q {
        let (f, j) = table::lemma_driver_block(t.drivers, i - p);
        let at = table::driver_blocks(t.drivers.take(f)).len() as int;
        table::lemma_driver_slots(t.drivers, p, n, f);
        assert(t.blocks()[i] == table::driver_blocks(t.drivers)[i - p]);
        assert(t.slots()[i] == middle[i - p]);
        if j >= 0 {
            assert(middle[at + 1 + j] == table::chain_slots(t.drivers[f].chain, p + at + 1)[j]);
            assert(table::sound_bytes(t.drivers[f].chain[j].bytes, id::LSEG, t.block_size));
        }
    } else {
        assert(t.blocks()[i] == t.badbs[i - q]);
        assert(t.slots()[i] == table::chain_slots(t.badbs, q)[i - q]);
    }
}

/// The table `t` was opened from `m` as `t0`, edited, and laid out clear of what
/// is published.
pub open spec fn edited(
    m: Medium,
    rdb: Rdb,
    chains: Seq<Seq<u64>>,
    t0: Table,
    t: Table,
    assigned: Seq<u64>,
    zeroed: Seq<u64>,
) -> bool {
    &&& table::opened_as(m, rdb, chains, t0)
    &&& t0.wf()
    &&& commit_laws::descends(t0, t)
    &&& commit_laws::planned(t, assigned, zeroed)
    &&& t0.blocks().len() <= usize::MAX
    &&& keeps_clear(t, assigned)
}

/// Before the `RDSK` block is written, a block of the published table is what it
/// was, or is written as itself with the pointers it had.
pub proof fn law_published_block_is_old_or_new(
    m: Medium,
    rdb: Rdb,
    chains: Seq<Seq<u64>>,
    t0: Table,
    t: Table,
    assigned: Seq<u64>,
    zeroed: Seq<u64>,
    k: int,
    j: int,
)
    requires
        edited(m, rdb, chains, t0, t, assigned, zeroed),
        0 <= k <= t.blocks().len(),
        0 <= j < t0.blocks().len(),
    ensures
        ({
            let s = commit_laws::state(m, t, assigned, zeroed, k);
            let lba = t0.blocks()[j].lba;
            let b = s.blocks[lba];
            &&& bytes::long_at(b, hdr::ID as int) == bytes::long_at(m.blocks[lba], hdr::ID as int)
            &&& checksum::checksum_holds(b)
            &&& walk::next_of(b) == walk::next_of(m.blocks[lba])
            &&& t0.slots()[j].is_fshd ==> model::seg_list_of(b) == model::seg_list_of(
                m.blocks[lba],
            )
            &&& b == m.blocks[lba] || exists|i: int|
                {
                    &&& 0 <= i < t.blocks().len()
                    &&& (#[trigger] t.blocks()[i]).lba == lba
                    &&& b == commit::block_image(t, assigned, i)
                }
        }),
{
    let s = commit_laws::state(m, t, assigned, zeroed, k);
    let lba = t0.blocks()[j].lba;
    let old = m.blocks[lba];
    table::lemma_opened_bytes(m, rdb, chains, t0, j);
    commit_laws::lemma_state(m, t, assigned, zeroed, k);
    commit::lemma_plan_places(t, assigned, zeroed);
    assert(t0.original.contains_key(lba) && t0.original[lba] == table::links_of(
        t0.blocks()[j],
        t0.slots()[j].is_fshd,
    ));
    assert(lba != t.rdsk_block) by {
        assert(t0.blocks()[j].lba != UNPLACED_BLOCK);
    }
    if s.blocks[lba] != old {
        assert(assigned.contains(lba));
        let i = choose|i: int| 0 <= i < assigned.len() && assigned[i] == lba;
        assert(commit_laws::turn(t, i) < k);
        assert(s.blocks[lba] == commit::block_image(t, assigned, i));
        assert(t.original.contains_key(assigned[i]));
        assert(t.blocks()[i].lba == lba);
        commit::lemma_slot(t, i);
        commit_laws::law_commit_preserves_blocks(t, assigned, i);
        commit_laws::lemma_image_id(t, assigned, i);
        assert(commit_laws::stands_in(t0.blocks(), t.blocks()[i]));
        let h = choose|h: int|
            {
                &&& 0 <= h < t0.blocks().len()
                &&& (#[trigger] t0.blocks()[h]).lba == lba
                &&& bytes::long_at(t0.blocks()[h].bytes, hdr::ID as int) == bytes::long_at(
                    t.blocks()[i].bytes,
                    hdr::ID as int,
                )
            };
        if h < j {
            table::lemma_opened_apart(m, rdb, chains, t0, h, j);
        } else if j < h {
            table::lemma_opened_apart(m, rdb, chains, t0, j, h);
        }
        assert(h == j);
        lemma_fshd_slot(t0, j);
        lemma_fshd_slot(t, i);
        assert(t.original[assigned[i]].next == plan::pointer(assigned, t.slots()[i].next));
        assert(t.original[assigned[i]].seg_list == plan::pointer(assigned, t.slots()[i].seg));
    }
}

/// The chains of the published table are on `s` as they are on the disk that
/// `rdb` was read from.
pub open spec fn stands(m: Medium, s: Medium, rdb: Rdb, chains: Seq<Seq<u64>>) -> bool {
    let b = m.blocks[rdb.rdsk_block];
    &&& s.block_size == m.block_size
    &&& s.block_count == m.block_count
    &&& s.blocks[rdb.rdsk_block] == b
    &&& parse::rdsk_usable_at(s, rdb.rdsk_block)
    &&& walk::is_chain(
        s,
        bytes::long_at(b, rdsk::PARTITION_LIST as int),
        id::PART,
        parse::part_lbas(rdb),
    )
    &&& walk::is_chain(
        s,
        bytes::long_at(b, rdsk::FILESYS_HEADER_LIST as int),
        id::FSHD,
        parse::fshd_lbas(rdb),
    )
    &&& walk::is_chain(
        s,
        bytes::long_at(b, rdsk::BAD_BLOCK_LIST as int),
        id::BADB,
        rdb.badb_blocks@,
    )
    &&& forall|f: int|
        0 <= f < rdb.filesystems@.len() ==> {
            &&& model::seg_list_of(s.blocks[parse::fshd_lbas(rdb)[f]])
                == rdb.filesystems@[f].seg_list_blocks
            &&& walk::is_chain(
                s,
                rdb.filesystems@[f].seg_list_blocks,
                id::LSEG,
                #[trigger] chains[f],
            )
        }
}

/// A commit that is interrupted before its `RDSK` block is written leaves the
/// published table: the same `RDSK` block, heading the same chains through the
/// same blocks.
pub proof fn law_interrupted_commit_leaves_the_old_table(
    m: Medium,
    rdb: Rdb,
    chains: Seq<Seq<u64>>,
    t0: Table,
    t: Table,
    assigned: Seq<u64>,
    zeroed: Seq<u64>,
    k: int,
)
    requires
        edited(m, rdb, chains, t0, t, assigned, zeroed),
        0 <= k <= t.blocks().len(),
    ensures
        stands(m, commit_laws::state(m, t, assigned, zeroed, k), rdb, chains),
{
    let s = commit_laws::state(m, t, assigned, zeroed, k);
    let b = m.blocks[rdb.rdsk_block];
    commit_laws::lemma_writes_apart(t, assigned, zeroed);
    assert(s.block_size == m.block_size && s.block_count == m.block_count
        && s.blocks[rdb.rdsk_block] == b) by {
        commit_laws::lemma_state(m, t, assigned, zeroed, k);
    }
    assert(parse::rdsk_usable_at(s, rdb.rdsk_block)) by {
        assert forall|j: u64| j < rdb.rdsk_block implies !walk::good_block(
            #[trigger] s.blocks[j],
            id::RDSK,
        ) by {
            commit_laws::lemma_no_other_rdsk(m, t, assigned, zeroed, k, j);
        }
    }
    let parts = parse::part_lbas(rdb);
    let fshds = parse::fshd_lbas(rdb);
    let badbs = rdb.badb_blocks@;
    let p = t0.drivers_from();
    let q = t0.badbs_from();
    assert(parts =~= Seq::new(rdb.partitions@.len(), |i: int| rdb.partitions@[i].part_block));
    assert(fshds =~= Seq::new(rdb.filesystems@.len(), |i: int| rdb.filesystems@[i].fshd_block));
    assert forall|i: int| 0 <= i < parts.len() implies {
        let c = s.blocks[#[trigger] parts[i]];
        walk::good_block(c, id::PART) && walk::next_of(c) == walk::next_of(m.blocks[parts[i]])
    } by {
        assert(t0.blocks()[i] == t0.parts[i]);
        law_published_block_is_old_or_new(m, rdb, chains, t0, t, assigned, zeroed, k, i);
        table::lemma_opened_bytes(m, rdb, chains, t0, i);
    }
    walk::law_chain_depends_on_its_pointers(
        m,
        s,
        bytes::long_at(b, rdsk::PARTITION_LIST as int),
        id::PART,
        parts,
    );
    assert forall|i: int| 0 <= i < badbs.len() implies {
        let c = s.blocks[#[trigger] badbs[i]];
        walk::good_block(c, id::BADB) && walk::next_of(c) == walk::next_of(m.blocks[badbs[i]])
    } by {
        assert(t0.blocks()[q + i] == t0.badbs[i]);
        law_published_block_is_old_or_new(m, rdb, chains, t0, t, assigned, zeroed, k, q + i);
        table::lemma_opened_bytes(m, rdb, chains, t0, q + i);
    }
    walk::law_chain_depends_on_its_pointers(
        m,
        s,
        bytes::long_at(b, rdsk::BAD_BLOCK_LIST as int),
        id::BADB,
        badbs,
    );
    assert forall|f: int| 0 <= f < fshds.len() implies {
        let c = s.blocks[#[trigger] fshds[f]];
        &&& walk::good_block(c, id::FSHD)
        &&& walk::next_of(c) == walk::next_of(m.blocks[fshds[f]])
        &&& model::seg_list_of(c) == model::seg_list_of(m.blocks[fshds[f]])
    } by {
        commit_laws::lemma_driver_entries(t0, f);
        let i = commit_laws::fshd_places(t0)[f];
        law_published_block_is_old_or_new(m, rdb, chains, t0, t, assigned, zeroed, k, i);
        table::lemma_opened_bytes(m, rdb, chains, t0, i);
    }
    walk::law_chain_depends_on_its_pointers(
        m,
        s,
        bytes::long_at(b, rdsk::FILESYS_HEADER_LIST as int),
        id::FSHD,
        fshds,
    );
    assert forall|f: int| 0 <= f < rdb.filesystems@.len() implies {
        &&& model::seg_list_of(s.blocks[fshds[f]]) == rdb.filesystems@[f].seg_list_blocks
        &&& walk::is_chain(
            s,
            rdb.filesystems@[f].seg_list_blocks,
            id::LSEG,
            #[trigger] chains[f],
        )
    } by {
        assert(model::fshd_reads(rdb.filesystems@[f], m.blocks[fshds[f]], fshds[f]));
        lemma_published_driver(m, rdb, chains, t0, t, assigned, zeroed, k, f);
    }
}

/// The driver chains of the published table.
proof fn lemma_published_driver(
    m: Medium,
    rdb: Rdb,
    chains: Seq<Seq<u64>>,
    t0: Table,
    t: Table,
    assigned: Seq<u64>,
    zeroed: Seq<u64>,
    k: int,
    f: int,
)
    requires
        edited(m, rdb, chains, t0, t, assigned, zeroed),
        0 <= k <= t.blocks().len(),
        0 <= f < rdb.filesystems@.len(),
    ensures
        walk::is_chain(
            commit_laws::state(m, t, assigned, zeroed, k),
            rdb.filesystems@[f].seg_list_blocks,
            id::LSEG,
            chains[f],
        ),
{
    let s = commit_laws::state(m, t, assigned, zeroed, k);
    let lbas = chains[f];
    commit_laws::lemma_writes_apart(t, assigned, zeroed);
    assert(s.block_count == m.block_count) by {
        commit_laws::lemma_state(m, t, assigned, zeroed, k);
    }
    commit_laws::lemma_driver_entries(t0, f);
    assert forall|j: int| 0 <= j < lbas.len() implies {
        let c = s.blocks[#[trigger] lbas[j]];
        walk::good_block(c, id::LSEG) && walk::next_of(c) == walk::next_of(m.blocks[lbas[j]])
    } by {
        let i = commit_laws::lseg_places(t0, f)[j];
        assert(t0.blocks()[i] == t0.drivers[f].chain[j]);
        law_published_block_is_old_or_new(m, rdb, chains, t0, t, assigned, zeroed, k, i);
        table::lemma_opened_bytes(m, rdb, chains, t0, i);
        assert(table::sound_bytes(t0.drivers[f].chain[j].bytes, id::LSEG, t0.block_size));
    }
    walk::law_chain_depends_on_its_pointers(
        m,
        s,
        rdb.filesystems@[f].seg_list_blocks,
        id::LSEG,
        lbas,
    );
}

/// A `PART` block of a sound table is one of its partitions.
proof fn lemma_is_part(t: Table, i: int)
    requires
        t.wf(),
        0 <= i < t.blocks().len(),
        bytes::long_at(t.blocks()[i].bytes, hdr::ID as int) == id::PART,
    ensures
        i < t.parts.len(),
        t.blocks()[i] == t.parts[i],
{
    let p = t.drivers_from();
    let q = t.badbs_from();
    if p <= i < q {
        let (f, j) = table::lemma_driver_block(t.drivers, i - p);
        assert(t.blocks()[i] == table::driver_blocks(t.drivers)[i - p]);
        if j >= 0 {
            assert(table::sound_bytes(t.drivers[f].chain[j].bytes, id::LSEG, t.block_size));
        }
    } else if q <= i {
        assert(t.blocks()[i] == t.badbs[i - q]);
    }
}

/// A `FSHD` block of a sound table is the header of one of its filesystems.
proof fn lemma_is_header(t: Table, i: int) -> (f: int)
    requires
        t.wf(),
        0 <= i < t.blocks().len(),
        bytes::long_at(t.blocks()[i].bytes, hdr::ID as int) == id::FSHD,
    ensures
        0 <= f < t.drivers.len(),
        t.blocks()[i] == t.drivers[f].header,
{
    let p = t.drivers_from();
    let q = t.badbs_from();
    if i < p {
        assert(t.blocks()[i] == t.parts[i]);
        0
    } else if i < q {
        let (f, j) = table::lemma_driver_block(t.drivers, i - p);
        assert(t.blocks()[i] == table::driver_blocks(t.drivers)[i - p]);
        if j >= 0 {
            assert(table::sound_bytes(t.drivers[f].chain[j].bytes, id::LSEG, t.block_size));
        }
        f
    } else {
        assert(t.blocks()[i] == t.badbs[i - q]);
        0
    }
}

/// `p` is what the `PART` block at `lba` said on `m`, or what the edited table
/// `t` says in its place.
pub open spec fn old_or_edited_part(m: Medium, t: Table, p: Partition, lba: u64) -> bool {
    ||| model::part_reads(p, m.blocks[lba], lba)
    ||| exists|j: int|
        {
            &&& 0 <= j < t.parts.len()
            &&& (#[trigger] t.parts[j]).lba == lba
            &&& model::part_reads(p, t.parts[j].bytes, lba)
        }
}

/// `f` is what the `FSHD` block at `lba` said on `m`, or what the edited table
/// `t` says in its place, the head of its driver aside.
pub open spec fn old_or_edited_fshd(m: Medium, t: Table, f: FileSysHeader, lba: u64) -> bool {
    ||| model::fshd_reads_but_head(f, m.blocks[lba], lba)
    ||| exists|g: int|
        {
            &&& 0 <= g < t.drivers.len()
            &&& (#[trigger] t.drivers[g]).header.lba == lba
            &&& model::fshd_reads_but_head(f, t.drivers[g].header.bytes, lba)
        }
}

/// Before the `RDSK` block is written, a published `PART` block reads as the
/// opened partition or as the edited one.
proof fn lemma_published_part(
    m: Medium,
    rdb: Rdb,
    chains: Seq<Seq<u64>>,
    t0: Table,
    t: Table,
    assigned: Seq<u64>,
    zeroed: Seq<u64>,
    k: int,
    j: int,
    p: Partition,
)
    requires
        edited(m, rdb, chains, t0, t, assigned, zeroed),
        0 <= k <= t.blocks().len(),
        0 <= j < t0.parts.len(),
        model::part_reads(
            p,
            commit_laws::state(m, t, assigned, zeroed, k).blocks[t0.parts[j].lba],
            t0.parts[j].lba,
        ),
    ensures
        old_or_edited_part(m, t, p, t0.parts[j].lba),
{
    let lba = t0.parts[j].lba;
    let b = commit_laws::state(m, t, assigned, zeroed, k).blocks[lba];
    assert(t0.blocks()[j] == t0.parts[j]);
    law_published_block_is_old_or_new(m, rdb, chains, t0, t, assigned, zeroed, k, j);
    table::lemma_opened_bytes(m, rdb, chains, t0, j);
    if b != m.blocks[lba] {
        let i = choose|i: int|
            {
                &&& 0 <= i < t.blocks().len()
                &&& (#[trigger] t.blocks()[i]).lba == lba
                &&& b == commit::block_image(t, assigned, i)
            };
        commit_laws::lemma_image_id(t, assigned, i);
        lemma_is_part(t, i);
        lemma_fshd_slot(t, i);
        commit_laws::law_commit_preserves_blocks(t, assigned, i);
        model::lemma_part_reads_past_header(p, b, t.parts[i].bytes, lba);
        assert(t.parts[i].lba == lba);
    }
}

/// The same of a published `FSHD` block.
proof fn lemma_published_fshd(
    m: Medium,
    rdb: Rdb,
    chains: Seq<Seq<u64>>,
    t0: Table,
    t: Table,
    assigned: Seq<u64>,
    zeroed: Seq<u64>,
    k: int,
    g: int,
    f: FileSysHeader,
)
    requires
        edited(m, rdb, chains, t0, t, assigned, zeroed),
        0 <= k <= t.blocks().len(),
        0 <= g < t0.drivers.len(),
        model::fshd_reads_but_head(
            f,
            commit_laws::state(m, t, assigned, zeroed, k).blocks[t0.drivers[g].header.lba],
            t0.drivers[g].header.lba,
        ),
    ensures
        old_or_edited_fshd(m, t, f, t0.drivers[g].header.lba),
{
    let lba = t0.drivers[g].header.lba;
    let b = commit_laws::state(m, t, assigned, zeroed, k).blocks[lba];
    commit_laws::lemma_driver_entries(t0, g);
    let j = commit_laws::fshd_places(t0)[g];
    law_published_block_is_old_or_new(m, rdb, chains, t0, t, assigned, zeroed, k, j);
    table::lemma_opened_bytes(m, rdb, chains, t0, j);
    if b != m.blocks[lba] {
        let i = choose|i: int|
            {
                &&& 0 <= i < t.blocks().len()
                &&& (#[trigger] t.blocks()[i]).lba == lba
                &&& b == commit::block_image(t, assigned, i)
            };
        commit_laws::lemma_image_id(t, assigned, i);
        let h = lemma_is_header(t, i);
        lemma_fshd_slot(t, i);
        commit_laws::law_commit_preserves_blocks(t, assigned, i);
        model::lemma_fshd_reads_past_pointers(f, b, t.drivers[h].header.bytes, lba);
        assert(t.drivers[h].header.lba == lba);
    }
}

/// What such an interruption leaves parses, unless a read of it fails, and every
/// partition, every filesystem and every bad-block entry of the published table
/// is there, once, on the block it was on. Each partition and each filesystem is
/// the opened one, or the edited one that was found on that block.
pub proof fn law_interrupted_commit_still_parses<S: BlockSource>(
    m: Medium,
    rdb: Rdb,
    chains: Seq<Seq<u64>>,
    t0: Table,
    t: Table,
    assigned: Seq<u64>,
    zeroed: Seq<u64>,
    k: int,
    disk: S,
    r: Result<Rdb, RdbError<S::Error>>,
)
    requires
        edited(m, rdb, chains, t0, t, assigned, zeroed),
        0 <= k <= t.blocks().len(),
        disk.medium() == commit_laws::state(m, t, assigned, zeroed, k),
        parse::reads_model(disk, rdb),
        parse::parse_outcome(disk, r),
    ensures
        r matches Ok(now) && {
            &&& model::same_disk(now, rdb)
            &&& now.high_rdsk_block == rdb.high_rdsk_block
            &&& now.filesys_header_list == rdb.filesys_header_list
            &&& now.bad_block_list == rdb.bad_block_list
            &&& parse::part_lbas(now) == parse::part_lbas(rdb)
            &&& parse::fshd_lbas(now) == parse::fshd_lbas(rdb)
            &&& now.badb_blocks@ == rdb.badb_blocks@
            &&& forall|f: int|
                0 <= f < now.filesystems@.len() ==> (#[trigger] now.filesystems@[f]).seg_list_blocks
                    == rdb.filesystems@[f].seg_list_blocks
            &&& forall|i: int|
                0 <= i < now.partitions@.len() ==> old_or_edited_part(
                    m,
                    t,
                    #[trigger] now.partitions@[i],
                    parse::part_lbas(rdb)[i],
                )
            &&& forall|f: int|
                0 <= f < now.filesystems@.len() ==> old_or_edited_fshd(
                    m,
                    t,
                    #[trigger] now.filesystems@[f],
                    parse::fshd_lbas(rdb)[f],
                )
        },
{
    let s = disk.medium();
    let b = m.blocks[rdb.rdsk_block];
    law_interrupted_commit_leaves_the_old_table(m, rdb, chains, t0, t, assigned, zeroed, k);
    parse::law_whole_table_parses(
        disk,
        rdb.rdsk_block,
        parse::part_lbas(rdb),
        parse::fshd_lbas(rdb),
        rdb.badb_blocks@,
        r,
    );
    let now = r->Ok_0;
    assert(now.rdsk_block == rdb.rdsk_block) by {
        assert(walk::good_block(s.blocks[now.rdsk_block], id::RDSK));
        assert(walk::good_block(s.blocks[rdb.rdsk_block], id::RDSK));
    }
    assert(parse::part_lbas(now) =~= Seq::new(
        now.partitions@.len(),
        |i: int| now.partitions@[i].part_block,
    ));
    assert(parse::fshd_lbas(now) =~= Seq::new(
        now.filesystems@.len(),
        |i: int| now.filesystems@[i].fshd_block,
    ));
    walk::law_chain_is_unique(
        s,
        bytes::long_at(b, rdsk::PARTITION_LIST as int),
        id::PART,
        parse::part_lbas(now),
        parse::part_lbas(rdb),
    );
    walk::law_chain_is_unique(
        s,
        bytes::long_at(b, rdsk::FILESYS_HEADER_LIST as int),
        id::FSHD,
        parse::fshd_lbas(now),
        parse::fshd_lbas(rdb),
    );
    walk::law_chain_is_unique(
        s,
        bytes::long_at(b, rdsk::BAD_BLOCK_LIST as int),
        id::BADB,
        now.badb_blocks@,
        rdb.badb_blocks@,
    );
    assert forall|f: int| 0 <= f < now.filesystems@.len() implies (
    #[trigger] now.filesystems@[f]).seg_list_blocks == rdb.filesystems@[f].seg_list_blocks by {
        let c = chains[f];
        assert(parse::fshd_lbas(now)[f] == parse::fshd_lbas(rdb)[f]);
    }
    assert forall|i: int| 0 <= i < now.partitions@.len() implies old_or_edited_part(
        m,
        t,
        #[trigger] now.partitions@[i],
        parse::part_lbas(rdb)[i],
    ) by {
        assert(parse::part_lbas(now)[i] == parse::part_lbas(rdb)[i]);
        lemma_published_part(
            m,
            rdb,
            chains,
            t0,
            t,
            assigned,
            zeroed,
            k,
            i,
            now.partitions@[i],
        );
    }
    assert forall|f: int| 0 <= f < now.filesystems@.len() implies old_or_edited_fshd(
        m,
        t,
        #[trigger] now.filesystems@[f],
        parse::fshd_lbas(rdb)[f],
    ) by {
        assert(parse::fshd_lbas(now)[f] == parse::fshd_lbas(rdb)[f]);
        lemma_published_fshd(
            m,
            rdb,
            chains,
            t0,
            t,
            assigned,
            zeroed,
            k,
            f,
            now.filesystems@[f],
        );
    }
}

/// Where the edits left every block they kept unchanged, a published block stays
/// what it was until the `RDSK` block is written.
pub proof fn law_kept_block_stays(
    m: Medium,
    rdb: Rdb,
    chains: Seq<Seq<u64>>,
    t0: Table,
    t: Table,
    assigned: Seq<u64>,
    zeroed: Seq<u64>,
    k: int,
    j: int,
)
    requires
        edited(m, rdb, chains, t0, t, assigned, zeroed),
        commit_laws::keeps_blocks(t0, t),
        0 <= k <= t.blocks().len(),
        0 <= j < t0.blocks().len(),
    ensures
        commit_laws::state(m, t, assigned, zeroed, k).blocks[t0.blocks()[j].lba]
            == m.blocks[t0.blocks()[j].lba],
{
    let lba = t0.blocks()[j].lba;
    let b = commit_laws::state(m, t, assigned, zeroed, k).blocks[lba];
    law_published_block_is_old_or_new(m, rdb, chains, t0, t, assigned, zeroed, k, j);
    table::lemma_opened_bytes(m, rdb, chains, t0, j);
    if b != m.blocks[lba] {
        let i = choose|i: int|
            {
                &&& 0 <= i < t.blocks().len()
                &&& (#[trigger] t.blocks()[i]).lba == lba
                &&& b == commit::block_image(t, assigned, i)
            };
        let c = t.blocks()[i].bytes;
        assert(t0.blocks().contains(t.blocks()[i]));
        let h = choose|h: int| 0 <= h < t0.blocks().len() && t0.blocks()[h] == t.blocks()[i];
        if h < j {
            table::lemma_opened_apart(m, rdb, chains, t0, h, j);
        } else if j < h {
            table::lemma_opened_apart(m, rdb, chains, t0, j, h);
        }
        assert(c == m.blocks[lba]);
        lemma_fshd_slot(t0, j);
        lemma_fshd_slot(t, i);
        commit::lemma_block_sound(t, i);
        commit_laws::law_commit_preserves_blocks(t, assigned, i);
        bytes::lemma_with_long_same_value(c, crate::chain::NEXT as int);
        bytes::lemma_with_long_same_value(c, crate::fshd::SEG_LIST as int);
        checksum::law_resealing_a_good_block_is_identity(c);
    }
}

/// The entries of a bad-block list depend on its blocks alone.
proof fn lemma_same_entries(a: Medium, b: Medium, lbas: Seq<u64>)
    requires
        forall|i: int| 0 <= i < lbas.len() ==> a.blocks[#[trigger] lbas[i]] == b.blocks[lbas[i]],
    ensures
        parse::all_entries(a, lbas) == parse::all_entries(b, lbas),
    decreases lbas.len(),
{
    if lbas.len() > 0 {
        let rest = lbas.drop_last();
        assert forall|i: int| 0 <= i < rest.len() implies a.blocks[#[trigger] rest[i]]
            == b.blocks[rest[i]] by {
            assert(rest[i] == lbas[i]);
        }
        lemma_same_entries(a, b, rest);
        assert(lbas.last() == lbas[lbas.len() - 1]);
    }
}

/// Where the edits left every block they kept unchanged, as adding and removing
/// partitions does, a commit that is interrupted before its `RDSK` block is
/// written leaves the published table as it was read: a parse says what it said
/// before.
pub proof fn law_interrupted_commit_reads_as_before<S: BlockSource>(
    m: Medium,
    rdb: Rdb,
    chains: Seq<Seq<u64>>,
    t0: Table,
    t: Table,
    assigned: Seq<u64>,
    zeroed: Seq<u64>,
    k: int,
    disk: S,
    r: Result<Rdb, RdbError<S::Error>>,
)
    requires
        edited(m, rdb, chains, t0, t, assigned, zeroed),
        commit_laws::keeps_blocks(t0, t),
        0 <= k <= t.blocks().len(),
        disk.medium() == commit_laws::state(m, t, assigned, zeroed, k),
        parse::reads_model(disk, rdb),
        parse::parse_outcome(disk, r),
    ensures
        r matches Ok(now) && parse::same_table(now, rdb),
{
    let s = disk.medium();
    law_interrupted_commit_still_parses(
        m,
        rdb,
        chains,
        t0,
        t,
        assigned,
        zeroed,
        k,
        disk,
        r,
    );
    law_interrupted_commit_leaves_the_old_table(m, rdb, chains, t0, t, assigned, zeroed, k);
    let now = r->Ok_0;
    let parts = parse::part_lbas(rdb);
    let fshds = parse::fshd_lbas(rdb);
    let badbs = rdb.badb_blocks@;
    let q = t0.badbs_from();
    assert(parts.len() == rdb.partitions@.len() && parse::part_lbas(now).len()
        == now.partitions@.len());
    assert(fshds.len() == rdb.filesystems@.len() && parse::fshd_lbas(now).len()
        == now.filesystems@.len());
    assert forall|i: int| 0 <= i < badbs.len() implies s.blocks[#[trigger] badbs[i]]
        == m.blocks[badbs[i]] by {
        assert(t0.blocks()[q + i] == t0.badbs[i]);
        law_kept_block_stays(m, rdb, chains, t0, t, assigned, zeroed, k, q + i);
    }
    lemma_same_entries(s, m, badbs);
    assert forall|i: int| 0 <= i < now.partitions@.len() implies model::part_reads(
        #[trigger] now.partitions@[i],
        m.blocks[now.partitions@[i].part_block],
        now.partitions@[i].part_block,
    ) by {
        assert(t0.blocks()[i] == t0.parts[i]);
        assert(parse::part_lbas(now)[i] == parts[i]);
        law_kept_block_stays(m, rdb, chains, t0, t, assigned, zeroed, k, i);
    }
    assert forall|f: int| 0 <= f < now.filesystems@.len() implies model::fshd_reads(
        #[trigger] now.filesystems@[f],
        m.blocks[now.filesystems@[f].fshd_block],
        now.filesystems@[f].fshd_block,
    ) by {
        commit_laws::lemma_driver_entries(t0, f);
        let j = commit_laws::fshd_places(t0)[f];
        assert(parse::fshd_lbas(now)[f] == fshds[f]);
        law_kept_block_stays(m, rdb, chains, t0, t, assigned, zeroed, k, j);
    }
    assert(Seq::new(now.partitions@.len(), |i: int| now.partitions@[i].part_block) =~= parts);
    assert(Seq::new(now.filesystems@.len(), |i: int| now.filesystems@[i].fshd_block) =~= fshds);
    assert(Seq::new(rdb.partitions@.len(), |i: int| rdb.partitions@[i].part_block) =~= parts);
    assert(Seq::new(rdb.filesystems@.len(), |i: int| rdb.filesystems@[i].fshd_block) =~= fshds);
    assert(parse::parses_as(m, now));
    parse::law_parse_is_determined(m, now, rdb);
}

/// The names and the cylinders of the partitions, in order.
pub open spec fn partition_list(rdb: Rdb) -> Seq<(Seq<char>, u32, u32)> {
    Seq::new(
        rdb.partitions@.len(),
        |i: int|
            (rdb.partitions@[i].name@, rdb.partitions@[i].low_cyl, rdb.partitions@[i].high_cyl),
    )
}

/// A commit of partitions that were added and removed, in an area with a spare
/// block for every block of the table, is all or nothing: wherever it is
/// interrupted, the disk parses, unless a read of the blocks up to the `RDSK`
/// block, or of the blocks of the table's chains, fails, and its partitions are all
/// of those that were opened or all of those of the edited table.
pub proof fn law_interrupted_commit_is_all_or_nothing<S: BlockSource>(
    m: Medium,
    rdb: Rdb,
    chains: Seq<Seq<u64>>,
    t0: Table,
    t: Table,
    model_of_t: Rdb,
    assigned: Seq<u64>,
    zeroed: Seq<u64>,
    spare: Seq<u64>,
    k: int,
    disk: S,
    r: Result<Rdb, RdbError<S::Error>>,
)
    requires
        table::opened_as(m, rdb, chains, t0),
        t0.wf(),
        t0.blocks().len() <= usize::MAX,
        commit_laws::descends(t0, t),
        commit_laws::keeps_blocks(t0, t),
        table::in_step(t, model_of_t),
        commit_laws::planned(t, assigned, zeroed),
        commit_laws::readable_on(m, t, assigned),
        spare.no_duplicates(),
        spare.len() >= t.blocks().len(),
        forall|k: int|
            0 <= k < spare.len() ==> {
                &&& t.area().holds(#[trigger] spare[k])
                &&& spare[k] != t.rdsk_block
                &&& !t.original.contains_key(spare[k])
            },
        0 <= k <= commit::commit_writes(t, assigned, zeroed).len(),
        disk.medium() == commit_laws::state(m, t, assigned, zeroed, k),
        k <= t.blocks().len() ==> parse::reads_model(disk, rdb),
        k > t.blocks().len() ==> commit_laws::reads_committed(disk, t, assigned),
        parse::parse_outcome(disk, r),
    ensures
        r matches Ok(now) && partition_list(now) == if k <= t.blocks().len() {
            partition_list(rdb)
        } else {
            partition_list(model_of_t)
        },
{
    law_headroom_leaves_a_spare_block(t, assigned, zeroed, spare);
    if k <= t.blocks().len() {
        law_interrupted_commit_reads_as_before(
            m,
            rdb,
            chains,
            t0,
            t,
            assigned,
            zeroed,
            k,
            disk,
            r,
        );
        let now = r->Ok_0;
        assert forall|i: int| 0 <= i < now.partitions@.len() implies model::same_partition(
            #[trigger] now.partitions@[i],
            rdb.partitions@[i],
        ) by {}
        assert(partition_list(now) =~= partition_list(rdb));
    } else {
        commit_laws::law_committed_table_parses(m, t, assigned, zeroed, k, disk, r);
        let now = r->Ok_0;
        commit_laws::law_committed_table_is_the_model(t, assigned, model_of_t, now);
        assert forall|i: int| 0 <= i < now.partitions@.len() implies model::same_partition(
            model_of_t.partitions@[i],
            #[trigger] now.partitions@[i],
        ) by {}
        assert(partition_list(now) =~= partition_list(model_of_t));
    }
}

} // verus!
