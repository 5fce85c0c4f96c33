//! What holds of every table that is written back.
use vstd::prelude::*;

use crate::bytes::CHAIN_END;
use crate::media::{BlockSource, Medium};
use crate::model::Rdb;
use crate::table::{Driver, Raw, Table, UNPLACED_BLOCK};
use crate::walk::{RdbError, MAX_CHAIN_BLOCKS};
use crate::{
    bytes, chain, checksum, commit, fshd, hdr, id, image, lseg, media, model, parse, plan, rdsk,
    table, walk,
};

verus! {

broadcast use crate::bytes::group_long_axioms;

/// A block is written as it is held, its pointers and its `ChkSum` aside: every
/// other byte survives, those that nothing has a name for too.
pub proof fn law_commit_preserves_blocks(t: Table, assigned: Seq<u64>, i: int)
    requires
        t.wf(),
        0 <= i < t.blocks().len(),
    ensures
        commit::block_image(t, assigned, i).len() == t.block_size,
        checksum::checksum_holds(commit::block_image(t, assigned, i)),
        forall|j: int|
            0 <= j < t.block_size && !(hdr::CHK_SUM <= j < hdr::CHK_SUM + 4) && !(chain::NEXT <= j
                < chain::NEXT + 4) && !(t.slots()[i].is_fshd && fshd::SEG_LIST <= j < fshd::SEG_LIST
                + 4) ==> #[trigger] commit::block_image(t, assigned, i)[j]
                == t.blocks()[i].bytes[j],
        walk::next_of(commit::block_image(t, assigned, i)) == plan::pointer(
            assigned,
            t.slots()[i].next,
        ),
        t.slots()[i].is_fshd ==> model::seg_list_of(commit::block_image(t, assigned, i))
            == plan::pointer(assigned, t.slots()[i].seg),
{
    commit::lemma_block_sound(t, i);
    let b = t.blocks()[i].bytes;
    let slot = t.slots()[i];
    let s = commit::linked(
        b,
        plan::pointer(assigned, slot.next),
        plan::pointer(assigned, slot.seg),
        slot.is_fshd,
    );
    let n = bytes::long_at(s, hdr::SUMMED_LONGS as int);
    assert(n == bytes::long_at(b, hdr::SUMMED_LONGS as int));
    let c = commit::block_image(t, assigned, i);
    checksum::law_sealed_block_checks_out(s, n);
    assert(checksum::unsealed(s, n) == bytes::with_long(s, hdr::CHK_SUM as int, 0)) by {
        bytes::lemma_with_long_same_value(s, hdr::SUMMED_LONGS as int);
    }
}

/// The same of the `RDSK` block, the heads of its chains and its high-water
/// mark aside.
pub proof fn law_commit_preserves_rdsk(t: Table, assigned: Seq<u64>)
    requires
        t.wf(),
    ensures
        commit::rdsk_image(t, assigned).len() == t.block_size,
        walk::good_block(commit::rdsk_image(t, assigned), id::RDSK),
        forall|j: int|
            0 <= j < t.block_size && !(hdr::CHK_SUM <= j < hdr::CHK_SUM + 4)
                && !(rdsk::BAD_BLOCK_LIST <= j < rdsk::FILESYS_HEADER_LIST + 4)
                && !(rdsk::HIGH_RDSK_BLOCK <= j < rdsk::HIGH_RDSK_BLOCK + 4)
                ==> #[trigger] commit::rdsk_image(t, assigned)[j] == t.rdsk[j],
        bytes::long_at(commit::rdsk_image(t, assigned), rdsk::PARTITION_LIST as int)
            == commit::head_pointer(assigned, 0, t.drivers_from()),
        bytes::long_at(commit::rdsk_image(t, assigned), rdsk::FILESYS_HEADER_LIST as int)
            == commit::head_pointer(assigned, t.drivers_from(), t.badbs_from()),
        bytes::long_at(commit::rdsk_image(t, assigned), rdsk::BAD_BLOCK_LIST as int)
            == commit::head_pointer(assigned, t.badbs_from(), t.blocks().len() as int),
        bytes::long_at(commit::rdsk_image(t, assigned), rdsk::HIGH_RDSK_BLOCK as int)
            == plan::highest(t.area(), assigned) as u32,
        bytes::long_at(commit::rdsk_image(t, assigned), rdsk::BLOCK_BYTES as int) == t.block_size,
{
    let s = commit::headed(t, assigned);
    let n = bytes::long_at(s, hdr::SUMMED_LONGS as int);
    assert(n == bytes::long_at(t.rdsk, hdr::SUMMED_LONGS as int));
    checksum::law_sealed_block_checks_out(s, n);
    assert(checksum::unsealed(s, n) == bytes::with_long(s, hdr::CHK_SUM as int, 0)) by {
        bytes::lemma_with_long_same_value(s, hdr::SUMMED_LONGS as int);
    }
}

/// The region of the list that block `i` belongs to: the partitions, the
/// filesystems or the bad-block list.
pub open spec fn region(t: Table, i: int) -> (int, int) {
    if i < t.drivers_from() {
        (0, t.drivers_from())
    } else if i < t.badbs_from() {
        (t.drivers_from(), t.badbs_from())
    } else {
        (t.badbs_from(), t.blocks().len() as int)
    }
}

/// A block points at a later one of its own region.
proof fn lemma_points_ahead(t: Table, i: int)
    requires
        0 <= i < t.blocks().len() <= usize::MAX,
    ensures
        t.slots().len() == t.blocks().len(),
        t.slots()[i].next matches Some(k) ==> i < k < region(t, i).1,
        t.slots()[i].seg matches Some(k) ==> i < k < region(t, i).1,
        !t.slots()[i].is_fshd ==> t.slots()[i].seg is None,
{
    commit::lemma_slot(t, i);
    let p = t.drivers_from();
    let q = t.badbs_from();
    let middle = table::driver_slots(t.drivers, p, t.drivers.len() as int);
    commit::lemma_slots_len(t);
    if i < p {
        assert(t.slots()[i] == table::chain_slots(t.parts, 0)[i]);
    } else if i < q {
        let (f, j) = table::lemma_driver_block(t.drivers, i - p);
        let at = table::driver_blocks(t.drivers.take(f)).len() as int;
        table::lemma_driver_slots(t.drivers, p, t.drivers.len() as int, f);
        table::lemma_driver_place(t.drivers, f);
        assert(t.slots()[i] == middle[i - p]);
        if j == -1 {
            assert(middle[at] == table::header_slot(t.drivers, p, f));
            if f + 1 < t.drivers.len() {
                table::lemma_driver_place(t.drivers, f + 1);
            }
        } else {
            assert(middle[at + 1 + j] == table::chain_slots(t.drivers[f].chain, p + at + 1)[j]);
        }
    } else {
        assert(t.slots()[i] == table::chain_slots(t.badbs, q)[i - q]);
    }
}

/// When block `i` of the table is written.
pub open spec fn turn(t: Table, i: int) -> int {
    let p = t.drivers_from();
    let q = t.badbs_from();
    let n = t.blocks().len() as int;
    if i < p {
        n - 1 - i
    } else if i < q {
        q - 1 - i
    } else {
        (q - p) + (n - 1 - i)
    }
}

/// Every block of the table has its turn, and the `RDSK` comes after them all.
pub proof fn lemma_turn(t: Table, assigned: Seq<u64>, zeroed: Seq<u64>, i: int)
    requires
        0 <= i < t.blocks().len(),
    ensures
        0 <= turn(t, i) < t.blocks().len(),
        commit::write_order(t, turn(t, i)) == i,
        commit::commit_writes(t, assigned, zeroed)[turn(t, i)] == (
            assigned[i],
            commit::block_image(t, assigned, i),
        ),
{
    let j = commit::lemma_write_of(t, assigned, zeroed, turn(t, i));
}

/// No block is written before one that it points at: every pointer of a block
/// leads to a block that is already on the disk.
pub proof fn law_pointers_lead_to_written_blocks(
    t: Table,
    assigned: Seq<u64>,
    zeroed: Seq<u64>,
    i: int,
)
    requires
        0 <= i < t.blocks().len() <= usize::MAX,
    ensures
        commit::commit_writes(t, assigned, zeroed)[turn(t, i)] == (
            assigned[i],
            commit::block_image(t, assigned, i),
        ),
        t.slots()[i].next matches Some(k) ==> 0 <= turn(t, k as int) < turn(t, i),
        t.slots()[i].seg matches Some(k) ==> 0 <= turn(t, k as int) < turn(t, i),
{
    lemma_turn(t, assigned, zeroed, i);
    lemma_points_ahead(t, i);
    if let Some(k) = t.slots()[i].next {
        lemma_turn(t, assigned, zeroed, k as int);
    }
    if let Some(k) = t.slots()[i].seg {
        lemma_turn(t, assigned, zeroed, k as int);
    }
}

/// The `RDSK` block is written after every other block of the table, and blocks
/// are zeroed after it.
pub proof fn law_commit_publishes_last(t: Table, assigned: Seq<u64>, zeroed: Seq<u64>)
    ensures
        commit::commit_writes(t, assigned, zeroed).len() == t.blocks().len() + 1 + zeroed.len(),
        forall|i: int|
            0 <= i < t.blocks().len() ==> #[trigger] turn(t, i) < t.blocks().len()
                && commit::commit_writes(t, assigned, zeroed)[turn(t, i)].0 == assigned[i],
        commit::commit_writes(t, assigned, zeroed)[t.blocks().len() as int] == (
            t.rdsk_block,
            commit::rdsk_image(t, assigned),
        ),
        forall|z: int|
            0 <= z < zeroed.len() ==> commit::commit_writes(t, assigned, zeroed)[t.blocks().len()
                + 1 + z].0 == #[trigger] zeroed[z],
{
    let w = commit::commit_writes(t, assigned, zeroed);
    let n = t.blocks().len() as int;
    assert forall|i: int| 0 <= i < t.blocks().len() implies #[trigger] turn(t, i)
        < t.blocks().len() && w[turn(t, i)].0 == assigned[i] by {
        lemma_turn(t, assigned, zeroed, i);
    }
    assert(commit::table_writes(t, assigned).len() == n + 1);
    assert forall|z: int| 0 <= z < zeroed.len() implies w[n + 1 + z].0 == #[trigger] zeroed[z] by {
        assert(w[n + 1 + z] == commit::zero_writes(t, zeroed)[z]);
    }
}

/// The table can be laid out, and `assigned` and `zeroed` are how.
pub open spec fn planned(t: Table, assigned: Seq<u64>, zeroed: Seq<u64>) -> bool {
    &&& t.wf()
    &&& t.blocks().len() <= usize::MAX
    &&& commit::plan_refusal::<()>(t) is None
    &&& commit::is_plan(t, assigned, zeroed)
}

/// The medium after the first `k` blocks of a commit have been written.
pub open spec fn state(m: Medium, t: Table, assigned: Seq<u64>, zeroed: Seq<u64>, k: int) -> Medium {
    media::after_writes(m, commit::commit_writes(t, assigned, zeroed).take(k))
}

/// A commit writes every block it writes once.
pub proof fn lemma_writes_apart(t: Table, assigned: Seq<u64>, zeroed: Seq<u64>)
    requires
        planned(t, assigned, zeroed),
    ensures
        commit::commit_writes(t, assigned, zeroed).len() == t.blocks().len() + 1 + zeroed.len(),
        forall|j: int, k: int|
            0 <= j < k < commit::commit_writes(t, assigned, zeroed).len() ==> (
            #[trigger] commit::commit_writes(t, assigned, zeroed)[j]).0 != (
            #[trigger] commit::commit_writes(t, assigned, zeroed)[k]).0,
{
    commit::lemma_plan_places(t, assigned, zeroed);
    let w = commit::commit_writes(t, assigned, zeroed);
    let n = t.blocks().len() as int;
    assert forall|j: int, k: int| 0 <= j < k < w.len() implies (#[trigger] w[j]).0 != (
    #[trigger] w[k]).0 by {
        if k > n {
            assert(w[k] == commit::zero_writes(t, zeroed)[k - n - 1]);
            assert(zeroed.contains(zeroed[k - n - 1]));
        }
        if j < n {
            let a = commit::lemma_write_of(t, assigned, zeroed, j);
            assert(assigned.contains(assigned[a]));
            if k < n {
                let b = commit::lemma_write_of(t, assigned, zeroed, k);
                assert(a != b);
            }
        } else if j == n {
            assert(w[n] == (t.rdsk_block, commit::rdsk_image(t, assigned)));
        } else {
            assert(w[j] == commit::zero_writes(t, zeroed)[j - n - 1]);
        }
    }
}

/// What the blocks of the medium are after `k` blocks of a commit have been
/// written.
pub proof fn lemma_state(m: Medium, t: Table, assigned: Seq<u64>, zeroed: Seq<u64>, k: int)
    requires
        planned(t, assigned, zeroed),
        0 <= k <= commit::commit_writes(t, assigned, zeroed).len(),
    ensures
        state(m, t, assigned, zeroed, k).block_size == m.block_size,
        state(m, t, assigned, zeroed, k).block_count == m.block_count,
        forall|i: int|
            0 <= i < t.blocks().len() && turn(t, i) < k ==> state(m, t, assigned, zeroed, k).blocks[
            #[trigger] assigned[i]] == commit::block_image(t, assigned, i),
        forall|i: int|
            0 <= i < t.blocks().len() && turn(t, i) >= k ==> state(
                m,
                t,
                assigned,
                zeroed,
                k,
            ).blocks[#[trigger] assigned[i]] == m.blocks[assigned[i]],
        state(m, t, assigned, zeroed, k).blocks[t.rdsk_block] == if k > t.blocks().len() {
            commit::rdsk_image(t, assigned)
        } else {
            m.blocks[t.rdsk_block]
        },
        forall|b: u64|
            b != t.rdsk_block && !assigned.contains(b) && (k <= t.blocks().len() + 1
                || !zeroed.contains(b)) ==> #[trigger] state(m, t, assigned, zeroed, k).blocks[b]
                == m.blocks[b],
{
    let n = t.blocks().len() as int;
    media::lemma_after_writes_frame(m, commit::commit_writes(t, assigned, zeroed).take(k));
    lemma_state_of_rdsk(m, t, assigned, zeroed, k);
    assert forall|i: int| 0 <= i < n && turn(t, i) < k implies state(
        m,
        t,
        assigned,
        zeroed,
        k,
    ).blocks[#[trigger] assigned[i]] == commit::block_image(t, assigned, i) by {
        lemma_state_of_block(m, t, assigned, zeroed, k, i);
    }
    assert forall|i: int| 0 <= i < n && turn(t, i) >= k implies state(
        m,
        t,
        assigned,
        zeroed,
        k,
    ).blocks[#[trigger] assigned[i]] == m.blocks[assigned[i]] by {
        lemma_state_of_block(m, t, assigned, zeroed, k, i);
    }
    assert forall|b: u64|
        b != t.rdsk_block && !assigned.contains(b) && (k <= n + 1 || !zeroed.contains(
            b,
        )) implies #[trigger] state(m, t, assigned, zeroed, k).blocks[b] == m.blocks[b] by {
        lemma_state_elsewhere(m, t, assigned, zeroed, k, b);
    }
}

/// Where the `RDSK` block is.
proof fn lemma_state_of_rdsk(
    m: Medium,
    t: Table,
    assigned: Seq<u64>,
    zeroed: Seq<u64>,
    k: int,
)
    requires
        planned(t, assigned, zeroed),
        0 <= k <= commit::commit_writes(t, assigned, zeroed).len(),
    ensures
        state(m, t, assigned, zeroed, k).blocks[t.rdsk_block] == if k > t.blocks().len() {
            commit::rdsk_image(t, assigned)
        } else {
            m.blocks[t.rdsk_block]
        },
{
    let w = commit::commit_writes(t, assigned, zeroed);
    let v = w.take(k);
    let n = t.blocks().len() as int;
    lemma_writes_apart(t, assigned, zeroed);
    assert(w[n] == (t.rdsk_block, commit::rdsk_image(t, assigned)));
    if k > n {
        assert(v[n] == w[n]);
        media::lemma_after_writes_block(m, v, n);
    } else {
        assert forall|j: int| 0 <= j < v.len() implies (#[trigger] v[j]).0 != t.rdsk_block by {
            assert(v[j] == w[j]);
        }
        media::lemma_after_writes_frame(m, v);
    }
}

/// Where block `i` of the table goes.
proof fn lemma_state_of_block(
    m: Medium,
    t: Table,
    assigned: Seq<u64>,
    zeroed: Seq<u64>,
    k: int,
    i: int,
)
    requires
        planned(t, assigned, zeroed),
        0 <= k <= commit::commit_writes(t, assigned, zeroed).len(),
        0 <= i < t.blocks().len(),
    ensures
        state(m, t, assigned, zeroed, k).blocks[assigned[i]] == if turn(t, i) < k {
            commit::block_image(t, assigned, i)
        } else {
            m.blocks[assigned[i]]
        },
{
    let w = commit::commit_writes(t, assigned, zeroed);
    let v = w.take(k);
    lemma_writes_apart(t, assigned, zeroed);
    lemma_turn(t, assigned, zeroed, i);
    if turn(t, i) < k {
        assert(v[turn(t, i)] == w[turn(t, i)]);
        media::lemma_after_writes_block(m, v, turn(t, i));
    } else {
        assert forall|j: int| 0 <= j < v.len() implies (#[trigger] v[j]).0 != assigned[i] by {
            assert(v[j] == w[j]);
            assert(w[j].0 != w[turn(t, i)].0);
        }
        media::lemma_after_writes_frame(m, v);
    }
}

/// Where nothing of the table goes.
proof fn lemma_state_elsewhere(
    m: Medium,
    t: Table,
    assigned: Seq<u64>,
    zeroed: Seq<u64>,
    k: int,
    b: u64,
)
    requires
        planned(t, assigned, zeroed),
        0 <= k <= commit::commit_writes(t, assigned, zeroed).len(),
        b != t.rdsk_block,
        !assigned.contains(b),
        k <= t.blocks().len() + 1 || !zeroed.contains(b),
    ensures
        state(m, t, assigned, zeroed, k).blocks[b] == m.blocks[b],
{
    let w = commit::commit_writes(t, assigned, zeroed);
    let v = w.take(k);
    let n = t.blocks().len() as int;
    commit::lemma_plan_places(t, assigned, zeroed);
    assert forall|j: int| 0 <= j < v.len() implies (#[trigger] v[j]).0 != b by {
        assert(v[j] == w[j]);
        if j < n {
            let a = commit::lemma_write_of(t, assigned, zeroed, j);
            assert(assigned.contains(assigned[a]));
        } else if j > n {
            assert(w[j] == commit::zero_writes(t, zeroed)[j - n - 1]);
            assert(zeroed.contains(zeroed[j - n - 1]));
        }
    }
    media::lemma_after_writes_frame(m, v);
}

/// A block that is written keeps its ID.
pub proof fn lemma_image_id(t: Table, assigned: Seq<u64>, i: int)
    requires
        t.wf(),
        0 <= i < t.blocks().len(),
    ensures
        bytes::long_at(commit::block_image(t, assigned, i), hdr::ID as int) == bytes::long_at(
            t.blocks()[i].bytes,
            hdr::ID as int,
        ),
{
    law_commit_preserves_blocks(t, assigned, i);
    commit::lemma_block_sound(t, i);
    bytes::lemma_long_at_same_bytes(
        commit::block_image(t, assigned, i),
        t.blocks()[i].bytes,
        hdr::ID as int,
    );
}

/// The addresses of the structures at the places `at`.
pub open spec fn addresses(assigned: Seq<u64>, at: Seq<int>) -> Seq<u64> {
    Seq::new(at.len(), |j: int| assigned[at[j]])
}

/// The structures at the places `at` follow each other and no other.
pub open spec fn in_line(t: Table, at: Seq<int>, id: u32) -> bool {
    &&& forall|j: int|
        0 <= j < at.len() ==> {
            &&& 0 <= #[trigger] at[j] < t.blocks().len()
            &&& bytes::long_at(t.blocks()[at[j]].bytes, hdr::ID as int) == id
            &&& t.slots()[at[j]].next == if j == at.len() - 1 {
                None::<usize>
            } else {
                Some(at[j + 1] as usize)
            }
        }
    &&& forall|i: int, j: int|
        0 <= i < at.len() && 0 <= j < at.len() && i != j ==> #[trigger] at[i] != #[trigger] at[j]
}

/// Structures that follow each other are a whole chain once they are written.
proof fn lemma_written_chain(
    s: Medium,
    t: Table,
    assigned: Seq<u64>,
    zeroed: Seq<u64>,
    at: Seq<int>,
    id: u32,
)
    requires
        planned(t, assigned, zeroed),
        in_line(t, at, id),
        at.len() <= MAX_CHAIN_BLOCKS,
        forall|j: int|
            0 <= j < at.len() ==> {
                let lba = assigned[#[trigger] at[j]];
                &&& lba < CHAIN_END
                &&& s.has(lba)
                &&& s.blocks[lba] == commit::block_image(t, assigned, at[j])
            },
    ensures
        walk::is_chain(
            s,
            if at.len() == 0 {
                CHAIN_END
            } else {
                assigned[at[0]] as u32
            },
            id,
            addresses(assigned, at),
        ),
{
    let lbas = addresses(assigned, at);
    commit::lemma_plan_places(t, assigned, zeroed);
    assert forall|j: int| 0 <= j < lbas.len() implies {
        &&& (#[trigger] lbas[j]) < CHAIN_END
        &&& s.has(lbas[j])
        &&& walk::good_block(s.blocks[lbas[j]], id)
        &&& walk::next_of(s.blocks[lbas[j]]) == if j == lbas.len() - 1 {
            CHAIN_END
        } else {
            lbas[j + 1] as u32
        }
    } by {
        let i = at[j];
        law_commit_preserves_blocks(t, assigned, i);
        lemma_image_id(t, assigned, i);
        if j < lbas.len() - 1 {
            assert(0 <= at[j + 1] < t.blocks().len());
        }
    }
    assert(lbas.no_duplicates()) by {
        assert forall|i: int, j: int|
            0 <= i < lbas.len() && 0 <= j < lbas.len() && i != j implies lbas[i] != lbas[j] by {
            assert(at[i] != at[j]);
        }
    }
    reveal(walk::is_walk);
}

/// The places of the `PART` blocks.
pub open spec fn part_places(t: Table) -> Seq<int> {
    Seq::new(t.parts.len(), |i: int| i)
}

/// The places of the `FSHD` blocks.
pub open spec fn fshd_places(t: Table) -> Seq<int> {
    Seq::new(t.drivers.len(), |f: int| table::driver_at(t.drivers, t.drivers_from(), f))
}

/// The places of the `LSEG` blocks of driver `f`.
pub open spec fn lseg_places(t: Table, f: int) -> Seq<int> {
    Seq::new(
        t.drivers[f].chain.len(),
        |j: int| table::driver_at(t.drivers, t.drivers_from(), f) + 1 + j,
    )
}

/// The places of the `BADB` blocks.
pub open spec fn badb_places(t: Table) -> Seq<int> {
    Seq::new(t.badbs.len(), |i: int| t.badbs_from() + i)
}

/// What stands at the places of filesystem `f`.
pub proof fn lemma_driver_entries(t: Table, f: int)
    requires
        0 <= f < t.drivers.len(),
        t.blocks().len() <= usize::MAX,
    ensures
        ({
            let at = fshd_places(t)[f];
            &&& t.drivers_from() <= at
            &&& at + 1 + t.drivers[f].chain.len() <= t.badbs_from()
            &&& t.blocks()[at] == t.drivers[f].header
            &&& t.slots()[at] == table::header_slot(t.drivers, t.drivers_from(), f)
            &&& f + 1 < t.drivers.len() ==> fshd_places(t)[f + 1] == at + 1
                + t.drivers[f].chain.len()
            &&& forall|j: int|
                0 <= j < t.drivers[f].chain.len() ==> {
                    &&& t.blocks()[#[trigger] lseg_places(t, f)[j]] == t.drivers[f].chain[j]
                    &&& t.slots()[lseg_places(t, f)[j]] == table::chain_slots(
                        t.drivers[f].chain,
                        at + 1,
                    )[j]
                }
        }),
{
    let p = t.drivers_from();
    let n = t.drivers.len() as int;
    let at = table::driver_blocks(t.drivers.take(f)).len() as int;
    let middle = table::driver_slots(t.drivers, p, n);
    commit::lemma_slots_len(t);
    table::lemma_driver_place(t.drivers, f);
    table::lemma_driver_slots(t.drivers, p, n, f);
    assert(t.blocks()[p + at] == table::driver_blocks(t.drivers)[at]);
    assert(t.slots()[p + at] == middle[at]);
    assert forall|j: int| 0 <= j < t.drivers[f].chain.len() implies {
        &&& t.blocks()[#[trigger] lseg_places(t, f)[j]] == t.drivers[f].chain[j]
        &&& t.slots()[lseg_places(t, f)[j]] == table::chain_slots(t.drivers[f].chain, p + at + 1)[j]
    } by {
        assert(table::driver_blocks(t.drivers)[at + 1 + j] == t.drivers[f].chain[j]);
        assert(middle[at + 1 + j] == table::chain_slots(t.drivers[f].chain, p + at + 1)[j]);
        assert(t.blocks()[p + at + 1 + j] == table::driver_blocks(t.drivers)[at + 1 + j]);
        assert(t.slots()[p + at + 1 + j] == middle[at + 1 + j]);
    }
}

/// A later filesystem stands behind an earlier one.
proof fn lemma_drivers_ordered(t: Table, f: int, g: int)
    requires
        0 <= f < g < t.drivers.len(),
        t.blocks().len() <= usize::MAX,
    ensures
        fshd_places(t)[f] + 1 + t.drivers[f].chain.len() <= fshd_places(t)[g],
    decreases g,
{
    lemma_driver_entries(t, g - 1);
    if f < g - 1 {
        lemma_drivers_ordered(t, f, g - 1);
    }
}

/// The chains of a table are in line.
proof fn lemma_in_line(t: Table)
    requires
        t.wf(),
        t.blocks().len() <= usize::MAX,
    ensures
        in_line(t, part_places(t), id::PART),
        in_line(t, fshd_places(t), id::FSHD),
        in_line(t, badb_places(t), id::BADB),
        forall|f: int|
            0 <= f < t.drivers.len() ==> in_line(t, #[trigger] lseg_places(t, f), id::LSEG),
{
    let p = t.drivers_from();
    let q = t.badbs_from();
    commit::lemma_slots_len(t);
    assert(in_line(t, part_places(t), id::PART)) by {
        let at = part_places(t);
        assert forall|j: int| 0 <= j < at.len() implies {
            &&& 0 <= #[trigger] at[j] < t.blocks().len()
            &&& bytes::long_at(t.blocks()[at[j]].bytes, hdr::ID as int) == id::PART
            &&& t.slots()[at[j]].next == if j == at.len() - 1 {
                None::<usize>
            } else {
                Some(at[j + 1] as usize)
            }
        } by {
            assert(t.blocks()[j] == t.parts[j]);
            assert(t.slots()[j] == table::chain_slots(t.parts, 0)[j]);
        }
    }
    assert(in_line(t, badb_places(t), id::BADB)) by {
        let at = badb_places(t);
        assert forall|j: int| 0 <= j < at.len() implies {
            &&& 0 <= #[trigger] at[j] < t.blocks().len()
            &&& bytes::long_at(t.blocks()[at[j]].bytes, hdr::ID as int) == id::BADB
            &&& t.slots()[at[j]].next == if j == at.len() - 1 {
                None::<usize>
            } else {
                Some(at[j + 1] as usize)
            }
        } by {
            assert(t.blocks()[q + j] == t.badbs[j]);
            assert(t.slots()[q + j] == table::chain_slots(t.badbs, q)[j]);
        }
    }
    assert(in_line(t, fshd_places(t), id::FSHD)) by {
        let at = fshd_places(t);
        assert forall|j: int| 0 <= j < at.len() implies {
            &&& 0 <= #[trigger] at[j] < t.blocks().len()
            &&& bytes::long_at(t.blocks()[at[j]].bytes, hdr::ID as int) == id::FSHD
            &&& t.slots()[at[j]].next == if j == at.len() - 1 {
                None::<usize>
            } else {
                Some(at[j + 1] as usize)
            }
        } by {
            lemma_driver_entries(t, j);
        }
        assert forall|i: int, j: int|
            0 <= i < at.len() && 0 <= j < at.len() && i != j implies #[trigger] at[i]
            != #[trigger] at[j] by {
            if i < j {
                lemma_drivers_ordered(t, i, j);
            } else {
                lemma_drivers_ordered(t, j, i);
            }
        }
    }
    assert forall|f: int| 0 <= f < t.drivers.len() implies in_line(
        t,
        #[trigger] lseg_places(t, f),
        id::LSEG,
    ) by {
        let at = lseg_places(t, f);
        lemma_driver_entries(t, f);
        assert forall|j: int| 0 <= j < at.len() implies {
            &&& 0 <= #[trigger] at[j] < t.blocks().len()
            &&& bytes::long_at(t.blocks()[at[j]].bytes, hdr::ID as int) == id::LSEG
            &&& t.slots()[at[j]].next == if j == at.len() - 1 {
                None::<usize>
            } else {
                Some(at[j + 1] as usize)
            }
        } by {
            assert(table::sound_bytes(t.drivers[f].chain[j].bytes, id::LSEG, t.block_size));
        }
    }
}

/// What is written can be read back from `m`: the blocks it goes to exist and
/// can be pointed at, no other `RDSK` block comes before the table's own, and no
/// chain is too long to be walked.
pub open spec fn readable_on(m: Medium, t: Table, assigned: Seq<u64>) -> bool {
    &&& m.block_size == t.block_size
    &&& m.has(t.rdsk_block)
    &&& forall|j: u64| j < t.rdsk_block ==> !walk::good_block(#[trigger] m.blocks[j], id::RDSK)
    &&& forall|i: int|
        0 <= i < assigned.len() ==> (#[trigger] assigned[i]) < CHAIN_END && m.has(assigned[i])
    &&& t.parts.len() <= MAX_CHAIN_BLOCKS
    &&& t.drivers.len() <= MAX_CHAIN_BLOCKS
    &&& t.badbs.len() <= MAX_CHAIN_BLOCKS
}

/// A block of the table is no `RDSK` block.
proof fn lemma_no_rdsk_in_chains(t: Table, i: int)
    requires
        t.wf(),
        0 <= i < t.blocks().len(),
    ensures
        bytes::long_at(t.blocks()[i].bytes, hdr::ID as int) != id::RDSK,
{
    let p = t.drivers_from();
    let q = t.badbs_from();
    if i < p {
        assert(t.blocks()[i] == t.parts[i]);
    } else if i < q {
        let (f, j) = table::lemma_driver_block(t.drivers, i - p);
        assert(t.blocks()[i] == table::driver_blocks(t.drivers)[i - p]);
        if j >= 0 {
            assert(table::sound_bytes(t.drivers[f].chain[j].bytes, id::LSEG, t.block_size));
        }
    } else {
        assert(t.blocks()[i] == t.badbs[i - q]);
    }
}

/// A commit puts no `RDSK` block where there was none, its own aside.
pub proof fn lemma_no_other_rdsk(
    m: Medium,
    t: Table,
    assigned: Seq<u64>,
    zeroed: Seq<u64>,
    k: int,
    b: u64,
)
    requires
        planned(t, assigned, zeroed),
        0 <= k <= commit::commit_writes(t, assigned, zeroed).len(),
        b != t.rdsk_block,
        !walk::good_block(m.blocks[b], id::RDSK),
    ensures
        !walk::good_block(state(m, t, assigned, zeroed, k).blocks[b], id::RDSK),
{
    let w = commit::commit_writes(t, assigned, zeroed);
    let v = w.take(k);
    let n = t.blocks().len() as int;
    media::lemma_after_writes_either(m, v, b);
    let c = state(m, t, assigned, zeroed, k).blocks[b];
    if c != m.blocks[b] {
        let j = choose|j: int| 0 <= j < v.len() && (#[trigger] v[j]).0 == b && v[j].1 == c;
        assert(w[j] == v[j]);
        if j < n {
            let i = commit::lemma_write_of(t, assigned, zeroed, j);
            lemma_image_id(t, assigned, i);
            lemma_no_rdsk_in_chains(t, i);
        } else if j > n {
            assert(w[j] == commit::zero_writes(t, zeroed)[j - n - 1]);
            image::lemma_zeros_long(t.block_size as nat, hdr::ID as int);
        }
    }
}

/// Once the `RDSK` block of a commit is on the disk, a scan finds it, and every
/// chain it heads is whole; zeroing what is no longer used changes nothing of
/// that.
pub proof fn law_committed_chains_are_whole(
    m: Medium,
    t: Table,
    assigned: Seq<u64>,
    zeroed: Seq<u64>,
    k: int,
)
    requires
        planned(t, assigned, zeroed),
        readable_on(m, t, assigned),
        t.blocks().len() < k <= commit::commit_writes(t, assigned, zeroed).len(),
    ensures
        ({
            let s = state(m, t, assigned, zeroed, k);
            let b = commit::rdsk_image(t, assigned);
            &&& s.block_size == t.block_size
            &&& s.blocks[t.rdsk_block] == b
            &&& parse::rdsk_usable_at(s, t.rdsk_block)
            &&& walk::is_chain(
                s,
                bytes::long_at(b, rdsk::PARTITION_LIST as int),
                id::PART,
                addresses(assigned, part_places(t)),
            )
            &&& walk::is_chain(
                s,
                bytes::long_at(b, rdsk::FILESYS_HEADER_LIST as int),
                id::FSHD,
                addresses(assigned, fshd_places(t)),
            )
            &&& walk::is_chain(
                s,
                bytes::long_at(b, rdsk::BAD_BLOCK_LIST as int),
                id::BADB,
                addresses(assigned, badb_places(t)),
            )
            &&& forall|f: int|
                0 <= f < t.drivers.len() && t.drivers[f].chain.len() <= MAX_CHAIN_BLOCKS
                    ==> walk::is_chain(
                    s,
                    plan::pointer(assigned, t.slots()[fshd_places(t)[f]].seg),
                    id::LSEG,
                    addresses(assigned, #[trigger] lseg_places(t, f)),
                )
        }),
{
    let s = state(m, t, assigned, zeroed, k);
    lemma_committed_rdsk(m, t, assigned, zeroed, k);
    law_commit_preserves_rdsk(t, assigned);
    lemma_heads(t, assigned);
    assert(in_line(t, part_places(t), id::PART) && in_line(t, fshd_places(t), id::FSHD) && in_line(
        t,
        badb_places(t),
        id::BADB,
    )) by {
        lemma_in_line(t);
    }
    lemma_committed_chain(m, t, assigned, zeroed, k, part_places(t), id::PART);
    lemma_committed_chain(m, t, assigned, zeroed, k, fshd_places(t), id::FSHD);
    lemma_committed_chain(m, t, assigned, zeroed, k, badb_places(t), id::BADB);
    assert forall|f: int|
        0 <= f < t.drivers.len() && t.drivers[f].chain.len() <= MAX_CHAIN_BLOCKS implies walk::is_chain(
        s,
        plan::pointer(assigned, t.slots()[fshd_places(t)[f]].seg),
        id::LSEG,
        addresses(assigned, #[trigger] lseg_places(t, f)),
    ) by {
        assert(in_line(t, lseg_places(t, f), id::LSEG)) by {
            lemma_in_line(t);
        }
        lemma_driver_entries(t, f);
        lemma_committed_chain(m, t, assigned, zeroed, k, lseg_places(t, f), id::LSEG);
    }
}

/// A scan finds the `RDSK` block of a committed table.
proof fn lemma_committed_rdsk(
    m: Medium,
    t: Table,
    assigned: Seq<u64>,
    zeroed: Seq<u64>,
    k: int,
)
    requires
        planned(t, assigned, zeroed),
        readable_on(m, t, assigned),
        t.blocks().len() < k <= commit::commit_writes(t, assigned, zeroed).len(),
    ensures
        state(m, t, assigned, zeroed, k).block_size == t.block_size,
        state(m, t, assigned, zeroed, k).blocks[t.rdsk_block] == commit::rdsk_image(t, assigned),
        parse::rdsk_usable_at(state(m, t, assigned, zeroed, k), t.rdsk_block),
{
    let s = state(m, t, assigned, zeroed, k);
    lemma_state(m, t, assigned, zeroed, k);
    law_commit_preserves_rdsk(t, assigned);
    assert forall|j: u64| j < t.rdsk_block implies !walk::good_block(
        #[trigger] s.blocks[j],
        id::RDSK,
    ) by {
        lemma_no_other_rdsk(m, t, assigned, zeroed, k, j);
    }
}

/// The heads of the chains are their first structures.
pub proof fn lemma_heads(t: Table, assigned: Seq<u64>)
    requires
        t.blocks().len() <= usize::MAX,
    ensures
        t.parts.len() > 0 ==> part_places(t)[0] == 0,
        t.drivers.len() > 0 ==> fshd_places(t)[0] == t.drivers_from() && t.drivers_from()
            < t.badbs_from(),
        t.drivers.len() == 0 ==> t.drivers_from() == t.badbs_from(),
        t.badbs.len() > 0 ==> badb_places(t)[0] == t.badbs_from(),
        t.badbs_from() + t.badbs.len() == t.blocks().len(),
{
    if t.drivers.len() > 0 {
        lemma_driver_entries(t, 0);
        assert(t.drivers.take(0) =~= Seq::<Driver>::empty());
    }
}

/// Structures in line are a whole chain of a committed table.
proof fn lemma_committed_chain(
    m: Medium,
    t: Table,
    assigned: Seq<u64>,
    zeroed: Seq<u64>,
    k: int,
    at: Seq<int>,
    id: u32,
)
    requires
        planned(t, assigned, zeroed),
        readable_on(m, t, assigned),
        t.blocks().len() < k <= commit::commit_writes(t, assigned, zeroed).len(),
        in_line(t, at, id),
        at.len() <= MAX_CHAIN_BLOCKS,
    ensures
        walk::is_chain(
            state(m, t, assigned, zeroed, k),
            if at.len() == 0 {
                CHAIN_END
            } else {
                assigned[at[0]] as u32
            },
            id,
            addresses(assigned, at),
        ),
{
    let s = state(m, t, assigned, zeroed, k);
    commit::lemma_plan_places(t, assigned, zeroed);
    assert forall|j: int| 0 <= j < at.len() implies {
        let lba = assigned[#[trigger] at[j]];
        &&& lba < CHAIN_END
        &&& s.has(lba)
        &&& s.blocks[lba] == commit::block_image(t, assigned, at[j])
    } by {
        lemma_committed_block(m, t, assigned, zeroed, k, at[j]);
        assert(s.block_count == m.block_count) by {
            lemma_state(m, t, assigned, zeroed, k);
        }
    }
    lemma_written_chain(s, t, assigned, zeroed, at, id);
}

/// `rdb` is the table `t`, its blocks standing where `assigned` says.
pub open spec fn reads_as_committed(t: Table, assigned: Seq<u64>, rdb: Rdb) -> bool {
    &&& model::rdsk_reads_but_heads(
        rdb,
        bytes::with_long(
            t.rdsk,
            rdsk::HIGH_RDSK_BLOCK as int,
            plan::highest(t.area(), assigned) as u32,
        ),
        t.rdsk_block,
    )
    &&& rdb.partitions@.len() == t.parts.len()
    &&& forall|i: int|
        0 <= i < t.parts.len() ==> model::part_reads(
            #[trigger] rdb.partitions@[i],
            t.parts[i].bytes,
            assigned[i],
        )
    &&& rdb.filesystems@.len() == t.drivers.len()
    &&& forall|f: int|
        0 <= f < t.drivers.len() ==> {
            &&& model::fshd_reads_but_head(
                #[trigger] rdb.filesystems@[f],
                t.drivers[f].header.bytes,
                assigned[fshd_places(t)[f]],
            )
            &&& rdb.filesystems@[f].seg_list_blocks == plan::pointer(
                assigned,
                t.slots()[fshd_places(t)[f]].seg,
            )
        }
    &&& rdb.bad_blocks@ == table::entries_of(t.badbs)
    &&& rdb.badb_blocks@ == addresses(assigned, badb_places(t))
}

/// A table that was committed reads back: whatever a parse of the disk gives
/// once the `RDSK` block is on it, it is the table that was committed.
pub proof fn law_committed_table_reads_back(
    m: Medium,
    t: Table,
    assigned: Seq<u64>,
    zeroed: Seq<u64>,
    k: int,
    rdb: Rdb,
)
    requires
        planned(t, assigned, zeroed),
        readable_on(m, t, assigned),
        t.blocks().len() < k <= commit::commit_writes(t, assigned, zeroed).len(),
        parse::parses_as(state(m, t, assigned, zeroed, k), rdb),
    ensures
        reads_as_committed(t, assigned, rdb),
{
    let s = state(m, t, assigned, zeroed, k);
    let b = commit::rdsk_image(t, assigned);
    law_committed_chains_are_whole(m, t, assigned, zeroed, k);
    assert(rdb.rdsk_block == t.rdsk_block) by {
        assert(walk::good_block(s.blocks[t.rdsk_block], id::RDSK));
        assert(walk::good_block(s.blocks[rdb.rdsk_block], id::RDSK));
    }
    let parts = addresses(assigned, part_places(t));
    let fshds = addresses(assigned, fshd_places(t));
    let badbs = addresses(assigned, badb_places(t));
    walk::law_chain_is_unique(
        s,
        bytes::long_at(b, rdsk::PARTITION_LIST as int),
        id::PART,
        parts,
        parse::part_lbas(rdb),
    );
    walk::law_chain_is_unique(
        s,
        bytes::long_at(b, rdsk::FILESYS_HEADER_LIST as int),
        id::FSHD,
        fshds,
        parse::fshd_lbas(rdb),
    );
    walk::law_chain_is_unique(
        s,
        bytes::long_at(b, rdsk::BAD_BLOCK_LIST as int),
        id::BADB,
        badbs,
        rdb.badb_blocks@,
    );
    assert(parse::part_lbas(rdb).len() == rdb.partitions@.len());
    assert(parse::fshd_lbas(rdb).len() == rdb.filesystems@.len());
    assert forall|i: int| 0 <= i < t.parts.len() implies model::part_reads(
        #[trigger] rdb.partitions@[i],
        t.parts[i].bytes,
        assigned[i],
    ) by {
        assert(parse::part_lbas(rdb)[i] == parts[i]);
        lemma_committed_block(m, t, assigned, zeroed, k, i);
        assert(t.blocks()[i] == t.parts[i]);
        law_commit_preserves_blocks(t, assigned, i);
        commit::lemma_slots_len(t);
        assert(t.slots()[i] == table::chain_slots(t.parts, 0)[i]);
        model::lemma_part_reads_past_header(
            rdb.partitions@[i],
            commit::block_image(t, assigned, i),
            t.parts[i].bytes,
            assigned[i],
        );
    }
    assert forall|f: int| 0 <= f < t.drivers.len() implies {
        &&& model::fshd_reads_but_head(
            #[trigger] rdb.filesystems@[f],
            t.drivers[f].header.bytes,
            assigned[fshd_places(t)[f]],
        )
        &&& rdb.filesystems@[f].seg_list_blocks == plan::pointer(
            assigned,
            t.slots()[fshd_places(t)[f]].seg,
        )
    } by {
        let i = fshd_places(t)[f];
        assert(parse::fshd_lbas(rdb)[f] == fshds[f]);
        lemma_driver_entries(t, f);
        lemma_committed_block(m, t, assigned, zeroed, k, i);
        law_commit_preserves_blocks(t, assigned, i);
        model::lemma_fshd_reads_past_pointers(
            rdb.filesystems@[f],
            commit::block_image(t, assigned, i),
            t.drivers[f].header.bytes,
            assigned[i],
        );
    }
    lemma_committed_entries(m, t, assigned, zeroed, k, t.badbs.len() as int);
    assert(badbs.take(t.badbs.len() as int) =~= badbs);
    assert(t.badbs.take(t.badbs.len() as int) =~= t.badbs);
    lemma_rdsk_fields(t, assigned, rdb);
}

/// What the medium holds where a block of a committed table stands.
proof fn lemma_committed_block(
    m: Medium,
    t: Table,
    assigned: Seq<u64>,
    zeroed: Seq<u64>,
    k: int,
    i: int,
)
    requires
        planned(t, assigned, zeroed),
        t.blocks().len() < k <= commit::commit_writes(t, assigned, zeroed).len(),
        0 <= i < t.blocks().len(),
    ensures
        state(m, t, assigned, zeroed, k).blocks[assigned[i]] == commit::block_image(
            t,
            assigned,
            i,
        ),
{
    lemma_state(m, t, assigned, zeroed, k);
    lemma_turn(t, assigned, zeroed, i);
}

/// The entries of the first `n` `BADB` blocks of a committed table.
proof fn lemma_committed_entries(
    m: Medium,
    t: Table,
    assigned: Seq<u64>,
    zeroed: Seq<u64>,
    k: int,
    n: int,
)
    requires
        planned(t, assigned, zeroed),
        t.blocks().len() < k <= commit::commit_writes(t, assigned, zeroed).len(),
        0 <= n <= t.badbs.len(),
    ensures
        parse::all_entries(
            state(m, t, assigned, zeroed, k),
            addresses(assigned, badb_places(t)).take(n),
        ) == table::entries_of(t.badbs.take(n)),
    decreases n,
{
    let lbas = addresses(assigned, badb_places(t));
    if n > 0 {
        let i = t.badbs_from() + n - 1;
        lemma_committed_entries(m, t, assigned, zeroed, k, n - 1);
        lemma_committed_block(m, t, assigned, zeroed, k, i);
        law_commit_preserves_blocks(t, assigned, i);
        commit::lemma_slots_len(t);
        assert(t.blocks()[i] == t.badbs[n - 1]);
        assert(t.slots()[i] == table::chain_slots(t.badbs, t.badbs_from())[n - 1]);
        model::lemma_badb_entries_past_pointer(
            commit::block_image(t, assigned, i),
            t.badbs[n - 1].bytes,
        );
        assert(lbas.take(n).drop_last() =~= lbas.take(n - 1));
        assert(t.badbs.take(n).drop_last() =~= t.badbs.take(n - 1));
    }
}

/// The disk-level fields of a committed table.
proof fn lemma_rdsk_fields(t: Table, assigned: Seq<u64>, rdb: Rdb)
    requires
        t.wf(),
        model::rdsk_reads(rdb, commit::rdsk_image(t, assigned), t.rdsk_block),
    ensures
        model::rdsk_reads_but_heads(
            rdb,
            bytes::with_long(
                t.rdsk,
                rdsk::HIGH_RDSK_BLOCK as int,
                plan::highest(t.area(), assigned) as u32,
            ),
            t.rdsk_block,
        ),
{
    law_commit_preserves_rdsk(t, assigned);
    let b = commit::rdsk_image(t, assigned);
    let c = bytes::with_long(
        t.rdsk,
        rdsk::HIGH_RDSK_BLOCK as int,
        plan::highest(t.area(), assigned) as u32,
    );
    assert forall|off: int|
        12 <= off && off + 4 <= b.len() && (off + 4 <= rdsk::BAD_BLOCK_LIST
            || rdsk::FILESYS_HEADER_LIST + 4 <= off) && (off + 4 <= rdsk::HIGH_RDSK_BLOCK
            || rdsk::HIGH_RDSK_BLOCK + 4 <= off) implies #[trigger] bytes::long_at(b, off)
        == bytes::long_at(c, off) by {
        bytes::lemma_long_at_same_bytes(b, t.rdsk, off);
    }
    assert forall|i: int| 156 <= i < t.block_size implies #[trigger] b[i] == c[i] by {
        assert(b[i] == t.rdsk[i]);
    }
    assert(b.subrange(160, 168) =~= c.subrange(160, 168));
    assert(b.subrange(168, 184) =~= c.subrange(168, 184));
    assert(b.subrange(184, 188) =~= c.subrange(184, 188));
    assert(b.subrange(188, 196) =~= c.subrange(188, 196));
    assert(b.subrange(196, 212) =~= c.subrange(196, 212));
    assert(b.subrange(212, 216) =~= c.subrange(212, 216));
}

/// No read fails that finding and parsing a committed table takes.
pub open spec fn reads_committed<S: BlockSource>(disk: S, t: Table, assigned: Seq<u64>) -> bool {
    parse::reads_table(
        disk,
        t.rdsk_block,
        addresses(assigned, part_places(t)),
        addresses(assigned, fshd_places(t)),
        addresses(assigned, badb_places(t)),
    )
}

/// A parse of a disk with a committed table does not fail, unless a read of the
/// blocks up to its `RDSK` block, or of the blocks of its chains, does.
pub proof fn law_committed_table_parses<S: BlockSource>(
    m: Medium,
    t: Table,
    assigned: Seq<u64>,
    zeroed: Seq<u64>,
    k: int,
    disk: S,
    r: Result<Rdb, RdbError<S::Error>>,
)
    requires
        planned(t, assigned, zeroed),
        readable_on(m, t, assigned),
        t.blocks().len() < k <= commit::commit_writes(t, assigned, zeroed).len(),
        disk.medium() == state(m, t, assigned, zeroed, k),
        reads_committed(disk, t, assigned),
        parse::parse_outcome(disk, r),
    ensures
        r matches Ok(rdb) && reads_as_committed(t, assigned, rdb),
{
    law_committed_chains_are_whole(m, t, assigned, zeroed, k);
    parse::law_whole_table_parses(
        disk,
        t.rdsk_block,
        addresses(assigned, part_places(t)),
        addresses(assigned, fshd_places(t)),
        addresses(assigned, badb_places(t)),
        r,
    );
    law_committed_table_reads_back(m, t, assigned, zeroed, k, r->Ok_0);
}

/// A commit writes what the model says: a table that reads back after it has
/// the partitions, the filesystems, the bad blocks and the disk-level values of
/// the model, and only the places of its blocks are new.
pub proof fn law_committed_table_is_the_model(
    t: Table,
    assigned: Seq<u64>,
    before: Rdb,
    after: Rdb,
)
    requires
        t.wf(),
        table::in_step(t, before),
        reads_as_committed(t, assigned, after),
    ensures
        model::same_disk(before, after),
        after.partitions@.len() == before.partitions@.len(),
        forall|i: int|
            0 <= i < before.partitions@.len() ==> model::same_partition(
                before.partitions@[i],
                #[trigger] after.partitions@[i],
            ),
        after.filesystems@.len() == before.filesystems@.len(),
        forall|f: int|
            0 <= f < before.filesystems@.len() ==> model::same_filesystem(
                before.filesystems@[f],
                #[trigger] after.filesystems@[f],
            ),
        after.bad_blocks@ == before.bad_blocks@,
{
    let h = plan::highest(t.area(), assigned) as u32;
    let c = bytes::with_long(t.rdsk, rdsk::HIGH_RDSK_BLOCK as int, h);
    assert(c.subrange(160, 168) =~= t.rdsk.subrange(160, 168));
    assert(c.subrange(168, 184) =~= t.rdsk.subrange(168, 184));
    assert(c.subrange(184, 188) =~= t.rdsk.subrange(184, 188));
    assert(c.subrange(188, 196) =~= t.rdsk.subrange(188, 196));
    assert(c.subrange(196, 212) =~= t.rdsk.subrange(196, 212));
    assert(c.subrange(212, 216) =~= t.rdsk.subrange(212, 216));
    assert forall|i: int| 0 <= i < before.partitions@.len() implies model::same_partition(
        before.partitions@[i],
        #[trigger] after.partitions@[i],
    ) by {
        assert(model::part_reads(before.partitions@[i], t.parts[i].bytes, t.parts[i].lba));
    }
    assert forall|f: int| 0 <= f < before.filesystems@.len() implies model::same_filesystem(
        before.filesystems@[f],
        #[trigger] after.filesystems@[f],
    ) by {
        assert(model::fshd_reads_but_head(
            before.filesystems@[f],
            t.drivers[f].header.bytes,
            t.drivers[f].header.lba,
        ));
    }
}

/// What the blocks of a driver carry.
pub open spec fn payload_in(chain: Seq<Raw>) -> Seq<u8>
    decreases chain.len(),
{
    if chain.len() == 0 {
        Seq::empty()
    } else {
        payload_in(chain.drop_last()) + chain.last().bytes.subrange(
            lseg::LOAD_DATA as int,
            chain.last().bytes.len() as int,
        )
    }
}

/// A driver comes through a commit as it was: a load of it from the disk does
/// not fail, unless a read of one of its blocks does, and gives what its blocks
/// carried.
pub proof fn law_committed_driver_loads_back<S: BlockSource>(
    m: Medium,
    t: Table,
    assigned: Seq<u64>,
    zeroed: Seq<u64>,
    k: int,
    rdb: Rdb,
    f: int,
    disk: S,
    r: Result<Vec<u8>, RdbError<S::Error>>,
)
    requires
        planned(t, assigned, zeroed),
        readable_on(m, t, assigned),
        t.blocks().len() < k <= commit::commit_writes(t, assigned, zeroed).len(),
        0 <= f < t.drivers.len(),
        t.drivers[f].chain.len() <= MAX_CHAIN_BLOCKS,
        disk.medium() == state(m, t, assigned, zeroed, k),
        walk::reads_all(disk, addresses(assigned, lseg_places(t, f))),
        parse::parses_as(disk.medium(), rdb),
        parse::load_outcome(rdb, rdb.filesystems@[f], disk, r),
    ensures
        r matches Ok(binary) && binary@ == payload_in(t.drivers[f].chain),
{
    let n = t.drivers[f].chain.len() as int;
    let lbas = addresses(assigned, lseg_places(t, f));
    law_committed_chains_are_whole(m, t, assigned, zeroed, k);
    law_committed_table_reads_back(m, t, assigned, zeroed, k, rdb);
    assert(rdb.filesystems@[f].seg_list_blocks == plan::pointer(
        assigned,
        t.slots()[fshd_places(t)[f]].seg,
    ));
    parse::law_whole_driver_loads(rdb, rdb.filesystems@[f], disk, lbas, r);
    lemma_committed_payload(m, t, assigned, zeroed, k, f, n);
    assert(lbas.take(n) =~= lbas);
    assert(t.drivers[f].chain.take(n) =~= t.drivers[f].chain);
}

/// The first `n` blocks of a driver come through a commit as they were.
proof fn lemma_committed_payload(
    m: Medium,
    t: Table,
    assigned: Seq<u64>,
    zeroed: Seq<u64>,
    k: int,
    f: int,
    n: int,
)
    requires
        planned(t, assigned, zeroed),
        t.blocks().len() < k <= commit::commit_writes(t, assigned, zeroed).len(),
        0 <= f < t.drivers.len(),
        0 <= n <= t.drivers[f].chain.len(),
    ensures
        parse::payload_of(
            state(m, t, assigned, zeroed, k),
            addresses(assigned, lseg_places(t, f)).take(n),
        ) == payload_in(t.drivers[f].chain.take(n)),
    decreases n,
{
    let lbas = addresses(assigned, lseg_places(t, f));
    let chain = t.drivers[f].chain;
    if n > 0 {
        lemma_committed_payload(m, t, assigned, zeroed, k, f, n - 1);
        lemma_driver_entries(t, f);
        let i = lseg_places(t, f)[n - 1];
        assert(t.blocks()[i] == chain[n - 1]);
        lemma_committed_block(m, t, assigned, zeroed, k, i);
        law_commit_preserves_blocks(t, assigned, i);
        commit::lemma_block_sound(t, i);
        let b = commit::block_image(t, assigned, i);
        assert(b.subrange(lseg::LOAD_DATA as int, b.len() as int) =~= chain[n - 1].bytes.subrange(
            lseg::LOAD_DATA as int,
            b.len() as int,
        ));
        assert(lbas.take(n).drop_last() =~= lbas.take(n - 1));
        assert(chain.take(n).drop_last() =~= chain.take(n - 1));
    }
}

/// The block `b` stands where one of the list `a` was found, and is of its kind.
pub open spec fn stands_in(a: Seq<Raw>, b: Raw) -> bool {
    exists|j: int|
        {
            &&& 0 <= j < a.len()
            &&& (#[trigger] a[j]).lba == b.lba
            &&& bytes::long_at(a[j].bytes, hdr::ID as int) == bytes::long_at(
                b.bytes,
                hdr::ID as int,
            )
        }
}

/// `u` is `t` after edits: it is still to be written where `t` was found, and
/// every block of it that was found somewhere is a block of that kind of `t`.
pub open spec fn descends(t: Table, u: Table) -> bool {
    &&& u.block_size == t.block_size
    &&& u.rdsk_block == t.rdsk_block
    &&& u.original == t.original
    &&& u.disk_blocks == t.disk_blocks
    &&& u.opened_hi == t.opened_hi
    &&& forall|i: int|
        0 <= i < u.blocks().len() && (#[trigger] u.blocks()[i]).lba != UNPLACED_BLOCK ==> stands_in(
            t.blocks(),
            u.blocks()[i],
        )
}

/// Every block of `u` that was found somewhere is a block of `t`, unchanged.
pub open spec fn keeps_blocks(t: Table, u: Table) -> bool {
    forall|i: int|
        0 <= i < u.blocks().len() && (#[trigger] u.blocks()[i]).lba != UNPLACED_BLOCK
            ==> t.blocks().contains(u.blocks()[i])
}

/// Edits that leave the blocks they keep unchanged do so one after another.
pub proof fn law_kept_blocks_compose(t: Table, u: Table, v: Table)
    requires
        keeps_blocks(t, u),
        keeps_blocks(u, v),
    ensures
        keeps_blocks(t, v),
{
    assert forall|i: int|
        0 <= i < v.blocks().len() && (#[trigger] v.blocks()[i]).lba
            != UNPLACED_BLOCK implies t.blocks().contains(v.blocks()[i]) by {
        assert(u.blocks().contains(v.blocks()[i]));
        let j = choose|j: int| 0 <= j < u.blocks().len() && u.blocks()[j] == v.blocks()[i];
        assert(t.blocks().contains(u.blocks()[j]));
    }
}

/// One edit after another is an edit.
pub proof fn law_edits_compose(t: Table, u: Table, v: Table)
    requires
        descends(t, u),
        descends(u, v),
    ensures
        descends(t, v),
{
    assert forall|i: int|
        0 <= i < v.blocks().len() && (#[trigger] v.blocks()[i]).lba != UNPLACED_BLOCK implies stands_in(
        t.blocks(),
        v.blocks()[i],
    ) by {
        let b = v.blocks()[i];
        assert(stands_in(u.blocks(), b));
        let j = choose|j: int|
            {
                &&& 0 <= j < u.blocks().len()
                &&& (#[trigger] u.blocks()[j]).lba == b.lba
                &&& bytes::long_at(u.blocks()[j].bytes, hdr::ID as int) == bytes::long_at(
                    b.bytes,
                    hdr::ID as int,
                )
            };
        let c = u.blocks()[j];
        assert(stands_in(t.blocks(), c));
        let k = choose|k: int|
            {
                &&& 0 <= k < t.blocks().len()
                &&& (#[trigger] t.blocks()[k]).lba == c.lba
                &&& bytes::long_at(t.blocks()[k].bytes, hdr::ID as int) == bytes::long_at(
                    c.bytes,
                    hdr::ID as int,
                )
            };
        assert(t.blocks()[k].lba == b.lba);
    }
}

/// Tables whose blocks are those of `t`, or are new, descend from `t`.
proof fn lemma_descends(t: Table, u: Table)
    requires
        u.block_size == t.block_size,
        u.rdsk_block == t.rdsk_block,
        u.original == t.original,
        u.disk_blocks == t.disk_blocks,
        u.opened_hi == t.opened_hi,
        keeps_blocks(t, u),
    ensures
        descends(t, u),
{
    assert forall|i: int|
        0 <= i < u.blocks().len() && (#[trigger] u.blocks()[i]).lba != UNPLACED_BLOCK implies stands_in(
        t.blocks(),
        u.blocks()[i],
    ) by {
        let b = u.blocks()[i];
        assert(t.blocks().contains(b));
        let j = choose|j: int| 0 <= j < t.blocks().len() && t.blocks()[j] == b;
        assert(t.blocks()[j].lba == b.lba);
    }
}

/// An edit of a disk-level field moves no block.
pub proof fn law_rdsk_edit_descends(t: Table, b: Seq<u8>)
    ensures
        descends(t, Table { rdsk: b, ..t }),
        keeps_blocks(t, Table { rdsk: b, ..t }),
{
    lemma_descends(t, Table { rdsk: b, ..t });
}

/// An edit of a partition moves no block.
pub proof fn law_part_edit_descends(t: Table, i: int, b: Seq<u8>)
    requires
        t.wf(),
        t.with_part(i, b).wf(),
        0 <= i < t.parts.len(),
    ensures
        descends(t, t.with_part(i, b)),
{
    let u = t.with_part(i, b);
    assert forall|k: int|
        0 <= k < u.blocks().len() && (#[trigger] u.blocks()[k]).lba != UNPLACED_BLOCK implies stands_in(
        t.blocks(),
        u.blocks()[k],
    ) by {
        assert(t.blocks()[k].lba == u.blocks()[k].lba);
        if k < t.parts.len() {
            assert(t.blocks()[k] == t.parts[k]);
            assert(u.blocks()[k] == u.parts[k]);
        }
    }
}

/// Adding a partition moves no block.
pub proof fn law_added_partition_descends(t: Table, b: Raw)
    requires
        b.lba == UNPLACED_BLOCK,
    ensures
        descends(t, Table { parts: t.parts.push(b), ..t }),
        keeps_blocks(t, Table { parts: t.parts.push(b), ..t }),
{
    let u = Table { parts: t.parts.push(b), ..t };
    let n = t.parts.len() as int;
    assert forall|k: int|
        0 <= k < u.blocks().len() && (#[trigger] u.blocks()[k]).lba != UNPLACED_BLOCK implies t.blocks().contains(
    u.blocks()[k]) by {
        if k < n {
            assert(t.blocks()[k] == u.blocks()[k]);
        } else if k > n {
            assert(t.blocks()[k - 1] == u.blocks()[k]);
        }
    }
    lemma_descends(t, u);
}

/// Removing a partition moves no block.
pub proof fn law_removed_partition_descends(t: Table, i: int)
    requires
        0 <= i < t.parts.len(),
    ensures
        descends(t, Table { parts: t.parts.remove(i), ..t }),
        keeps_blocks(t, Table { parts: t.parts.remove(i), ..t }),
{
    let u = Table { parts: t.parts.remove(i), ..t };
    assert forall|k: int|
        0 <= k < u.blocks().len() && (#[trigger] u.blocks()[k]).lba != UNPLACED_BLOCK implies t.blocks().contains(
    u.blocks()[k]) by {
        if k < i {
            assert(t.blocks()[k] == u.blocks()[k]);
        } else {
            assert(t.blocks()[k + 1] == u.blocks()[k]);
        }
    }
    lemma_descends(t, u);
}

/// Adding, replacing and removing filesystems moves no block: `a` and `c` are
/// those that stay, and `put` are new.
pub proof fn law_filesystem_edit_descends(
    t: Table,
    a: Seq<Driver>,
    out: Seq<Driver>,
    put: Seq<Driver>,
    c: Seq<Driver>,
)
    requires
        t.drivers == a + out + c,
        table::unplaced(table::driver_blocks(put)),
    ensures
        descends(t, Table { drivers: a + put + c, ..t }),
        keeps_blocks(t, Table { drivers: a + put + c, ..t }),
{
    let u = Table { drivers: a + put + c, ..t };
    table::lemma_driver_blocks_add(a + out, c);
    table::lemma_driver_blocks_add(a, out);
    table::lemma_driver_blocks_add(a + put, c);
    table::lemma_driver_blocks_add(a, put);
    let p = t.parts.len() as int;
    let x = table::driver_blocks(a).len() as int;
    let y = table::driver_blocks(out).len() as int;
    let z = table::driver_blocks(put).len() as int;
    assert forall|k: int|
        0 <= k < u.blocks().len() && (#[trigger] u.blocks()[k]).lba != UNPLACED_BLOCK implies t.blocks().contains(
    u.blocks()[k]) by {
        if k < p + x {
            assert(t.blocks()[k] == u.blocks()[k]);
        } else if k < p + x + z {
            assert(u.blocks()[k] == table::driver_blocks(put)[k - p - x]);
        } else {
            assert(t.blocks()[k - z + y] == u.blocks()[k]);
        }
    }
    lemma_descends(t, u);
}

/// A new bad-block list moves no block.
pub proof fn law_bad_block_edit_descends(t: Table, put: Seq<Raw>)
    requires
        table::unplaced(put),
    ensures
        descends(t, Table { badbs: put, ..t }),
        keeps_blocks(t, Table { badbs: put, ..t }),
{
    let u = Table { badbs: put, ..t };
    let q = t.badbs_from();
    assert forall|k: int|
        0 <= k < u.blocks().len() && (#[trigger] u.blocks()[k]).lba != UNPLACED_BLOCK implies t.blocks().contains(
    u.blocks()[k]) by {
        if k < q {
            assert(t.blocks()[k] == u.blocks()[k]);
        } else {
            assert(u.blocks()[k] == put[k - q]);
        }
    }
    lemma_descends(t, u);
}

} // verus!
