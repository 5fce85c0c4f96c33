//! What a table that was opened holds.
use vstd::prelude::*;

use crate::media::Medium;
use crate::model::Rdb;
use crate::table::{Driver, Raw, Table};
use crate::{commit, format_laws, model, table};

verus! {

/// The block is the one that the medium has at `lba`.
pub open spec fn is_block_at(m: Medium, b: Raw, lba: u64) -> bool {
    b.lba == lba && b.bytes == m.blocks[lba]
}

/// Where the blocks of a list were found.
pub open spec fn places(blocks: Seq<Raw>) -> Seq<u64> {
    Seq::new(blocks.len(), |i: int| blocks[i].lba)
}

/// Every block of the list is the medium's.
pub open spec fn are_blocks_of(m: Medium, blocks: Seq<Raw>) -> bool {
    forall|i: int| 0 <= i < blocks.len() ==> (#[trigger] blocks[i]).bytes == m.blocks[blocks[i].lba]
}

/// A table that was opened is what the disk has, byte for byte: the `RDSK` block,
/// the block of every partition and of every filesystem, the driver that each
/// filesystem's pointer leads through, and the bad-block list.
pub proof fn law_opened_table_is_the_disk(
    m: Medium,
    rdb: Rdb,
    chains: Seq<Seq<u64>>,
    t: Table,
)
    requires
        table::opened_as(m, rdb, chains, t),
    ensures
        t.block_size == m.block_size,
        t.disk_blocks == m.block_count,
        t.opened_hi == rdb.rdb_blocks_hi,
        t.rdsk_block == rdb.rdsk_block,
        t.rdsk == m.blocks[rdb.rdsk_block],
        t.parts.len() == rdb.partitions@.len(),
        forall|i: int|
            0 <= i < t.parts.len() ==> is_block_at(
                m,
                #[trigger] t.parts[i],
                rdb.partitions@[i].part_block,
            ),
        t.drivers.len() == rdb.filesystems@.len(),
        forall|f: int|
            0 <= f < t.drivers.len() ==> {
                let d = #[trigger] t.drivers[f];
                &&& is_block_at(m, d.header, rdb.filesystems@[f].fshd_block)
                &&& are_blocks_of(m, d.chain)
                &&& format_laws::leads(
                    m,
                    rdb.filesystems@[f].seg_list_blocks,
                    0x4C53_4547,
                    places(d.chain),
                    0xFFFF_FFFF,
                )
            },
        places(t.badbs) == rdb.badb_blocks@,
        are_blocks_of(m, t.badbs),
{
    assert forall|f: int| 0 <= f < t.drivers.len() implies {
        let d = #[trigger] t.drivers[f];
        &&& is_block_at(m, d.header, rdb.filesystems@[f].fshd_block)
        &&& are_blocks_of(m, d.chain)
        &&& format_laws::leads(
            m,
            rdb.filesystems@[f].seg_list_blocks,
            0x4C53_4547,
            places(d.chain),
            0xFFFF_FFFF,
        )
    } by {
        let d = t.drivers[f];
        assert(places(d.chain) =~= chains[f]);
        format_laws::law_walk_follows_the_pointers(
            m,
            rdb.filesystems@[f].seg_list_blocks,
            0x4C53_4547,
            chains[f],
            0xFFFF_FFFF,
        );
    }
    assert(places(t.badbs) =~= rdb.badb_blocks@);
}

/// An opened table records where each of its blocks pointed, and no other block:
/// the chain pointer at byte 16, and of a filesystem the head of its driver at
/// byte 72.
pub proof fn law_opened_table_records_the_pointers(
    m: Medium,
    rdb: Rdb,
    chains: Seq<Seq<u64>>,
    t: Table,
)
    requires
        table::opened_as(m, rdb, chains, t),
        t.blocks().len() <= usize::MAX,
    ensures
        forall|b: u64| #[trigger]
            t.original.contains_key(b) <==> exists|i: int|
                0 <= i < t.blocks().len() && (#[trigger] t.blocks()[i]).lba == b,
        forall|i: int|
            0 <= i < t.blocks().len() ==> t.original[(#[trigger] t.blocks()[i]).lba].next
                == format_laws::number(t.blocks()[i].bytes, 16),
        forall|i: int|
            0 <= i < t.parts.len() ==> t.original[(#[trigger] t.parts[i]).lba].seg_list
                == 0xFFFF_FFFF,
        forall|f: int|
            0 <= f < t.drivers.len() ==> t.original[(
            #[trigger] t.drivers[f]).header.lba].seg_list == format_laws::number(
                t.drivers[f].header.bytes,
                72,
            ),
{
    commit::lemma_slots_len(t);
    assert forall|i: int| 0 <= i < t.blocks().len() implies t.original[(
    #[trigger] t.blocks()[i]).lba].next == format_laws::number(t.blocks()[i].bytes, 16) by {
        format_laws::lemma_number(t.blocks()[i].bytes, 16);
        assert(t.original[t.blocks()[i].lba] == table::links_of(
            t.blocks()[i],
            t.slots()[i].is_fshd,
        ));
    }
    assert forall|i: int| 0 <= i < t.parts.len() implies t.original[(
    #[trigger] t.parts[i]).lba].seg_list == 0xFFFF_FFFF by {
        assert(t.blocks()[i] == t.parts[i]);
        assert(t.slots()[i] == table::chain_slots(t.parts, 0)[i]);
        assert(t.original[t.blocks()[i].lba] == table::links_of(
            t.blocks()[i],
            t.slots()[i].is_fshd,
        ));
    }
    assert forall|f: int| 0 <= f < t.drivers.len() implies t.original[(
    #[trigger] t.drivers[f]).header.lba].seg_list == format_laws::number(
        t.drivers[f].header.bytes,
        72,
    ) by {
        let p = t.drivers_from();
        let at = table::driver_blocks(t.drivers.take(f)).len() as int;
        table::lemma_driver_place(t.drivers, f);
        table::lemma_driver_slots(t.drivers, p, t.drivers.len() as int, f);
        let i = p + at;
        let middle = table::driver_slots(t.drivers, p, t.drivers.len() as int);
        assert(t.blocks()[i] == table::driver_blocks(t.drivers)[at]);
        assert(t.slots()[i] == middle[at]);
        format_laws::lemma_number(t.drivers[f].header.bytes, 72);
        assert(t.original[t.blocks()[i].lba] == table::links_of(
            t.blocks()[i],
            t.slots()[i].is_fshd,
        ));
    }
}

/// The pointer to the first block of a list where it was found, and the end where
/// there is none or it was found nowhere.
pub open spec fn pointer_to_first(blocks: Seq<Raw>) -> int {
    if blocks.len() == 0 || blocks[0].lba == 0xFFFF_FFFF_FFFF_FFFF {
        0xFFFF_FFFF
    } else {
        blocks[0].lba as int
    }
}

/// The model of a table under edit is what its blocks say, each of them, and its
/// heads are where the first block of each chain was found.
pub proof fn law_model_is_what_the_blocks_say(t: Table, rdb: Rdb)
    requires
        t.wf(),
        table::in_step(t, rdb),
    ensures
        model::rdsk_reads_but_heads(rdb, t.rdsk, t.rdsk_block),
        rdb.partitions@.len() == t.parts.len(),
        forall|i: int|
            0 <= i < t.parts.len() ==> model::part_reads(
                #[trigger] rdb.partitions@[i],
                t.parts[i].bytes,
                t.parts[i].lba,
            ),
        rdb.filesystems@.len() == t.drivers.len(),
        forall|f: int|
            0 <= f < t.drivers.len() ==> {
                &&& model::fshd_reads_but_head(
                    #[trigger] rdb.filesystems@[f],
                    t.drivers[f].header.bytes,
                    t.drivers[f].header.lba,
                )
                &&& rdb.filesystems@[f].seg_list_blocks == pointer_to_first(t.drivers[f].chain)
            },
        rdb.filesys_header_list == if t.drivers.len() == 0 {
            0xFFFF_FFFF
        } else {
            pointer_to_first(seq![t.drivers[0].header])
        },
        rdb.bad_block_list == pointer_to_first(t.badbs),
        rdb.badb_blocks@ == places(t.badbs),
        rdb.bad_blocks@ == Seq::new(
            t.badbs.len(),
            |i: int| model::badb_entries(t.badbs[i].bytes),
        ).flatten(),
{
    lemma_entries(t.badbs);
    Seq::new(
        t.badbs.len(),
        |i: int| model::badb_entries(t.badbs[i].bytes),
    ).lemma_flatten_and_flatten_alt_are_equivalent();
    assert forall|f: int| 0 <= f < t.drivers.len() implies rdb.filesystems@[f].seg_list_blocks
        == pointer_to_first(#[trigger] t.drivers[f].chain) by {
        if t.drivers[f].chain.len() > 0 {
            table::lemma_driver_place(t.drivers, f);
            let at = table::driver_blocks(t.drivers.take(f)).len() as int;
            let i = t.drivers_from() + at + 1;
            assert(table::driver_blocks(t.drivers)[at + 1 + 0] == t.drivers[f].chain[0]);
            assert(t.blocks()[i] == t.drivers[f].chain[0]);
        }
    }
    assert forall|f: int| 0 <= f < t.drivers.len() implies {
        &&& model::fshd_reads_but_head(
            #[trigger] rdb.filesystems@[f],
            t.drivers[f].header.bytes,
            t.drivers[f].header.lba,
        )
        &&& rdb.filesystems@[f].seg_list_blocks == pointer_to_first(t.drivers[f].chain)
    } by {
        assert(rdb.filesystems@[f].seg_list_blocks == pointer_to_first(t.drivers[f].chain));
    }
    if t.drivers.len() > 0 {
        table::lemma_driver_place(t.drivers, 0);
        assert(t.drivers.take(0) =~= Seq::<Driver>::empty());
        assert(t.blocks()[t.drivers_from()] == t.drivers[0].header);
    }
    if t.badbs.len() > 0 {
        assert(t.blocks()[t.badbs_from()] == t.badbs[0]);
    }
}

proof fn lemma_entries(blocks: Seq<Raw>)
    ensures
        table::entries_of(blocks) == Seq::new(
            blocks.len(),
            |i: int| model::badb_entries(blocks[i].bytes),
        ).flatten_alt(),
    decreases blocks.len(),
{
    let lists = Seq::new(blocks.len(), |i: int| model::badb_entries(blocks[i].bytes));
    if blocks.len() > 0 {
        let rest = blocks.drop_last();
        lemma_entries(rest);
        assert(lists.drop_last() =~= Seq::new(
            rest.len(),
            |i: int| model::badb_entries(rest[i].bytes),
        ));
        assert(lists.last() == model::badb_entries(blocks.last().bytes));
    }
}

} // verus!
