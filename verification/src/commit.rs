//! Writing an edited table back.
//!
//! The chains go out from their tails, so that every pointer leads to a block
//! that is already on the disk, and the `RDSK` block last: its arrival is what
//! publishes the new table. What the old layout used and the new one does not
//! is zeroed afterwards.
use std::collections::BTreeMap;
use vstd::prelude::*;

use crate::arith::sat_add;
use crate::bytes::{be32, block_size_ok, put_be32, CHAIN_END};
use crate::checksum::seal_checksum;
use crate::edit_error::{CommitError, CommitReport};
use crate::media::{write_next, BlockSink, BlockWrite};
use crate::plan::{blocks_to_zero, highest_used, pointer_to, settle, Area, OriginalLinks, Slot};
use crate::table::{Driver, DriverBlocks, RawBlock, Table, UNPLACED_BLOCK};
use crate::{arith, bytes, chain, checksum, fshd, hdr, image, media, plan, rdsk, table};

verus! {

broadcast use crate::bytes::group_long_axioms;

/// `b` with its chain pointer set, and for a `FSHD` the head of its driver
/// chain.
pub open spec fn linked(b: Seq<u8>, next: u32, seg: u32, is_fshd: bool) -> Seq<u8> {
    let chained = bytes::with_long(b, chain::NEXT as int, next);
    if is_fshd {
        bytes::with_long(chained, fshd::SEG_LIST as int, seg)
    } else {
        chained
    }
}

/// Block `i` of the table as it is written: its pointers set, and sealed over
/// the count it declares.
pub open spec fn block_image(t: Table, assigned: Seq<u64>, i: int) -> Seq<u8> {
    let slot = t.slots()[i];
    checksum::resealed(
        linked(
            t.blocks()[i].bytes,
            plan::pointer(assigned, slot.next),
            plan::pointer(assigned, slot.seg),
            slot.is_fshd,
        ),
    )
}

/// The pointer to the first of the blocks from `from` up to `to`.
pub open spec fn head_pointer(assigned: Seq<u64>, from: int, to: int) -> u32 {
    if from < to {
        assigned[from] as u32
    } else {
        CHAIN_END
    }
}

/// The `RDSK` block with the heads of its chains and its high-water mark set.
pub open spec fn headed(t: Table, assigned: Seq<u64>) -> Seq<u8> {
    let n = t.blocks().len() as int;
    bytes::with_long(
        bytes::with_long(
            bytes::with_long(
                bytes::with_long(
                    t.rdsk,
                    rdsk::PARTITION_LIST as int,
                    head_pointer(assigned, 0, t.drivers_from()),
                ),
                rdsk::FILESYS_HEADER_LIST as int,
                head_pointer(assigned, t.drivers_from(), t.badbs_from()),
            ),
            rdsk::BAD_BLOCK_LIST as int,
            head_pointer(assigned, t.badbs_from(), n),
        ),
        rdsk::HIGH_RDSK_BLOCK as int,
        plan::highest(t.area(), assigned) as u32,
    )
}

/// The `RDSK` block as it is written.
pub open spec fn rdsk_image(t: Table, assigned: Seq<u64>) -> Seq<u8> {
    checksum::resealed(headed(t, assigned))
}

/// Blocks `from` up to `to` of the table, the last of them first.
pub open spec fn backwards(t: Table, assigned: Seq<u64>, from: int, to: int) -> Seq<BlockWrite> {
    Seq::new(
        (to - from) as nat,
        |k: int| (assigned[to - 1 - k], block_image(t, assigned, to - 1 - k)),
    )
}

/// Every block of the table in the order it is written: the filesystems, the
/// bad-block list and the partitions, each from its tail, then the `RDSK`.
pub open spec fn table_writes(t: Table, assigned: Seq<u64>) -> Seq<BlockWrite> {
    backwards(t, assigned, t.drivers_from(), t.badbs_from()) + backwards(
        t,
        assigned,
        t.badbs_from(),
        t.blocks().len() as int,
    ) + backwards(t, assigned, 0, t.drivers_from()) + seq![
        (t.rdsk_block, rdsk_image(t, assigned)),
    ]
}

/// The blocks that are zeroed.
pub open spec fn zero_writes(t: Table, zeroed: Seq<u64>) -> Seq<BlockWrite> {
    Seq::new(zeroed.len(), |k: int| (zeroed[k], image::zeros(t.block_size as nat)))
}

/// Everything a commit writes.
pub open spec fn commit_writes(t: Table, assigned: Seq<u64>, zeroed: Seq<u64>) -> Seq<BlockWrite> {
    table_writes(t, assigned) + zero_writes(t, zeroed)
}

/// `assigned` is where the blocks of the table go, and `zeroed` are the blocks
/// that are zeroed.
pub open spec fn is_plan(t: Table, assigned: Seq<u64>, zeroed: Seq<u64>) -> bool {
    &&& plan::is_settled(t.slots(), t.area(), t.original, assigned)
    &&& plan::is_zeroed(t.area(), t.original, assigned, zeroed)
}

/// Why the table cannot be laid out, if it cannot.
pub open spec fn plan_refusal<E>(t: Table) -> Option<CommitError<E>> {
    let area = t.area();
    if area.lo > area.hi {
        Some(CommitError::RdbAreaInvalid { lo: t.lo(), hi: t.hi() })
    } else if area.rdsk > area.hi {
        Some(CommitError::RdskOutsideRdbArea { rdsk_block: t.rdsk_block, hi: area.hi })
    } else if area.needed(t.blocks().len()) > area.size() {
        Some(
            CommitError::RdbAreaTooSmall {
                needed: arith::saturated(area.needed(t.blocks().len())),
                available: area.size() as u64,
                lo: area.lo,
                hi: area.hi,
            },
        )
    } else {
        None
    }
}

/// Why the table cannot be committed to the target, if it cannot.
pub open spec fn commit_refusal<E>(
    t: Table,
    block_size: usize,
    sink_blocks: Option<u64>,
) -> Option<CommitError<E>> {
    if !bytes::supported_block_size(block_size as int) {
        Some(CommitError::UnsupportedBlockSize { block_size })
    } else if block_size != t.block_size {
        Some(CommitError::BlockSizeMismatch { rdb: t.block_size, sink: block_size })
    } else {
        match sink_blocks {
            Some(n) if t.hi() != t.opened_hi && t.hi() >= n => Some(
                CommitError::RdbAreaPastEndOfDisk { hi: t.hi(), block_count: n },
            ),
            _ => plan_refusal(t),
        }
    }
}

/// What a commit reports.
pub open spec fn is_report(
    t: Table,
    assigned: Seq<u64>,
    zeroed: Seq<u64>,
    report: CommitReport,
) -> bool {
    let writes = commit_writes(t, assigned, zeroed);
    &&& report.rdsk_block == t.rdsk_block
    &&& report.high_rdsk_block == plan::highest(t.area(), assigned) as u32
    &&& report.rdb_blocks_hi == t.hi()
    &&& report.part_blocks@ == assigned.take(t.drivers_from())
    &&& report.fshd_blocks@ == Seq::new(
        t.drivers.len(),
        |f: int| assigned[table::driver_at(t.drivers, t.drivers_from(), f)],
    )
    &&& report.blocks_written@ == Seq::new(writes.len(), |k: int| writes[k].0)
    &&& report.blocks_zeroed@ == zeroed
}

/// Each block has its place in the list, and points behind itself.
pub proof fn lemma_slot(t: Table, i: int)
    requires
        0 <= i < t.blocks().len() <= usize::MAX,
    ensures
        t.slots().len() == t.blocks().len(),
        t.slots()[i].lba == t.blocks()[i].lba,
        t.slots()[i].next matches Some(k) ==> i < k < t.blocks().len(),
        t.slots()[i].seg matches Some(k) ==> i < k < t.blocks().len(),
        !t.slots()[i].is_fshd ==> t.slots()[i].seg is None,
{
    lemma_slots_len(t);
    let p = t.drivers_from();
    let q = t.badbs_from();
    let middle = table::driver_slots(t.drivers, p, t.drivers.len() as int);
    if i < p {
        assert(t.slots()[i] == table::chain_slots(t.parts, 0)[i]);
        assert(t.blocks()[i] == t.parts[i]);
    } else if i < q {
        let (f, j) = table::lemma_driver_block(t.drivers, i - p);
        let at = table::driver_blocks(t.drivers.take(f)).len() as int;
        table::lemma_driver_slots(t.drivers, p, t.drivers.len() as int, f);
        table::lemma_driver_place(t.drivers, f);
        assert(t.slots()[i] == middle[i - p]);
        assert(t.blocks()[i] == table::driver_blocks(t.drivers)[i - p]);
        if j == -1 {
            assert(middle[at] == table::header_slot(t.drivers, p, f));
            if f + 1 < t.drivers.len() {
                table::lemma_driver_place(t.drivers, f + 1);
            }
        } else {
            assert(middle[at + 1 + j] == table::chain_slots(t.drivers[f].chain, p + at + 1)[j]);
        }
    } else {
        assert(t.slots()[i] == table::chain_slots(t.badbs, q)[i - q]);
        assert(t.blocks()[i] == t.badbs[i - q]);
    }
}

/// There are as many structures as blocks.
pub proof fn lemma_slots_len(t: Table)
    ensures
        t.slots().len() == t.blocks().len(),
        table::driver_slots(t.drivers, t.drivers_from(), t.drivers.len() as int).len()
            == t.badbs_from() - t.drivers_from(),
{
    table::lemma_driver_slots_len(t.drivers, t.drivers_from(), t.drivers.len() as int);
    assert(t.drivers.take(t.drivers.len() as int) =~= t.drivers);
}

/// A sound table can be laid out wherever its area is.
pub proof fn lemma_plannable(t: Table)
    requires
        t.wf(),
        t.blocks().len() <= usize::MAX,
        t.area().lo <= t.area().hi,
        t.area().rdsk <= t.area().hi,
    ensures
        plan::plannable(t.slots(), t.area()),
{
    let slots = t.slots();
    let area = t.area();
    let all = t.blocks();
    lemma_slots_len(t);
    assert forall|i: int| 0 <= i < slots.len() && area.holds((#[trigger] slots[i]).lba) implies
        slots[i].lba != area.rdsk by {
        lemma_slot(t, i);
        assert(all[i].lba != UNPLACED_BLOCK);
    }
    assert forall|i: int, j: int|
        0 <= i < j < slots.len() && area.holds((#[trigger] slots[i]).lba) implies slots[i].lba != (
    #[trigger] slots[j]).lba by {
        lemma_slot(t, i);
        lemma_slot(t, j);
        assert(all[i].lba != UNPLACED_BLOCK);
        assert(all[i].lba != all[j].lba);
    }
    assert forall|i: int| #![trigger slots[i]] 0 <= i < slots.len() implies {
        &&& slots[i].next matches Some(k) ==> k < slots.len()
        &&& slots[i].seg matches Some(k) ==> k < slots.len()
    } by {
        lemma_slot(t, i);
    }
}

/// Every block of a sound table is sound.
pub proof fn lemma_block_sound(t: Table, i: int)
    requires
        t.wf(),
        0 <= i < t.blocks().len(),
    ensures
        t.blocks()[i].bytes.len() == t.block_size,
        checksum::sealable(
            t.blocks()[i].bytes,
            bytes::long_at(t.blocks()[i].bytes, hdr::SUMMED_LONGS as int),
        ),
{
    let p = t.drivers_from();
    let q = t.badbs_from();
    if i < p {
        assert(t.blocks()[i] == t.parts[i]);
    } else if i < q {
        let (f, j) = table::lemma_driver_block(t.drivers, i - p);
        assert(t.blocks()[i] == table::driver_blocks(t.drivers)[i - p]);
        let d = t.drivers[f];
        if j >= 0 {
            assert(table::sound_bytes(d.chain[j].bytes, crate::id::LSEG, t.block_size));
        }
    } else {
        assert(t.blocks()[i] == t.badbs[i - q]);
    }
}

/// Every block of the table but the `RDSK`, in one list.
fn all_blocks(
    parts: &Vec<RawBlock>,
    drivers: &Vec<DriverBlocks>,
    badbs: &Vec<RawBlock>,
    t: Ghost<Table>,
) -> (all: Vec<RawBlock>)
    requires
        table::raws(parts@) == t@.parts,
        table::drivers_of(drivers@) == t@.drivers,
        table::raws(badbs@) == t@.badbs,
    ensures
        table::raws(all@) == t@.blocks(),
{
    let mut all: Vec<RawBlock> = Vec::new();
    copy_blocks(parts, &mut all);
    let mut f: usize = 0;
    assert(t@.drivers.take(0) =~= Seq::<Driver>::empty());
    assert(table::raws(all@) =~= t@.parts + table::driver_blocks(t@.drivers.take(0)));
    while f < drivers.len()
        invariant
            f <= drivers.len(),
            table::drivers_of(drivers@) == t@.drivers,
            table::raws(all@) == t@.parts + table::driver_blocks(t@.drivers.take(f as int)),
        decreases drivers.len() - f,
    {
        let ghost before = table::raws(all@);
        let d = &drivers[f];
        all.push(RawBlock { lba: d.header.lba, bytes: d.header.bytes.clone() });
        assert(table::raws(all@) =~= before.push(d.header@));
        copy_blocks(&d.chain, &mut all);
        proof {
            assert(t@.drivers[f as int] == d@);
            let more = t@.drivers.take(f + 1);
            assert(more.drop_last() =~= t@.drivers.take(f as int));
            assert(more.last() == d@);
            assert(table::raws(all@) =~= t@.parts + table::driver_blocks(more));
        }
        f += 1;
    }
    assert(t@.drivers.take(t@.drivers.len() as int) =~= t@.drivers);
    copy_blocks(badbs, &mut all);
    all
}

/// Append copies of the blocks.
fn copy_blocks(blocks: &Vec<RawBlock>, out: &mut Vec<RawBlock>)
    ensures
        table::raws(final(out)@) == table::raws(old(out)@) + table::raws(blocks@),
{
    let ghost base = table::raws(out@);
    let mut i: usize = 0;
    while i < blocks.len()
        invariant
            i <= blocks.len(),
            table::raws(out@) =~= base + table::raws(blocks@).take(i as int),
        decreases blocks.len() - i,
    {
        let ghost before = table::raws(out@);
        let b = RawBlock { lba: blocks[i].lba, bytes: blocks[i].bytes.clone() };
        out.push(b);
        proof {
            assert(table::raws(out@) =~= before.push(b@));
            assert(table::raws(blocks@)[i as int] == b@);
        }
        i += 1;
    }
    assert(table::raws(blocks@).take(blocks@.len() as int) =~= table::raws(blocks@));
}

/// Append the structures of one chain, the first of which is the next of the
/// list.
fn push_chain(blocks: &Vec<RawBlock>, out: &mut Vec<Slot>)
    requires
        old(out)@.len() + blocks@.len() <= usize::MAX,
    ensures
        final(out)@ == old(out)@ + table::chain_slots(
            table::raws(blocks@),
            old(out)@.len() as int,
        ),
{
    let ghost raws = table::raws(blocks@);
    let ghost start = out@;
    let base: usize = out.len();
    let mut i: usize = 0;
    while i < blocks.len()
        invariant
            i <= blocks.len(),
            raws == table::raws(blocks@),
            base == start.len(),
            base + blocks@.len() <= usize::MAX,
            out@ =~= start + table::chain_slots(raws, base as int).take(i as int),
        decreases blocks.len() - i,
    {
        let next: Option<usize> = if i + 1 < blocks.len() {
            Some(base + i + 1)
        } else {
            None
        };
        assert(raws[i as int] == blocks@[i as int]@);
        let slot = Slot { lba: blocks[i].lba, next, seg: None, is_fshd: false };
        assert(slot == table::chain_slots(raws, base as int)[i as int]);
        out.push(slot);
        i += 1;
    }
    assert(table::chain_slots(raws, base as int).take(raws.len() as int) =~= table::chain_slots(
        raws,
        base as int,
    ));
}

/// The chains of the table, over the list of its blocks.
fn all_slots(
    parts: &Vec<RawBlock>,
    drivers: &Vec<DriverBlocks>,
    badbs: &Vec<RawBlock>,
    t: Ghost<Table>,
) -> (slots: Vec<Slot>)
    requires
        table::raws(parts@) == t@.parts,
        table::drivers_of(drivers@) == t@.drivers,
        table::raws(badbs@) == t@.badbs,
        t@.blocks().len() <= usize::MAX,
    ensures
        slots@ == t@.slots(),
{
    let ghost p = t@.drivers_from();
    let ghost q = t@.badbs_from();
    let mut slots: Vec<Slot> = Vec::new();
    push_chain(parts, &mut slots);
    assert(slots@ =~= table::chain_slots(t@.parts, 0));
    let mut f: usize = 0;
    proof {
        assert(table::driver_slots(t@.drivers, p, 0) =~= Seq::<Slot>::empty());
        assert(slots@ =~= table::chain_slots(t@.parts, 0) + table::driver_slots(
            t@.drivers,
            p,
            0,
        ));
    }
    while f < drivers.len()
        invariant
            f <= drivers.len(),
            table::drivers_of(drivers@) == t@.drivers,
            t@.blocks().len() <= usize::MAX,
            p == t@.drivers_from(),
            slots@ == table::chain_slots(t@.parts, 0) + table::driver_slots(
                t@.drivers,
                p,
                f as int,
            ),
        decreases drivers.len() - f,
    {
        let ghost before = slots@;
        let d = &drivers[f];
        proof {
            assert(t@.drivers[f as int] == d@);
            table::lemma_driver_place(t@.drivers, f as int);
            table::lemma_driver_slots_len(t@.drivers, p, f as int);
            assert(slots@.len() == table::driver_at(t@.drivers, p, f as int));
        }
        let at: usize = slots.len();
        let next: Option<usize> = if f + 1 < drivers.len() {
            Some(at + 1 + d.chain.len())
        } else {
            None
        };
        let seg: Option<usize> = if d.chain.len() > 0 {
            Some(at + 1)
        } else {
            None
        };
        let header = Slot { lba: d.header.lba, next, seg, is_fshd: true };
        assert(header == table::header_slot(t@.drivers, p, f as int));
        slots.push(header);
        push_chain(&d.chain, &mut slots);
        proof {
            assert(slots@ =~= table::chain_slots(t@.parts, 0) + table::driver_slots(
                t@.drivers,
                p,
                f + 1,
            ));
        }
        f += 1;
    }
    proof {
        lemma_slots_len(t@);
    }
    push_chain(badbs, &mut slots);
    slots
}

/// The blocks to be written, as writes.
pub open spec fn writes_of(blocks: Seq<RawBlock>) -> Seq<BlockWrite> {
    blocks.map_values(|b: RawBlock| (b.lba, b.bytes@))
}

/// Reseal a block over the count it already declares.
fn reseal_preserving<E>(block: &mut [u8]) -> (r: Result<(), CommitError<E>>)
    requires
        old(block)@.len() >= 512,
        checksum::sealable(
            old(block)@,
            bytes::long_at(old(block)@, hdr::SUMMED_LONGS as int),
        ),
    ensures
        r is Ok,
        final(block)@ == checksum::resealed(old(block)@),
{
    let summed_longs: u32 = be32(block, hdr::SUMMED_LONGS);
    match seal_checksum(block, summed_longs) {
        Ok(_) => Ok(()),
        Err(e) => Err(CommitError::Seal(e)),
    }
}

/// Append blocks `from` up to `to` of the table as they are written, the last
/// of them first.
fn prepare_backwards<E>(
    blocks: &Vec<RawBlock>,
    slots: &Vec<Slot>,
    assigned: &Vec<u64>,
    from: usize,
    to: usize,
    out: &mut Vec<RawBlock>,
    t: Ghost<Table>,
) -> (r: Result<(), CommitError<E>>)
    requires
        t@.wf(),
        table::raws(blocks@) == t@.blocks(),
        slots@ == t@.slots(),
        slots@.len() == blocks@.len(),
        assigned@.len() == blocks@.len(),
        from <= to <= blocks@.len(),
    ensures
        r is Ok,
        writes_of(final(out)@) == writes_of(old(out)@) + backwards(
            t@,
            assigned@,
            from as int,
            to as int,
        ),
{
    let ghost base = writes_of(out@);
    let ghost whole = backwards(t@, assigned@, from as int, to as int);
    let mut i: usize = to;
    assert(whole.take(0) =~= Seq::<BlockWrite>::empty());
    while i > from
        invariant
            from <= i <= to <= blocks.len(),
            t@.wf(),
            table::raws(blocks@) == t@.blocks(),
            slots@ == t@.slots(),
            slots@.len() == blocks@.len(),
            assigned@.len() == blocks@.len(),
            whole == backwards(t@, assigned@, from as int, to as int),
            writes_of(out@) =~= base + whole.take(to - i),
        decreases i - from,
    {
        i -= 1;
        let ghost before = writes_of(out@);
        let slot = slots[i];
        proof {
            assert(t@.blocks().len() == blocks.len());
            lemma_slot(t@, i as int);
            lemma_block_sound(t@, i as int);
            assert(t@.blocks()[i as int] == blocks@[i as int]@);
            assert(slot == t@.slots()[i as int]);
        }
        let mut bytes: Vec<u8> = blocks[i].bytes.clone();
        put_be32(bytes.as_mut_slice(), chain::NEXT, pointer_to(assigned, slot.next));
        if slot.is_fshd {
            put_be32(bytes.as_mut_slice(), fshd::SEG_LIST, pointer_to(assigned, slot.seg));
        }
        match reseal_preserving(bytes.as_mut_slice()) {
            Ok(_) => {},
            Err(e) => {
                return Err(e);
            },
        }
        let prepared = RawBlock { lba: assigned[i], bytes };
        out.push(prepared);
        proof {
            let w = (prepared.lba, prepared.bytes@);
            assert(w == whole[to - 1 - i]);
            assert(writes_of(out@) =~= before.push(w));
            assert(whole.take(to - i) =~= whole.take(to - i - 1).push(w));
        }
    }
    assert(whole.take(whole.len() as int) =~= whole);
    Ok(())
}

/// The first address of `assigned` from `from` up to `to`, as a pointer.
fn head_pointer_of(assigned: &Vec<u64>, from: usize, to: usize) -> (r: u32)
    requires
        from <= to <= assigned@.len(),
    ensures
        r == head_pointer(assigned@, from as int, to as int),
{
    if from < to {
        assigned[from] as u32
    } else {
        CHAIN_END
    }
}

/// A table to be committed.
pub struct TableRef<'a> {
    /// Bytes per block.
    pub block_size: usize,
    /// Where the `RDSK` block is.
    pub rdsk_block: u64,
    /// The `RDSK` block.
    pub rdsk: &'a Vec<u8>,
    /// The `PART` blocks.
    pub parts: &'a Vec<RawBlock>,
    /// The filesystems.
    pub drivers: &'a Vec<DriverBlocks>,
    /// The `BADB` blocks.
    pub badbs: &'a Vec<RawBlock>,
    /// Where every block of the opened layout pointed.
    pub original: &'a BTreeMap<u64, OriginalLinks>,
    /// How many blocks the disk has, where it said so.
    pub disk_blocks: Option<u64>,
    /// `rdb_RDBBlocksHi` as it was found.
    pub opened_hi: u32,
}

impl<'a> View for TableRef<'a> {
    type V = Table;

    open spec fn view(&self) -> Table {
        Table {
            block_size: self.block_size,
            rdsk_block: self.rdsk_block,
            rdsk: self.rdsk@,
            parts: table::raws(self.parts@),
            drivers: table::drivers_of(self.drivers@),
            badbs: table::raws(self.badbs@),
            original: self.original@,
            disk_blocks: self.disk_blocks,
            opened_hi: self.opened_hi,
        }
    }
}

/// Where every structure goes.
pub struct CommitPlan {
    /// The blocks of the table, in one list.
    pub blocks: Vec<RawBlock>,
    /// Their chains.
    pub slots: Vec<Slot>,
    /// Where each of them goes.
    pub assigned: Vec<u64>,
    /// The highest block of the new layout.
    pub high_rdsk_block: u32,
    /// The blocks that are zeroed.
    pub zeroed: Vec<u64>,
}

impl CommitPlan {
    /// The plan of the table.
    pub open spec fn is_of(self, t: Table) -> bool {
        &&& table::raws(self.blocks@) == t.blocks()
        &&& self.slots@ == t.slots()
        &&& self.assigned@.len() == t.blocks().len()
        &&& self.high_rdsk_block == plan::highest(t.area(), self.assigned@) as u32
        &&& is_plan(t, self.assigned@, self.zeroed@)
    }
}

/// Where the blocks of a plan go: apart from each other and from the `RDSK`,
/// and inside the area.
pub proof fn lemma_plan_places(t: Table, assigned: Seq<u64>, zeroed: Seq<u64>)
    requires
        t.wf(),
        t.blocks().len() <= usize::MAX,
        plan_refusal::<()>(t) is None,
        is_plan(t, assigned, zeroed),
    ensures
        assigned.len() == t.blocks().len(),
        assigned.no_duplicates(),
        forall|i: int|
            0 <= i < assigned.len() ==> #[trigger] assigned[i] != t.rdsk_block && t.area().holds(
                assigned[i],
            ),
        plan::highest(t.area(), assigned) <= t.area().hi,
{
    lemma_plannable(t);
    lemma_slots_len(t);
    let k = choose|k: nat| plan::settles_at(t.slots(), t.area(), t.original, assigned, k);
    let relocate = plan::relocated(t.slots(), t.area(), t.original, k);
    plan::lemma_assignment_distinct(t.slots(), t.area(), t.original, relocate, assigned);
    plan::lemma_highest(t.area(), assigned);
    let h = plan::highest(t.area(), assigned);
    if h != t.area().rdsk {
        let i = choose|i: int| 0 <= i < assigned.len() && assigned[i] == h;
        assert(t.area().holds(assigned[i]));
    }
}

impl<'a> TableRef<'a> {
    /// Assign every structure a block inside the area, or say why it cannot be
    /// done. There is no sink here.
    fn plan<E>(&self) -> (r: Result<CommitPlan, CommitError<E>>)
        requires
            self@.wf(),
        ensures
            match r {
                Ok(p) => plan_refusal::<E>(self@) is None && p.is_of(self@),
                Err(e) => plan_refusal::<E>(self@) == Some(e),
            },
    {
        let ghost t = self@;
        let lo: u32 = be32(self.rdsk.as_slice(), rdsk::RDB_BLOCKS_LO);
        let hi: u32 = be32(self.rdsk.as_slice(), rdsk::RDB_BLOCKS_HI);
        let area = Area { lo: lo as u64, hi: hi as u64, rdsk: self.rdsk_block };
        if lo > hi {
            return Err(CommitError::RdbAreaInvalid { lo, hi });
        }
        if area.rdsk > area.hi {
            return Err(
                CommitError::RdskOutsideRdbArea { rdsk_block: self.rdsk_block, hi: area.hi },
            );
        }
        let blocks = all_blocks(self.parts, self.drivers, self.badbs, Ghost(t));
        assert(t.blocks().len() == blocks.len());
        let slots = all_slots(self.parts, self.drivers, self.badbs, Ghost(t));
        proof {
            lemma_plannable(t);
            lemma_slots_len(t);
        }
        let assigned = match settle(&slots, area, self.original) {
            Some(assigned) => assigned,
            None => {
                let own: u64 = if area.rdsk >= area.lo {
                    1
                } else {
                    0
                };
                return Err(
                    CommitError::RdbAreaTooSmall {
                        needed: sat_add(blocks.len() as u64, own),
                        available: area.hi - area.lo + 1,
                        lo: area.lo,
                        hi: area.hi,
                    },
                );
            },
        };
        let highest: u64 = highest_used(area, &assigned);
        let zeroed = blocks_to_zero(area, self.original, &assigned);
        proof {
            assert(is_plan(t, assigned@, zeroed@));
            lemma_plan_places(t, assigned@, zeroed@);
        }
        Ok(CommitPlan { blocks, slots, assigned, high_rdsk_block: highest as u32, zeroed })
    }

    /// Patch and seal every block the plan will write, in write order. There is
    /// no sink here either.
    fn prepare<E>(&self, p: &CommitPlan) -> (r: Result<Vec<RawBlock>, CommitError<E>>)
        requires
            self@.wf(),
            p.is_of(self@),
        ensures
            r matches Ok(out) && writes_of(out@) == table_writes(self@, p.assigned@),
    {
        let ghost t = self@;
        let mut out: Vec<RawBlock> = Vec::new();
        proof {
            assert(t.blocks().len() == p.blocks.len());
            lemma_slots_len(t);
            assert(writes_of(out@) =~= Seq::<BlockWrite>::empty());
        }
        let parts: usize = self.parts.len();
        let all: usize = p.blocks.len();
        assert(t.badbs_from() == all - self.badbs@.len());
        let badbs: usize = all - self.badbs.len();
        match prepare_backwards(
            &p.blocks,
            &p.slots,
            &p.assigned,
            parts,
            badbs,
            &mut out,
            Ghost(t),
        ) {
            Ok(_) => {},
            Err(e) => {
                return Err(e);
            },
        }
        match prepare_backwards(
            &p.blocks,
            &p.slots,
            &p.assigned,
            badbs,
            all,
            &mut out,
            Ghost(t),
        ) {
            Ok(_) => {},
            Err(e) => {
                return Err(e);
            },
        }
        match prepare_backwards(&p.blocks, &p.slots, &p.assigned, 0, parts, &mut out, Ghost(t)) {
            Ok(_) => {},
            Err(e) => {
                return Err(e);
            },
        }
        let ghost before = writes_of(out@);
        let mut bytes: Vec<u8> = self.rdsk.clone();
        put_be32(
            bytes.as_mut_slice(),
            rdsk::PARTITION_LIST,
            head_pointer_of(&p.assigned, 0, parts),
        );
        put_be32(
            bytes.as_mut_slice(),
            rdsk::FILESYS_HEADER_LIST,
            head_pointer_of(&p.assigned, parts, badbs),
        );
        put_be32(
            bytes.as_mut_slice(),
            rdsk::BAD_BLOCK_LIST,
            head_pointer_of(&p.assigned, badbs, all),
        );
        put_be32(bytes.as_mut_slice(), rdsk::HIGH_RDSK_BLOCK, p.high_rdsk_block);
        match reseal_preserving(bytes.as_mut_slice()) {
            Ok(_) => {},
            Err(e) => {
                return Err(e);
            },
        }
        let last = RawBlock { lba: self.rdsk_block, bytes };
        out.push(last);
        proof {
            assert(writes_of(out@) =~= before.push((last.lba, last.bytes@)));
            assert(writes_of(out@) =~= table_writes(t, p.assigned@));
        }
        Ok(out)
    }

    /// Where each `FSHD` block goes.
    fn fshd_places(&self, assigned: &Vec<u64>) -> (r: Vec<u64>)
        requires
            assigned@.len() == self@.blocks().len(),
        ensures
            r@ == Seq::new(
                self@.drivers.len(),
                |f: int|
                    assigned@[table::driver_at(self@.drivers, self@.drivers_from(), f)],
            ),
    {
        let ghost t = self@;
        let ghost p = t.drivers_from();
        let mut out: Vec<u64> = Vec::new();
        let mut at: usize = self.parts.len();
        let mut f: usize = 0;
        assert(t.drivers.take(0) =~= Seq::<Driver>::empty());
        assert(assigned@.len() == assigned.len());
        while f < self.drivers.len()
            invariant
                f <= self.drivers.len(),
                t == self@,
                p == t.drivers_from(),
                assigned.len() == t.blocks().len(),
                at == table::driver_at(t.drivers, p, f as int),
                out@ =~= Seq::new(
                    f as nat,
                    |g: int| assigned@[table::driver_at(t.drivers, p, g)],
                ),
            decreases self.drivers.len() - f,
        {
            proof {
                table::lemma_driver_place(t.drivers, f as int);
                assert(t.drivers[f as int] == self.drivers@[f as int]@);
            }
            out.push(assigned[at]);
            at = at + 1 + self.drivers[f].chain.len();
            f += 1;
        }
        out
    }

    /// Write the table to `sink`: everything is computed before the first block
    /// is written.
    pub fn commit<S: BlockSink>(&self, sink: &mut S) -> (r: Result<
        CommitReport,
        CommitError<S::Error>,
    >)
        requires
            self@.wf(),
        ensures
            commit_outcome(self@, *old(sink), *final(sink), r),
    {
        let ghost t = self@;
        let ghost start = *sink;
        let block_size: usize = sink.block_size();
        if !block_size_ok(block_size) {
            return Err(CommitError::UnsupportedBlockSize { block_size });
        }
        if block_size != self.block_size {
            return Err(CommitError::BlockSizeMismatch { rdb: self.block_size, sink: block_size });
        }
        let hi: u32 = be32(self.rdsk.as_slice(), rdsk::RDB_BLOCKS_HI);
        if hi != self.opened_hi {
            if let Some(block_count) = sink.block_count() {
                if hi as u64 >= block_count {
                    return Err(CommitError::RdbAreaPastEndOfDisk { hi, block_count });
                }
            }
        }
        let p: CommitPlan = match self.plan() {
            Ok(p) => p,
            Err(e) => {
                return Err(e);
            },
        };
        let prepared = match self.prepare(&p) {
            Ok(prepared) => prepared,
            Err(e) => {
                return Err(e);
            },
        };
        let ghost writes = commit_writes(t, p.assigned@, p.zeroed@);
        let mut blocks_written: Vec<u64> = Vec::new();
        proof {
            assert(writes.take(0) =~= Seq::<BlockWrite>::empty());
            assert(t.blocks().len() == p.blocks.len());
            lemma_plan_places(t, p.assigned@, p.zeroed@);
        }
        let mut i: usize = 0;
        while i < prepared.len()
            invariant
                i <= prepared.len(),
                t == self@,
                t.wf(),
                start == *old(sink),
                hi == t.hi(),
                t.blocks().len() <= usize::MAX,
                p.is_of(t),
                commit_refusal::<S::Error>(
                    t,
                    start.target().block_size,
                    start.target().block_count,
                ) is None,
                writes == commit_writes(t, p.assigned@, p.zeroed@),
                writes_of(prepared@) == table_writes(t, p.assigned@),
                sink.target().block_size == t.block_size,
                media::written_so_far(*sink, start, writes, i as int),
                blocks_written@ =~= Seq::new(i as nat, |k: int| writes[k].0),
            decreases prepared.len() - i,
        {
            let b = &prepared[i];
            proof {
                assert(writes_of(prepared@)[i as int] == (b.lba, b.bytes@));
                assert(writes[i as int] == table_writes(t, p.assigned@)[i as int]);
                law_commit_stays_in_its_area(t, p.assigned@, p.zeroed@, i as int);
            }
            match leased_write(
                sink,
                hi,
                b.lba,
                b.bytes.as_slice(),
                Ghost(start),
                Ghost(writes),
                Ghost(i as int),
            ) {
                Ok(_) => {},
                Err(e) => {
                    return Err(e);
                },
            }
            blocks_written.push(b.lba);
            i += 1;
        }
        let zeros: Vec<u8> = vec![0u8; block_size];
        assert(zeros@ =~= image::zeros(block_size as nat));
        let ghost n = prepared@.len() as int;
        let mut k: usize = 0;
        while k < p.zeroed.len()
            invariant
                k <= p.zeroed.len(),
                t == self@,
                t.wf(),
                start == *old(sink),
                hi == t.hi(),
                t.blocks().len() <= usize::MAX,
                p.is_of(t),
                commit_refusal::<S::Error>(
                    t,
                    start.target().block_size,
                    start.target().block_count,
                ) is None,
                writes == commit_writes(t, p.assigned@, p.zeroed@),
                n == table_writes(t, p.assigned@).len(),
                zeros@ == image::zeros(t.block_size as nat),
                sink.target().block_size == t.block_size,
                media::written_so_far(*sink, start, writes, n + k),
                blocks_written@ =~= Seq::new((n + k) as nat, |k: int| writes[k].0),
            decreases p.zeroed.len() - k,
        {
            let lba: u64 = p.zeroed[k];
            proof {
                assert(writes[n + k] == zero_writes(t, p.zeroed@)[k as int]);
                law_commit_stays_in_its_area(t, p.assigned@, p.zeroed@, n + k);
            }
            match leased_write(
                sink,
                hi,
                lba,
                zeros.as_slice(),
                Ghost(start),
                Ghost(writes),
                Ghost(n + k),
            ) {
                Ok(_) => {},
                Err(e) => {
                    return Err(e);
                },
            }
            blocks_written.push(lba);
            k += 1;
        }
        let parts: usize = self.parts.len();
        let mut part_blocks: Vec<u64> = Vec::new();
        let mut i: usize = 0;
        assert(parts <= p.assigned@.len());
        assert(p.assigned@.len() == p.assigned.len());
        while i < parts
            invariant
                i <= parts <= p.assigned.len(),
                part_blocks@ =~= p.assigned@.take(i as int),
            decreases parts - i,
        {
            part_blocks.push(p.assigned[i]);
            i += 1;
        }
        let fshd_blocks = self.fshd_places(&p.assigned);
        let report = CommitReport {
            rdsk_block: self.rdsk_block,
            high_rdsk_block: p.high_rdsk_block,
            rdb_blocks_hi: hi,
            part_blocks,
            fshd_blocks,
            blocks_written,
            blocks_zeroed: p.zeroed,
        };
        proof {
            assert(writes.take(writes.len() as int) =~= writes);
            assert(is_report(t, p.assigned@, report.blocks_zeroed@, report));
            assert(is_plan(t, p.assigned@, report.blocks_zeroed@));
        }
        Ok(report)
    }
}

/// What a commit of `t` to `before`, which leaves `after`, comes to.
pub open spec fn commit_outcome<S: BlockSink>(
    t: Table,
    before: S,
    after: S,
    r: Result<CommitReport, CommitError<S::Error>>,
) -> bool {
    let target = before.target();
    let refusal = commit_refusal::<S::Error>(t, target.block_size, target.block_count);
    match r {
        Ok(report) => {
            &&& refusal is None
            &&& exists|assigned: Seq<u64>, zeroed: Seq<u64>|
                {
                    &&& #[trigger] is_plan(t, assigned, zeroed)
                    &&& is_report(t, assigned, zeroed, report)
                    &&& after.target() == media::after_writes(
                        target,
                        commit_writes(t, assigned, zeroed),
                    )
                }
        },
        Err(CommitError::Io(e)) => {
            &&& refusal is None
            &&& exists|assigned: Seq<u64>, zeroed: Seq<u64>| #[trigger]
                is_plan(t, assigned, zeroed) && media::broke_off(
                    after,
                    before,
                    commit_writes(t, assigned, zeroed),
                    e,
                )
        },
        Err(e) => refusal == Some(e) && after == before,
    }
}

/// There is one way to lay a table out: two commits of it put every structure on
/// the same block and zero the same blocks.
pub proof fn law_plan_is_unique(
    t: Table,
    assigned: Seq<u64>,
    zeroed: Seq<u64>,
    other: Seq<u64>,
    other_zeroed: Seq<u64>,
)
    requires
        is_plan(t, assigned, zeroed),
        is_plan(t, other, other_zeroed),
    ensures
        assigned == other,
        zeroed == other_zeroed,
        commit_writes(t, assigned, zeroed) == commit_writes(t, other, other_zeroed),
{
    plan::lemma_settled_unique(t.slots(), t.area(), t.original, assigned, other);
    plan::lemma_zeroed_unique(t.area(), t.original, assigned, zeroed, other_zeroed);
}

/// A commit writes nothing outside the RDB area but the `RDSK` block where that
/// was found, and nothing past the end of the area at all. Every write has the
/// size of a block.
pub proof fn law_commit_stays_in_its_area(t: Table, assigned: Seq<u64>, zeroed: Seq<u64>, k: int)
    requires
        t.wf(),
        t.blocks().len() <= usize::MAX,
        plan_refusal::<()>(t) is None,
        is_plan(t, assigned, zeroed),
        0 <= k < commit_writes(t, assigned, zeroed).len(),
    ensures
        commit_writes(t, assigned, zeroed)[k].0 <= t.hi(),
        commit_writes(t, assigned, zeroed)[k].1.len() == t.block_size,
        commit_writes(t, assigned, zeroed)[k].0 == t.rdsk_block || t.area().holds(
            commit_writes(t, assigned, zeroed)[k].0,
        ),
{
    lemma_plan_places(t, assigned, zeroed);
    let w = commit_writes(t, assigned, zeroed);
    let n = t.blocks().len() as int;
    if k < n {
        let i = lemma_write_of(t, assigned, zeroed, k);
        assert(t.area().holds(assigned[i]));
        lemma_block_sound(t, i);
    } else if k == n {
        assert(w[k] == (t.rdsk_block, rdsk_image(t, assigned)));
    } else {
        assert(w[k] == zero_writes(t, zeroed)[k - n - 1]);
        assert(zeroed.contains(zeroed[k - n - 1]));
    }
}

/// Which block of the table write `k` writes.
pub proof fn lemma_write_of(t: Table, assigned: Seq<u64>, zeroed: Seq<u64>, k: int) -> (i: int)
    requires
        0 <= k < t.blocks().len(),
    ensures
        0 <= i < t.blocks().len(),
        i == write_order(t, k),
        commit_writes(t, assigned, zeroed)[k] == (assigned[i], block_image(t, assigned, i)),
        commit_writes(t, assigned, zeroed).len() == t.blocks().len() + 1 + zeroed.len(),
        commit_writes(t, assigned, zeroed)[t.blocks().len() as int] == (
            t.rdsk_block,
            rdsk_image(t, assigned),
        ),
{
    let p = t.drivers_from();
    let q = t.badbs_from();
    let n = t.blocks().len() as int;
    let w = commit_writes(t, assigned, zeroed);
    let i = write_order(t, k);
    if k < q - p {
        assert(w[k] == backwards(t, assigned, p, q)[k]);
    } else if k < n - p {
        assert(w[k] == backwards(t, assigned, q, n)[k - (q - p)]);
    } else {
        assert(w[k] == backwards(t, assigned, 0, p)[k - (n - p)]);
    }
    i
}

/// The block of the table that is written as number `k`.
pub open spec fn write_order(t: Table, k: int) -> int {
    let p = t.drivers_from();
    let q = t.badbs_from();
    let n = t.blocks().len() as int;
    if k < q - p {
        q - 1 - k
    } else if k < n - p {
        n - 1 - (k - (q - p))
    } else {
        p - 1 - (k - (n - p))
    }
}

/// Make the next write of a commit, unless it lies outside the area.
fn leased_write<S: BlockSink>(
    sink: &mut S,
    hi: u32,
    lba: u64,
    bytes: &[u8],
    start: Ghost<S>,
    writes: Ghost<Seq<BlockWrite>>,
    k: Ghost<int>,
) -> (r: Result<(), CommitError<S::Error>>)
    requires
        lba <= hi,
        media::written_so_far(*old(sink), start@, writes@, k@),
        k@ < writes@.len(),
        writes@[k@] == (lba, bytes@),
        bytes@.len() == old(sink).target().block_size,
    ensures
        final(sink).target().block_size == old(sink).target().block_size,
        match r {
            Ok(_) => media::written_so_far(*final(sink), start@, writes@, k@ + 1),
            Err(CommitError::Io(e)) => media::broke_off(*final(sink), start@, writes@, e),
            Err(_) => false,
        },
{
    if lba > hi as u64 {
        return Err(CommitError::OutsideRdbArea { lba, hi: hi as u64 });
    }
    match write_next(sink, lba, bytes, start, writes, k) {
        Ok(_) => Ok(()),
        Err(e) => Err(CommitError::Io(e)),
    }
}

} // verus!
