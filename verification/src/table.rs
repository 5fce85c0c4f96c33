//! A table held in memory block by block, and the model that is read from it.
//!
//! The blocks are kept whole. A field that nothing here has a name for survives
//! an edit because nothing ever takes its block apart.
use vstd::prelude::*;

use crate::bytes::CHAIN_END;
use crate::media::Medium;
use crate::model::{BadBlockEntry, Rdb};
use crate::plan::{Area, OriginalLinks, Slot};
use crate::walk::RDB_LOCATION_LIMIT;
use crate::{bytes, checksum, hdr, id, model, parse, rdsk, walk};

verus! {

/// The LBA a structure added by an editor carries until a commit decides where
/// it goes.
pub const UNPLACED_BLOCK: u64 = u64::MAX;

/// One block of a table: where it was found, and all of its bytes.
#[derive(Debug, Clone, PartialEq, Eq)]
pub struct RawBlock {
    /// Where the block was read from.
    pub lba: u64,
    /// The block, byte for byte.
    pub bytes: Vec<u8>,
}

/// A [`RawBlock`] as the contracts speak of it.
#[verifier::ext_equal]
pub struct Raw {
    pub lba: u64,
    pub bytes: Seq<u8>,
}

impl View for RawBlock {
    type V = Raw;

    open spec fn view(&self) -> Raw {
        Raw { lba: self.lba, bytes: self.bytes@ }
    }
}

/// The blocks of a list.
pub open spec fn raws(blocks: Seq<RawBlock>) -> Seq<Raw> {
    blocks.map_values(|b: RawBlock| b@)
}

/// A loadable filesystem: its `FSHD` block and its `LSEG` chain.
#[derive(Debug, Clone, PartialEq, Eq)]
pub struct DriverBlocks {
    /// The `FSHD` block.
    pub header: RawBlock,
    /// The `LSEG` blocks, in chain order.
    pub chain: Vec<RawBlock>,
}

/// A [`DriverBlocks`] as the contracts speak of it.
#[verifier::ext_equal]
pub struct Driver {
    pub header: Raw,
    pub chain: Seq<Raw>,
}

impl View for DriverBlocks {
    type V = Driver;

    open spec fn view(&self) -> Driver {
        Driver { header: self.header@, chain: raws(self.chain@) }
    }
}

/// The filesystems of a list.
pub open spec fn drivers_of(drivers: Seq<DriverBlocks>) -> Seq<Driver> {
    drivers.map_values(|d: DriverBlocks| d@)
}

/// A table in memory.
#[verifier::ext_equal]
pub struct Table {
    /// Bytes per block.
    pub block_size: usize,
    /// Where the `RDSK` block is.
    pub rdsk_block: u64,
    /// The `RDSK` block.
    pub rdsk: Seq<u8>,
    /// The `PART` blocks, in chain order.
    pub parts: Seq<Raw>,
    /// The filesystems, in chain order.
    pub drivers: Seq<Driver>,
    /// The `BADB` blocks, in chain order.
    pub badbs: Seq<Raw>,
    /// Every block of the layout the table was opened from, the `RDSK` aside,
    /// and where it pointed.
    pub original: Map<u64, OriginalLinks>,
    /// How many blocks the disk has, where it said so.
    pub disk_blocks: Option<u64>,
    /// `rdb_RDBBlocksHi` as it was found.
    pub opened_hi: u32,
}

/// The blocks of the filesystems in one list: each header, then its driver.
pub open spec fn driver_blocks(drivers: Seq<Driver>) -> Seq<Raw>
    decreases drivers.len(),
{
    if drivers.len() == 0 {
        Seq::empty()
    } else {
        driver_blocks(drivers.drop_last()).push(drivers.last().header) + drivers.last().chain
    }
}

/// A block that keeps `id` and that can be sealed over the count it declares.
pub open spec fn sound_bytes(b: Seq<u8>, id: u32, size: usize) -> bool {
    &&& b.len() == size
    &&& bytes::long_at(b, hdr::ID as int) == id
    &&& checksum::sealable(b, bytes::long_at(b, hdr::SUMMED_LONGS as int))
}

/// Every block of the list is sound.
pub open spec fn sound_blocks(blocks: Seq<Raw>, id: u32, size: usize) -> bool {
    forall|i: int| 0 <= i < blocks.len() ==> sound_bytes((#[trigger] blocks[i]).bytes, id, size)
}

/// Every filesystem of the list is sound.
pub open spec fn sound_drivers(drivers: Seq<Driver>, size: usize) -> bool {
    forall|f: int|
        0 <= f < drivers.len() ==> {
            &&& sound_bytes((#[trigger] drivers[f]).header.bytes, id::FSHD, size)
            &&& sound_blocks(drivers[f].chain, id::LSEG, size)
        }
}

/// No two blocks of the list were found in one place.
pub open spec fn lone(blocks: Seq<Raw>) -> bool {
    forall|i: int, j: int|
        0 <= i < j < blocks.len() && (#[trigger] blocks[i]).lba != UNPLACED_BLOCK ==> blocks[i].lba
            != (#[trigger] blocks[j]).lba
}

/// Every block of the list that was found somewhere was found on a block of the
/// opened layout, other than the `RDSK`.
pub open spec fn known(
    blocks: Seq<Raw>,
    rdsk_block: u64,
    original: Map<u64, OriginalLinks>,
) -> bool {
    forall|i: int|
        0 <= i < blocks.len() && (#[trigger] blocks[i]).lba != UNPLACED_BLOCK ==> {
            &&& blocks[i].lba < CHAIN_END
            &&& blocks[i].lba != rdsk_block
            &&& original.contains_key(blocks[i].lba)
        }
}

/// The structures of one chain, `base` being the place of the first in the list
/// of them all.
pub open spec fn chain_slots(blocks: Seq<Raw>, base: int) -> Seq<Slot> {
    Seq::new(
        blocks.len(),
        |i: int|
            Slot {
                lba: blocks[i].lba,
                next: if i + 1 < blocks.len() {
                    Some((base + i + 1) as usize)
                } else {
                    None
                },
                seg: None,
                is_fshd: false,
            },
    )
}

/// The place of filesystem `f`, the first being at `base`.
pub open spec fn driver_at(drivers: Seq<Driver>, base: int, f: int) -> int {
    base + driver_blocks(drivers.take(f)).len()
}

/// The header of filesystem `f`.
pub open spec fn header_slot(drivers: Seq<Driver>, base: int, f: int) -> Slot {
    Slot {
        lba: drivers[f].header.lba,
        next: if f + 1 < drivers.len() {
            Some(driver_at(drivers, base, f + 1) as usize)
        } else {
            None
        },
        seg: if drivers[f].chain.len() > 0 {
            Some((driver_at(drivers, base, f) + 1) as usize)
        } else {
            None
        },
        is_fshd: true,
    }
}

/// The structures of the first `n` filesystems.
pub open spec fn driver_slots(drivers: Seq<Driver>, base: int, n: int) -> Seq<Slot>
    decreases n,
{
    if n <= 0 {
        Seq::empty()
    } else {
        driver_slots(drivers, base, n - 1).push(header_slot(drivers, base, n - 1)) + chain_slots(
            drivers[n - 1].chain,
            driver_at(drivers, base, n - 1) + 1,
        )
    }
}

impl Table {
    /// Every block of the table but the `RDSK`, in one list: the `PART` blocks,
    /// the filesystems, the `BADB` blocks.
    pub open spec fn blocks(self) -> Seq<Raw> {
        self.parts + driver_blocks(self.drivers) + self.badbs
    }

    /// Where the filesystems start in that list.
    pub open spec fn drivers_from(self) -> int {
        self.parts.len() as int
    }

    /// Where the `BADB` blocks start in that list.
    pub open spec fn badbs_from(self) -> int {
        self.parts.len() as int + driver_blocks(self.drivers).len()
    }

    /// The chains of the table, over that list.
    pub open spec fn slots(self) -> Seq<Slot> {
        chain_slots(self.parts, 0) + driver_slots(
            self.drivers,
            self.drivers_from(),
            self.drivers.len() as int,
        ) + chain_slots(self.badbs, self.badbs_from())
    }

    /// The table can be written back.
    pub open spec fn wf(self) -> bool {
        &&& bytes::supported_block_size(self.block_size as int)
        &&& self.rdsk_block < RDB_LOCATION_LIMIT
        &&& sound_bytes(self.rdsk, id::RDSK, self.block_size)
        &&& bytes::long_at(self.rdsk, rdsk::BLOCK_BYTES as int) == self.block_size
        &&& sound_blocks(self.parts, id::PART, self.block_size)
        &&& sound_drivers(self.drivers, self.block_size)
        &&& sound_blocks(self.badbs, id::BADB, self.block_size)
        &&& lone(self.blocks())
        &&& known(self.blocks(), self.rdsk_block, self.original)
    }

    /// First block of the RDB area.
    pub open spec fn lo(self) -> u32 {
        bytes::long_at(self.rdsk, rdsk::RDB_BLOCKS_LO as int)
    }

    /// Last block of the RDB area.
    pub open spec fn hi(self) -> u32 {
        bytes::long_at(self.rdsk, rdsk::RDB_BLOCKS_HI as int)
    }

    /// The blocks a commit may write.
    pub open spec fn area(self) -> Area {
        Area { lo: self.lo() as u64, hi: self.hi() as u64, rdsk: self.rdsk_block }
    }

    /// The table with the bytes of `PART` block `i` replaced.
    pub open spec fn with_part(self, i: int, b: Seq<u8>) -> Table {
        Table { parts: self.parts.update(i, Raw { lba: self.parts[i].lba, bytes: b }), ..self }
    }
}

/// The pointer to a block where it was found; a block that was found nowhere
/// has none.
pub open spec fn found_pointer(lba: u64) -> u32 {
    if lba == UNPLACED_BLOCK {
        CHAIN_END
    } else {
        lba as u32
    }
}

/// The pointer to the first block of a list.
pub open spec fn head_of(blocks: Seq<Raw>) -> u32 {
    if blocks.len() == 0 {
        CHAIN_END
    } else {
        found_pointer(blocks[0].lba)
    }
}

/// The entries of the `BADB` blocks of a list, one block after another.
pub open spec fn entries_of(blocks: Seq<Raw>) -> Seq<BadBlockEntry>
    decreases blocks.len(),
{
    if blocks.len() == 0 {
        Seq::empty()
    } else {
        entries_of(blocks.drop_last()) + model::badb_entries(blocks.last().bytes)
    }
}

/// The model is what the blocks of the table say. The heads of the chains are
/// where their first blocks were found.
pub open spec fn in_step(t: Table, rdb: Rdb) -> bool {
    &&& model::rdsk_reads_but_heads(rdb, t.rdsk, t.rdsk_block)
    &&& partitions_in_step(t.parts, rdb)
    &&& filesystems_in_step(t.drivers, rdb)
    &&& bad_blocks_in_step(t.badbs, rdb)
}

/// The model's partitions are what the `PART` blocks say.
pub open spec fn partitions_in_step(parts: Seq<Raw>, rdb: Rdb) -> bool {
    &&& rdb.partitions@.len() == parts.len()
    &&& forall|i: int|
        0 <= i < parts.len() ==> model::part_reads(
            #[trigger] rdb.partitions@[i],
            parts[i].bytes,
            parts[i].lba,
        )
}

/// The model's filesystems are what the `FSHD` blocks say.
pub open spec fn filesystems_in_step(drivers: Seq<Driver>, rdb: Rdb) -> bool {
    &&& rdb.filesystems@.len() == drivers.len()
    &&& forall|f: int|
        0 <= f < drivers.len() ==> {
            &&& model::fshd_reads_but_head(
                #[trigger] rdb.filesystems@[f],
                drivers[f].header.bytes,
                drivers[f].header.lba,
            )
            &&& rdb.filesystems@[f].seg_list_blocks == head_of(drivers[f].chain)
        }
    &&& rdb.filesys_header_list == if drivers.len() == 0 {
        CHAIN_END
    } else {
        found_pointer(drivers[0].header.lba)
    }
}

/// The model's bad-block list is what the `BADB` blocks say.
pub open spec fn bad_blocks_in_step(badbs: Seq<Raw>, rdb: Rdb) -> bool {
    &&& rdb.badb_blocks@ == Seq::new(badbs.len(), |i: int| badbs[i].lba)
    &&& rdb.bad_blocks@ == entries_of(badbs)
    &&& rdb.bad_block_list == head_of(badbs)
}

/// Where a block pointed.
pub open spec fn links_of(b: Raw, is_fshd: bool) -> OriginalLinks {
    OriginalLinks {
        lba: b.lba,
        next: walk::next_of(b.bytes),
        seg_list: if is_fshd {
            model::seg_list_of(b.bytes)
        } else {
            CHAIN_END
        },
    }
}

/// `original` records the blocks of the list and where each pointed.
pub open spec fn records(
    original: Map<u64, OriginalLinks>,
    blocks: Seq<Raw>,
    slots: Seq<Slot>,
) -> bool {
    &&& forall|i: int|
        0 <= i < blocks.len() ==> original.contains_key((#[trigger] blocks[i]).lba)
            && original[blocks[i].lba] == links_of(blocks[i], slots[i].is_fshd)
    &&& forall|b: u64| #[trigger]
        original.contains_key(b) ==> exists|i: int|
            0 <= i < blocks.len() && (#[trigger] blocks[i]).lba == b
}

/// The blocks at `lbas`, as they are on the medium.
pub open spec fn blocks_at(m: Medium, lbas: Seq<u64>) -> Seq<Raw> {
    Seq::new(lbas.len(), |i: int| Raw { lba: lbas[i], bytes: m.blocks[lbas[i]] })
}

/// The filesystems of the model `rdb`, as they are on the medium, their drivers
/// running through `chains`.
pub open spec fn drivers_at(m: Medium, rdb: Rdb, chains: Seq<Seq<u64>>) -> Seq<Driver> {
    Seq::new(
        chains.len(),
        |f: int|
            Driver {
                header: Raw {
                    lba: rdb.filesystems@[f].fshd_block,
                    bytes: m.blocks[rdb.filesystems@[f].fshd_block],
                },
                chain: blocks_at(m, chains[f]),
            },
    )
}

/// No two of the chains share a block.
pub open spec fn chains_apart(chains: Seq<Seq<u64>>) -> bool {
    forall|f: int, g: int, b: u64|
        #![trigger chains[f].contains(b), chains[g].contains(b)]
        0 <= f < g < chains.len() && chains[f].contains(b) ==> !chains[g].contains(b)
}

/// `t` holds, unchanged, the blocks of the table that the medium says, as `rdb`
/// models it.
pub open spec fn holds_blocks(m: Medium, rdb: Rdb, chains: Seq<Seq<u64>>, t: Table) -> bool {
    &&& parse::parses_as(m, rdb)
    &&& chains.len() == rdb.filesystems@.len()
    &&& crate::validate::are_driver_chains(m, rdb, chains)
    &&& chains_apart(chains)
    &&& t.block_size == m.block_size
    &&& t.rdsk_block == rdb.rdsk_block
    &&& t.rdsk == m.blocks[rdb.rdsk_block]
    &&& t.parts == blocks_at(m, parse::part_lbas(rdb))
    &&& t.drivers == drivers_at(m, rdb, chains)
    &&& t.badbs == blocks_at(m, rdb.badb_blocks@)
    &&& t.disk_blocks == m.block_count
    &&& t.opened_hi == rdb.rdb_blocks_hi
}

/// `t` is the table that the medium says, as `rdb` models it, and no edit has
/// been made.
pub open spec fn opened_as(m: Medium, rdb: Rdb, chains: Seq<Seq<u64>>, t: Table) -> bool {
    holds_blocks(m, rdb, chains, t) && records(t.original, t.blocks(), t.slots())
}

/// The list of two lists of filesystems is the two lists.
pub proof fn lemma_driver_blocks_add(a: Seq<Driver>, b: Seq<Driver>)
    ensures
        driver_blocks(a + b) == driver_blocks(a) + driver_blocks(b),
    decreases b.len(),
{
    if b.len() == 0 {
        assert(a + b =~= a);
        assert(driver_blocks(a) + driver_blocks(b) =~= driver_blocks(a));
    } else {
        assert((a + b).drop_last() =~= a + b.drop_last());
        lemma_driver_blocks_add(a, b.drop_last());
        assert(driver_blocks(a + b) =~= driver_blocks(a) + driver_blocks(b));
    }
}

/// The list of one filesystem.
pub proof fn lemma_driver_blocks_one(d: Driver)
    ensures
        driver_blocks(seq![d]) == seq![d.header] + d.chain,
{
    let one = seq![d];
    assert(one.drop_last() =~= Seq::empty());
    assert(driver_blocks(one.drop_last()) =~= Seq::empty());
    assert(driver_blocks(one) =~= seq![d.header] + d.chain);
}

/// Every filesystem is found in the list at its place.
pub proof fn lemma_driver_place(drivers: Seq<Driver>, f: int)
    requires
        0 <= f < drivers.len(),
    ensures
        ({
            let at = driver_blocks(drivers.take(f)).len() as int;
            let all = driver_blocks(drivers);
            &&& driver_blocks(drivers.take(f + 1)).len() == at + 1 + drivers[f].chain.len()
            &&& at + 1 + drivers[f].chain.len() <= all.len()
            &&& all[at] == drivers[f].header
            &&& forall|j: int|
                0 <= j < drivers[f].chain.len() ==> #[trigger] all[at + 1 + j]
                    == drivers[f].chain[j]
        }),
{
    let head = drivers.take(f);
    let tail = drivers.skip(f + 1);
    let one = seq![drivers[f]];
    assert(drivers.take(f + 1) =~= head + one);
    assert(drivers =~= head + one + tail);
    lemma_driver_blocks_add(head, one);
    lemma_driver_blocks_one(drivers[f]);
    lemma_driver_blocks_add(head + one, tail);
}

/// Every block of the filesystems is a header or a piece of a driver.
pub proof fn lemma_driver_of(drivers: Seq<Driver>, k: int) -> (f: int)
    requires
        0 <= k < driver_blocks(drivers).len(),
    ensures
        0 <= f < drivers.len(),
        driver_blocks(drivers.take(f)).len() <= k < driver_blocks(drivers.take(f + 1)).len(),
    decreases drivers.len(),
{
    let last = drivers.len() - 1;
    lemma_driver_place(drivers, last);
    assert(drivers.take(last) =~= drivers.drop_last());
    assert(drivers.take(last + 1) =~= drivers);
    if k >= driver_blocks(drivers.take(last)).len() {
        last
    } else {
        let f = lemma_driver_of(drivers.drop_last(), k);
        assert(drivers.drop_last().take(f) =~= drivers.take(f));
        assert(drivers.drop_last().take(f + 1) =~= drivers.take(f + 1));
        f
    }
}

/// There are as many structures as blocks.
pub proof fn lemma_driver_slots_len(drivers: Seq<Driver>, base: int, n: int)
    requires
        0 <= n <= drivers.len(),
    ensures
        driver_slots(drivers, base, n).len() == driver_blocks(drivers.take(n)).len(),
    decreases n,
{
    if n > 0 {
        lemma_driver_slots_len(drivers, base, n - 1);
        lemma_driver_place(drivers, n - 1);
    } else {
        assert(drivers.take(0) =~= Seq::empty());
    }
}

/// The structures of filesystem `f` stand where its blocks do.
pub proof fn lemma_driver_slots(drivers: Seq<Driver>, base: int, n: int, f: int)
    requires
        0 <= f < n <= drivers.len(),
    ensures
        ({
            let at = driver_blocks(drivers.take(f)).len() as int;
            &&& at + 1 + drivers[f].chain.len() <= driver_slots(drivers, base, n).len()
            &&& driver_slots(drivers, base, n)[at] == header_slot(drivers, base, f)
            &&& forall|j: int|
                0 <= j < drivers[f].chain.len() ==> #[trigger] driver_slots(drivers, base, n)[at + 1
                    + j] == chain_slots(drivers[f].chain, base + at + 1)[j]
        }),
    decreases n,
{
    let at = driver_blocks(drivers.take(f)).len() as int;
    let head = driver_slots(drivers, base, n - 1);
    let all = driver_slots(drivers, base, n);
    let chain = chain_slots(drivers[f].chain, base + at + 1);
    lemma_driver_slots_len(drivers, base, n - 1);
    if f < n - 1 {
        lemma_driver_slots(drivers, base, n - 1, f);
        assert forall|j: int| 0 <= j < drivers[f].chain.len() implies #[trigger] all[at + 1 + j]
            == chain[j] by {
            assert(head[at + 1 + j] == chain[j]);
        }
    } else {
        assert forall|j: int| 0 <= j < drivers[f].chain.len() implies #[trigger] all[at + 1 + j]
            == chain[j] by {}
    }
}

/// Which filesystem a block belongs to, and which of its blocks it is: the
/// header where `j` is -1, a piece of the driver otherwise.
pub proof fn lemma_driver_block(drivers: Seq<Driver>, k: int) -> (r: (int, int))
    requires
        0 <= k < driver_blocks(drivers).len(),
    ensures
        0 <= r.0 < drivers.len(),
        -1 <= r.1 < drivers[r.0].chain.len(),
        k == driver_blocks(drivers.take(r.0)).len() + 1 + r.1,
        driver_blocks(drivers)[k] == if r.1 == -1 {
            drivers[r.0].header
        } else {
            drivers[r.0].chain[r.1]
        },
{
    let f = lemma_driver_of(drivers, k);
    lemma_driver_place(drivers, f);
    let at = driver_blocks(drivers.take(f)).len() as int;
    let j = k - at - 1;
    if j >= 0 {
        assert(driver_blocks(drivers)[at + 1 + j] == drivers[f].chain[j]);
    }
    (f, j)
}

/// Blocks of a list that is whole and in order, read as a chain.
proof fn lemma_chain_blocks(m: Medium, head: u32, id: u32, lbas: Seq<u64>)
    requires
        walk::is_chain(m, head, id, lbas),
    ensures
        lbas.no_duplicates(),
        forall|i: int|
            0 <= i < lbas.len() ==> {
                &&& (#[trigger] lbas[i]) < CHAIN_END
                &&& m.has(lbas[i])
                &&& walk::good_block(m.blocks[lbas[i]], id)
            },
        head == head_of(blocks_at(m, lbas)),
{
    reveal(walk::is_walk);
    if lbas.len() > 0 {
        assert(lbas[0] < CHAIN_END);
    }
}

/// Each block of an opened table is what the medium has there, and carries the
/// ID of its kind.
proof fn lemma_opened_block(m: Medium, rdb: Rdb, chains: Seq<Seq<u64>>, t: Table, k: int)
    requires
        holds_blocks(m, rdb, chains, t),
        0 <= k < t.blocks().len(),
    ensures
        t.blocks()[k].bytes == m.blocks[t.blocks()[k].lba],
        t.blocks()[k].lba < CHAIN_END,
        m.has(t.blocks()[k].lba),
        ({
            let b = t.blocks()[k].bytes;
            &&& checksum::checksum_holds(b)
            &&& bytes::long_at(b, hdr::ID as int) == if k < t.drivers_from() {
                id::PART
            } else if k < t.badbs_from() {
                if piece_of(t, k) == -1 {
                    id::FSHD
                } else {
                    id::LSEG
                }
            } else {
                id::BADB
            }
        }),
{
    lemma_chains(m, rdb, chains, t);
    if t.drivers_from() <= k < t.badbs_from() {
        let d = k - t.drivers_from();
        let (f, j) = lemma_driver_block(t.drivers, d);
        lemma_kind_is(t, k, f, j);
        assert(t.blocks()[k] == driver_blocks(t.drivers)[d]);
        if j == -1 {
            assert(t.drivers[f].header.lba == parse::fshd_lbas(rdb)[f]);
        } else {
            lemma_chain_blocks(m, rdb.filesystems@[f].seg_list_blocks, id::LSEG, chains[f]);
            assert(t.drivers[f].chain[j].lba == chains[f][j]);
        }
    } else if k < t.drivers_from() {
        assert(t.blocks()[k] == t.parts[k]);
        assert(t.parts[k].lba == parse::part_lbas(rdb)[k]);
    } else {
        assert(t.blocks()[k] == t.badbs[k - t.badbs_from()]);
        assert(t.badbs[k - t.badbs_from()].lba == rdb.badb_blocks@[k - t.badbs_from()]);
    }
}

/// Each block of an opened table is what the medium has there, and checks out.
pub proof fn lemma_opened_bytes(m: Medium, rdb: Rdb, chains: Seq<Seq<u64>>, t: Table, k: int)
    requires
        holds_blocks(m, rdb, chains, t),
        0 <= k < t.blocks().len(),
    ensures
        t.blocks()[k].bytes == m.blocks[t.blocks()[k].lba],
        t.blocks()[k].lba < CHAIN_END,
        m.has(t.blocks()[k].lba),
        checksum::checksum_holds(t.blocks()[k].bytes),
{
    lemma_opened_block(m, rdb, chains, t, k);
}

/// Which of its filesystem's blocks block `k` is; -1 is the header.
spec fn piece_of(t: Table, k: int) -> int {
    choose|j: int| is_piece(t, k, j)
}

/// Block `k` is piece `j` of its filesystem.
spec fn is_piece(t: Table, k: int, j: int) -> bool {
    exists|f: int|
        {
            &&& 0 <= f < t.drivers.len()
            &&& -1 <= j < (#[trigger] t.drivers[f]).chain.len()
            &&& k - t.drivers_from() == driver_blocks(t.drivers.take(f)).len() + 1 + j
        }
}

/// A block is one piece of one filesystem.
proof fn lemma_kind_is(t: Table, k: int, f: int, j: int)
    requires
        0 <= f < t.drivers.len(),
        -1 <= j < t.drivers[f].chain.len(),
        k - t.drivers_from() == driver_blocks(t.drivers.take(f)).len() + 1 + j,
    ensures
        piece_of(t, k) == j,
{
    assert(is_piece(t, k, j));
    let i = piece_of(t, k);
    assert(is_piece(t, k, i));
    let g = choose|g: int|
        {
            &&& 0 <= g < t.drivers.len()
            &&& -1 <= i < (#[trigger] t.drivers[g]).chain.len()
            &&& k - t.drivers_from() == driver_blocks(t.drivers.take(g)).len() + 1 + i
        };
    lemma_places_ordered(t.drivers, f, g);
}

/// A later filesystem starts where an earlier one has ended.
proof fn lemma_places_ordered(drivers: Seq<Driver>, f: int, g: int)
    requires
        0 <= f < drivers.len(),
        0 <= g < drivers.len(),
    ensures
        f < g ==> driver_blocks(drivers.take(f)).len() + 1 + drivers[f].chain.len()
            <= driver_blocks(drivers.take(g)).len(),
        g < f ==> driver_blocks(drivers.take(g)).len() + 1 + drivers[g].chain.len()
            <= driver_blocks(drivers.take(f)).len(),
{
    let (a, b) = if f < g {
        (f, g)
    } else {
        (g, f)
    };
    if a < b {
        let head = drivers.take(b);
        lemma_driver_place(head, a);
        assert(head.take(a) =~= drivers.take(a));
        assert(head[a] == drivers[a]);
    }
}

/// The chains of an opened table are whole.
proof fn lemma_chains(m: Medium, rdb: Rdb, chains: Seq<Seq<u64>>, t: Table)
    requires
        holds_blocks(m, rdb, chains, t),
    ensures
        ({
            let lbas = parse::part_lbas(rdb);
            &&& lbas.no_duplicates()
            &&& forall|i: int|
                0 <= i < lbas.len() ==> {
                    &&& (#[trigger] lbas[i]) < CHAIN_END
                    &&& m.has(lbas[i])
                    &&& walk::good_block(m.blocks[lbas[i]], id::PART)
                }
        }),
        ({
            let lbas = parse::fshd_lbas(rdb);
            &&& lbas.no_duplicates()
            &&& forall|i: int|
                0 <= i < lbas.len() ==> {
                    &&& (#[trigger] lbas[i]) < CHAIN_END
                    &&& m.has(lbas[i])
                    &&& walk::good_block(m.blocks[lbas[i]], id::FSHD)
                }
        }),
        ({
            let lbas = rdb.badb_blocks@;
            &&& lbas.no_duplicates()
            &&& forall|i: int|
                0 <= i < lbas.len() ==> {
                    &&& (#[trigger] lbas[i]) < CHAIN_END
                    &&& m.has(lbas[i])
                    &&& walk::good_block(m.blocks[lbas[i]], id::BADB)
                }
        }),
        rdb.filesys_header_list == head_of(blocks_at(m, parse::fshd_lbas(rdb))),
        rdb.bad_block_list == head_of(t.badbs),
{
    let heads = bytes::long_at(m.blocks[rdb.rdsk_block], rdsk::PARTITION_LIST as int);
    assert(parse::part_lbas(rdb) =~= Seq::new(
        rdb.partitions@.len(),
        |i: int| rdb.partitions@[i].part_block,
    ));
    assert(parse::fshd_lbas(rdb) =~= Seq::new(
        rdb.filesystems@.len(),
        |i: int| rdb.filesystems@[i].fshd_block,
    ));
    lemma_chain_blocks(m, heads, id::PART, parse::part_lbas(rdb));
    lemma_chain_blocks(m, rdb.filesys_header_list, id::FSHD, parse::fshd_lbas(rdb));
    lemma_chain_blocks(m, rdb.bad_block_list, id::BADB, rdb.badb_blocks@);
}

/// No two blocks of an opened table are in one place.
pub proof fn lemma_opened_apart(
    m: Medium,
    rdb: Rdb,
    chains: Seq<Seq<u64>>,
    t: Table,
    a: int,
    b: int,
)
    requires
        holds_blocks(m, rdb, chains, t),
        0 <= a < b < t.blocks().len(),
    ensures
        t.blocks()[a].lba != t.blocks()[b].lba,
{
    lemma_chains(m, rdb, chains, t);
    lemma_opened_block(m, rdb, chains, t, a);
    lemma_opened_block(m, rdb, chains, t, b);
    let p = t.drivers_from();
    let q = t.badbs_from();
    if t.blocks()[a].lba == t.blocks()[b].lba {
        assert(t.blocks()[a].bytes == t.blocks()[b].bytes);
        if b < p {
            assert(t.parts[a].lba == parse::part_lbas(rdb)[a]);
            assert(t.parts[b].lba == parse::part_lbas(rdb)[b]);
        } else if a >= q {
            assert(t.badbs[a - q].lba == rdb.badb_blocks@[a - q]);
            assert(t.badbs[b - q].lba == rdb.badb_blocks@[b - q]);
        } else if p <= a && b < q {
            let (f, i) = lemma_driver_block(t.drivers, a - p);
            let (g, j) = lemma_driver_block(t.drivers, b - p);
            lemma_kind_is(t, a, f, i);
            lemma_kind_is(t, b, g, j);
            assert(t.blocks()[a] == driver_blocks(t.drivers)[a - p]);
            assert(t.blocks()[b] == driver_blocks(t.drivers)[b - p]);
            if i == -1 && j == -1 {
                assert(parse::fshd_lbas(rdb)[f] == t.drivers[f].header.lba);
                assert(parse::fshd_lbas(rdb)[g] == t.drivers[g].header.lba);
            } else if i >= 0 && j >= 0 {
                let lba = t.blocks()[a].lba;
                assert(chains[f][i] == lba);
                assert(chains[g][j] == lba);
                assert(chains[f].contains(lba));
                assert(chains[g].contains(lba));
                if f == g {
                    lemma_chain_blocks(
                        m,
                        rdb.filesystems@[f].seg_list_blocks,
                        id::LSEG,
                        chains[f],
                    );
                } else if f < g {
                    assert(!chains[g].contains(lba));
                } else {
                    assert(!chains[f].contains(lba));
                }
            }
        }
    }
}

/// The entries of the blocks are those the medium has.
proof fn lemma_entries(m: Medium, lbas: Seq<u64>)
    ensures
        entries_of(blocks_at(m, lbas)) == parse::all_entries(m, lbas),
    decreases lbas.len(),
{
    if lbas.len() > 0 {
        assert(blocks_at(m, lbas).drop_last() =~= blocks_at(m, lbas.drop_last()));
        lemma_entries(m, lbas.drop_last());
    }
}

/// A table that was read whole is sound, and its model is what it says.
pub proof fn lemma_opened_wf(m: Medium, rdb: Rdb, chains: Seq<Seq<u64>>, t: Table)
    requires
        opened_as(m, rdb, chains, t),
        t.rdsk.len() == t.block_size,
        forall|k: int|
            0 <= k < t.blocks().len() ==> (#[trigger] t.blocks()[k]).bytes.len() == t.block_size,
    ensures
        t.wf(),
        in_step(t, rdb),
{
    lemma_chains(m, rdb, chains, t);
    let p = t.drivers_from();
    let q = t.badbs_from();
    let all = t.blocks();
    assert(lone(all)) by {
        assert forall|i: int, j: int|
            0 <= i < j < all.len() && (#[trigger] all[i]).lba != UNPLACED_BLOCK implies all[i].lba
            != (#[trigger] all[j]).lba by {
            lemma_opened_apart(m, rdb, chains, t, i, j);
        }
    }
    assert(known(all, t.rdsk_block, t.original)) by {
        assert forall|i: int|
            0 <= i < all.len() && (#[trigger] all[i]).lba != UNPLACED_BLOCK implies {
            &&& all[i].lba < CHAIN_END
            &&& all[i].lba != t.rdsk_block
            &&& t.original.contains_key(all[i].lba)
        } by {
            lemma_opened_block(m, rdb, chains, t, i);
        }
    }
    assert(sound_blocks(t.parts, id::PART, t.block_size)) by {
        assert forall|i: int| 0 <= i < t.parts.len() implies sound_bytes(
            (#[trigger] t.parts[i]).bytes,
            id::PART,
            t.block_size,
        ) by {
            assert(all[i] == t.parts[i]);
            lemma_opened_block(m, rdb, chains, t, i);
        }
    }
    assert(sound_blocks(t.badbs, id::BADB, t.block_size)) by {
        assert forall|i: int| 0 <= i < t.badbs.len() implies sound_bytes(
            (#[trigger] t.badbs[i]).bytes,
            id::BADB,
            t.block_size,
        ) by {
            assert(all[q + i] == t.badbs[i]);
            lemma_opened_block(m, rdb, chains, t, q + i);
        }
    }
    assert(sound_drivers(t.drivers, t.block_size)) by {
        assert forall|f: int| 0 <= f < t.drivers.len() implies {
            &&& sound_bytes((#[trigger] t.drivers[f]).header.bytes, id::FSHD, t.block_size)
            &&& sound_blocks(t.drivers[f].chain, id::LSEG, t.block_size)
        } by {
            lemma_driver_place(t.drivers, f);
            let at = driver_blocks(t.drivers.take(f)).len() as int;
            assert(all[p + at] == driver_blocks(t.drivers)[at]);
            lemma_opened_block(m, rdb, chains, t, p + at);
            lemma_kind_is(t, p + at, f, -1);
            assert forall|j: int| 0 <= j < t.drivers[f].chain.len() implies sound_bytes(
                (#[trigger] t.drivers[f].chain[j]).bytes,
                id::LSEG,
                t.block_size,
            ) by {
                assert(driver_blocks(t.drivers)[at + 1 + j] == t.drivers[f].chain[j]);
                assert(all[p + at + 1 + j] == driver_blocks(t.drivers)[at + 1 + j]);
                lemma_opened_block(m, rdb, chains, t, p + at + 1 + j);
                lemma_kind_is(t, p + at + 1 + j, f, j);
            }
        }
    }
    assert(partitions_in_step(t.parts, rdb));
    assert(filesystems_in_step(t.drivers, rdb)) by {
        assert forall|f: int| 0 <= f < t.drivers.len() implies {
            &&& model::fshd_reads_but_head(
                #[trigger] rdb.filesystems@[f],
                t.drivers[f].header.bytes,
                t.drivers[f].header.lba,
            )
            &&& rdb.filesystems@[f].seg_list_blocks == head_of(t.drivers[f].chain)
        } by {
            let c = chains[f];
            lemma_chain_blocks(m, rdb.filesystems@[f].seg_list_blocks, id::LSEG, chains[f]);
        }
    }
    assert(bad_blocks_in_step(t.badbs, rdb)) by {
        lemma_entries(m, rdb.badb_blocks@);
        assert(rdb.badb_blocks@ =~= Seq::new(t.badbs.len(), |i: int| t.badbs[i].lba));
    }
}

/// No block of the list was found anywhere.
pub open spec fn unplaced(blocks: Seq<Raw>) -> bool {
    forall|i: int| 0 <= i < blocks.len() ==> (#[trigger] blocks[i]).lba == UNPLACED_BLOCK
}

/// Blocks taken out of a list, and new ones put in their place, leave what was
/// said of the others.
pub proof fn lemma_splice(
    a: Seq<Raw>,
    out: Seq<Raw>,
    put: Seq<Raw>,
    c: Seq<Raw>,
    rdsk_block: u64,
    original: Map<u64, OriginalLinks>,
)
    requires
        lone(a + out + c),
        known(a + out + c, rdsk_block, original),
        unplaced(put),
    ensures
        lone(a + put + c),
        known(a + put + c, rdsk_block, original),
{
    let s = a + out + c;
    let t = a + put + c;
    let shift = out.len() - put.len();
    assert forall|i: int, j: int|
        0 <= i < j < t.len() && (#[trigger] t[i]).lba != UNPLACED_BLOCK implies t[i].lba != (
    #[trigger] t[j]).lba by {
        if a.len() <= i < a.len() + put.len() {
            assert(t[i] == put[i - a.len()]);
        } else if a.len() <= j < a.len() + put.len() {
            assert(t[j] == put[j - a.len()]);
        } else {
            let si = if i < a.len() {
                i
            } else {
                i + shift
            };
            let sj = if j < a.len() {
                j
            } else {
                j + shift
            };
            assert(t[i] == s[si]);
            assert(t[j] == s[sj]);
        }
    }
    assert forall|i: int| 0 <= i < t.len() && (#[trigger] t[i]).lba != UNPLACED_BLOCK implies {
        &&& t[i].lba < CHAIN_END
        &&& t[i].lba != rdsk_block
        &&& original.contains_key(t[i].lba)
    } by {
        if a.len() <= i < a.len() + put.len() {
            assert(t[i] == put[i - a.len()]);
        } else {
            let si = if i < a.len() {
                i
            } else {
                i + shift
            };
            assert(t[i] == s[si]);
        }
    }
}

/// Replacing the bytes of a `PART` block by sound ones keeps the table sound.
pub proof fn lemma_with_part_wf(t: Table, i: int, b: Seq<u8>)
    requires
        t.wf(),
        0 <= i < t.parts.len(),
        sound_bytes(b, id::PART, t.block_size),
    ensures
        t.with_part(i, b).wf(),
{
    let u = t.with_part(i, b);
    assert(u.blocks().len() == t.blocks().len());
    assert forall|k: int| 0 <= k < t.blocks().len() implies (#[trigger] u.blocks()[k]).lba
        == t.blocks()[k].lba by {
        if k < t.parts.len() {
            assert(u.blocks()[k] == u.parts[k]);
            assert(t.blocks()[k] == t.parts[k]);
        } else {
            assert(u.blocks()[k] == (driver_blocks(u.drivers) + u.badbs)[k - t.parts.len()]);
            assert(t.blocks()[k] == (driver_blocks(t.drivers) + t.badbs)[k - t.parts.len()]);
        }
    }
    assert(lone(u.blocks())) by {
        assert forall|x: int, y: int|
            0 <= x < y < u.blocks().len() && (#[trigger] u.blocks()[x]).lba
                != UNPLACED_BLOCK implies u.blocks()[x].lba != (#[trigger] u.blocks()[y]).lba by {
            assert(t.blocks()[x].lba != t.blocks()[y].lba);
        }
    }
    assert(known(u.blocks(), u.rdsk_block, u.original)) by {
        assert forall|x: int|
            0 <= x < u.blocks().len() && (#[trigger] u.blocks()[x]).lba
                != UNPLACED_BLOCK implies {
            &&& u.blocks()[x].lba < CHAIN_END
            &&& u.blocks()[x].lba != u.rdsk_block
            &&& u.original.contains_key(u.blocks()[x].lba)
        } by {
            let b = t.blocks()[x];
        }
    }
}

/// Another list of `PART` blocks, made by taking some out and putting new ones
/// in, keeps the table sound.
pub proof fn lemma_splice_parts(t: Table, a: Seq<Raw>, out: Seq<Raw>, put: Seq<Raw>, c: Seq<Raw>)
    requires
        t.wf(),
        t.parts == a + out + c,
        unplaced(put),
        sound_blocks(put, id::PART, t.block_size),
    ensures
        (Table { parts: a + put + c, ..t }).wf(),
{
    let u = Table { parts: a + put + c, ..t };
    let rest = driver_blocks(t.drivers) + t.badbs;
    assert(t.blocks() =~= a + out + (c + rest));
    assert(u.blocks() =~= a + put + (c + rest));
    lemma_splice(a, out, put, c + rest, t.rdsk_block, t.original);
    assert(sound_blocks(u.parts, id::PART, t.block_size)) by {
        assert forall|i: int| 0 <= i < u.parts.len() implies sound_bytes(
            (#[trigger] u.parts[i]).bytes,
            id::PART,
            t.block_size,
        ) by {
            if i < a.len() {
                assert(u.parts[i] == t.parts[i]);
            } else if i < a.len() + put.len() {
                assert(u.parts[i] == put[i - a.len()]);
            } else {
                assert(u.parts[i] == t.parts[i - put.len() + out.len()]);
            }
        }
    }
}

/// The same, of filesystems.
pub proof fn lemma_splice_drivers(
    t: Table,
    a: Seq<Driver>,
    out: Seq<Driver>,
    put: Seq<Driver>,
    c: Seq<Driver>,
)
    requires
        t.wf(),
        t.drivers == a + out + c,
        unplaced(driver_blocks(put)),
        sound_drivers(put, t.block_size),
    ensures
        (Table { drivers: a + put + c, ..t }).wf(),
{
    let u = Table { drivers: a + put + c, ..t };
    lemma_driver_blocks_add(a + out, c);
    lemma_driver_blocks_add(a, out);
    lemma_driver_blocks_add(a + put, c);
    lemma_driver_blocks_add(a, put);
    let head = t.parts + driver_blocks(a);
    let tail = driver_blocks(c) + t.badbs;
    assert(t.blocks() =~= head + driver_blocks(out) + tail);
    assert(u.blocks() =~= head + driver_blocks(put) + tail);
    lemma_splice(head, driver_blocks(out), driver_blocks(put), tail, t.rdsk_block, t.original);
    assert(sound_drivers(u.drivers, t.block_size)) by {
        assert forall|f: int| 0 <= f < u.drivers.len() implies {
            &&& sound_bytes((#[trigger] u.drivers[f]).header.bytes, id::FSHD, t.block_size)
            &&& sound_blocks(u.drivers[f].chain, id::LSEG, t.block_size)
        } by {
            if f < a.len() {
                assert(u.drivers[f] == t.drivers[f]);
            } else if f < a.len() + put.len() {
                assert(u.drivers[f] == put[f - a.len()]);
            } else {
                assert(u.drivers[f] == t.drivers[f - put.len() + out.len()]);
            }
        }
    }
}

/// Another bad-block list, made of new blocks, keeps the table sound.
pub proof fn lemma_new_badbs(t: Table, put: Seq<Raw>)
    requires
        t.wf(),
        unplaced(put),
        sound_blocks(put, id::BADB, t.block_size),
    ensures
        (Table { badbs: put, ..t }).wf(),
{
    let u = Table { badbs: put, ..t };
    let head = t.parts + driver_blocks(t.drivers);
    let none = Seq::<Raw>::empty();
    assert(t.blocks() =~= head + t.badbs + none);
    assert(u.blocks() =~= head + put + none);
    lemma_splice(head, t.badbs, put, none, t.rdsk_block, t.original);
}

/// The blocks of new filesystems were found nowhere.
pub proof fn lemma_driver_unplaced(d: Driver)
    requires
        d.header.lba == UNPLACED_BLOCK,
        unplaced(d.chain),
    ensures
        unplaced(driver_blocks(seq![d])),
{
    lemma_driver_blocks_one(d);
    let all = seq![d.header] + d.chain;
    assert forall|i: int| 0 <= i < all.len() implies (#[trigger] all[i]).lba
        == UNPLACED_BLOCK by {
        if i > 0 {
            assert(all[i] == d.chain[i - 1]);
        }
    }
}

} // verus!
