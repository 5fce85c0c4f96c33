//! Reading a whole table into memory.
use std::collections::{BTreeMap, BTreeSet};
use vstd::prelude::*;

use crate::bytes::{be32, CHAIN_END};
use crate::media::BlockSource;
use crate::model::Rdb;
use crate::plan::{OriginalLinks, Slot};
use crate::table::{Driver, DriverBlocks, Raw, RawBlock, Table};
use crate::walk::{ChainWalk, RdbError, MAX_CHAIN_BLOCKS};
use crate::{bytes, chain, fshd, id, parse, table, validate, walk};

verus! {

/// One of the chains runs through `b`.
pub open spec fn in_any(chains: Seq<Seq<u64>>, b: u64) -> bool {
    exists|f: int| 0 <= f < chains.len() && (#[trigger] chains[f]).contains(b)
}

/// `b` is the first block of `c` that one of the chains runs through.
pub open spec fn is_first_shared(chains: Seq<Seq<u64>>, c: Seq<u64>, b: u64) -> bool {
    exists|k: int|
        {
            &&& 0 <= k < c.len()
            &&& #[trigger] c[k] == b
            &&& in_any(chains, b)
            &&& forall|j: int| 0 <= j < k ==> !in_any(chains, #[trigger] c[j])
        }
}

/// Block `lba` is the `RDSK`, a `PART`, a `FSHD` or a `BADB` block of the table.
pub open spec fn is_table_block(rdb: Rdb, lba: u64) -> bool {
    ||| lba == rdb.rdsk_block
    ||| parse::part_lbas(rdb).contains(lba)
    ||| parse::fshd_lbas(rdb).contains(lba)
    ||| rdb.badb_blocks@.contains(lba)
}

/// `chains` are the drivers of the first filesystems, whole and apart, and the
/// next one breaks off with `e`, or runs through a block of one of them.
pub open spec fn driver_fails<S: BlockSource>(
    disk: S,
    rdb: Rdb,
    chains: Seq<Seq<u64>>,
    e: RdbError<S::Error>,
) -> bool {
    &&& validate::are_driver_chains(disk.medium(), rdb, chains)
    &&& table::chains_apart(chains)
    &&& chains.len() < rdb.filesystems@.len()
    &&& ({
        let head = rdb.filesystems@[chains.len() as int].seg_list_blocks;
        match e {
            RdbError::SharedChain { lba } => exists|c: Seq<u64>| #[trigger]
                walk::is_chain(disk.medium(), head, id::LSEG, c) && is_first_shared(chains, c, lba),
            _ => walk::chain_breaks(disk, head, id::LSEG, e),
        }
    })
}

/// The table that `rdb` models cannot be read whole, for the reason `e`.
pub open spec fn reading_fails<S: BlockSource>(disk: S, rdb: Rdb, e: RdbError<S::Error>) -> bool {
    ||| e matches RdbError::Io(x) && exists|lba: u64|
        is_table_block(rdb, lba) && #[trigger] disk.read_fails(lba, x)
    ||| exists|chains: Seq<Seq<u64>>| driver_fails(disk, rdb, chains, e)
}

/// When opening the table on `disk` gives the error `e`.
pub open spec fn open_fails<S: BlockSource>(disk: S, e: RdbError<S::Error>) -> bool {
    ||| parse::parse_fails(disk, e)
    ||| exists|rdb: Rdb| #[trigger]
        parse::parses_as(disk.medium(), rdb) && reading_fails(disk, rdb, e)
}

/// A table read from a disk.
pub struct Opened {
    /// What it says.
    pub rdb: Rdb,
    /// Bytes per block.
    pub block_size: usize,
    /// The `RDSK` block.
    pub rdsk: Vec<u8>,
    /// The `PART` blocks.
    pub parts: Vec<RawBlock>,
    /// The filesystems.
    pub drivers: Vec<DriverBlocks>,
    /// The `BADB` blocks.
    pub badbs: Vec<RawBlock>,
    /// Where every block pointed.
    pub original: BTreeMap<u64, OriginalLinks>,
    /// How many blocks the disk has, where it said so.
    pub disk_blocks: Option<u64>,
}

impl View for Opened {
    type V = Table;

    open spec fn view(&self) -> Table {
        Table {
            block_size: self.block_size,
            rdsk_block: self.rdb.rdsk_block,
            rdsk: self.rdsk@,
            parts: table::raws(self.parts@),
            drivers: table::drivers_of(self.drivers@),
            badbs: table::raws(self.badbs@),
            original: self.original@,
            disk_blocks: self.disk_blocks,
            opened_hi: self.rdb.rdb_blocks_hi,
        }
    }
}

/// Read one block.
fn read_raw<S: BlockSource>(disk: &mut S, lba: u64, block_size: usize) -> (r: Result<
    RawBlock,
    RdbError<S::Error>,
>)
    requires
        block_size == old(disk).medium().block_size,
    ensures
        final(disk).medium() == old(disk).medium(),
        forall|l: u64, e: S::Error|
            #[trigger] final(disk).read_fails(l, e) == old(disk).read_fails(l, e),
        match r {
            Ok(b) => b@ == (Raw { lba, bytes: old(disk).medium().blocks[lba] }) && b.bytes@.len()
                == block_size,
            Err(RdbError::Io(e)) => old(disk).read_fails(lba, e),
            Err(_) => false,
        },
{
    let mut bytes: Vec<u8> = vec![0u8; block_size];
    match disk.read_block(lba, bytes.as_mut_slice()) {
        Ok(_) => Ok(RawBlock { lba, bytes }),
        Err(e) => Err(RdbError::Io(e)),
    }
}

/// Read the blocks at `lbas`.
fn read_raws<S: BlockSource>(disk: &mut S, lbas: &Vec<u64>, block_size: usize) -> (r: Result<
    Vec<RawBlock>,
    RdbError<S::Error>,
>)
    requires
        block_size == old(disk).medium().block_size,
    ensures
        final(disk).medium() == old(disk).medium(),
        forall|l: u64, e: S::Error|
            #[trigger] final(disk).read_fails(l, e) == old(disk).read_fails(l, e),
        match r {
            Ok(blocks) => {
                &&& table::raws(blocks@) == table::blocks_at(old(disk).medium(), lbas@)
                &&& forall|i: int|
                    0 <= i < blocks@.len() ==> (#[trigger] blocks@[i]).bytes@.len() == block_size
            },
            Err(RdbError::Io(e)) => exists|i: int|
                0 <= i < lbas@.len() && #[trigger] old(disk).read_fails(lbas@[i], e),
            Err(_) => false,
        },
{
    let ghost m = disk.medium();
    let mut blocks: Vec<RawBlock> = Vec::new();
    let mut i: usize = 0;
    while i < lbas.len()
        invariant
            i <= lbas.len(),
            disk.medium() == m,
            m == old(disk).medium(),
            m.block_size == block_size,
            forall|l: u64, e: S::Error|
                #[trigger] disk.read_fails(l, e) == old(disk).read_fails(l, e),
            table::raws(blocks@) =~= table::blocks_at(m, lbas@.take(i as int)),
            forall|k: int|
                0 <= k < blocks@.len() ==> (#[trigger] blocks@[k]).bytes@.len() == block_size,
        decreases lbas.len() - i,
    {
        match read_raw(disk, lbas[i], block_size) {
            Ok(b) => {
                let ghost so_far = blocks@;
                blocks.push(b);
                assert(lbas@.take(i + 1) =~= lbas@.take(i as int).push(lbas@[i as int]));
                assert(table::raws(blocks@) =~= table::raws(so_far).push(b@));
            },
            Err(e) => {
                return Err(e);
            },
        }
        i += 1;
    }
    assert(lbas@.take(lbas@.len() as int) =~= lbas@);
    Ok(blocks)
}

/// Read one driver's `LSEG` chain. `claimed` holds the blocks of the chains
/// before it, and those of this one afterwards.
fn read_chain<S: BlockSource>(
    disk: &mut S,
    head: u32,
    block_size: usize,
    claimed: &mut BTreeSet<u64>,
    chains: Ghost<Seq<Seq<u64>>>,
) -> (r: Result<(Vec<RawBlock>, Ghost<Seq<u64>>), RdbError<S::Error>>)
    requires
        block_size == old(disk).medium().block_size,
        block_size >= 512,
        forall|b: u64| #[trigger] old(claimed)@.contains(b) <==> in_any(chains@, b),
    ensures
        final(disk).medium() == old(disk).medium(),
        forall|l: u64, e: S::Error|
            #[trigger] final(disk).read_fails(l, e) == old(disk).read_fails(l, e),
        match r {
            Ok((blocks, c)) => {
                &&& walk::is_chain(old(disk).medium(), head, id::LSEG, c@)
                &&& table::raws(blocks@) == table::blocks_at(old(disk).medium(), c@)
                &&& forall|i: int|
                    0 <= i < blocks@.len() ==> (#[trigger] blocks@[i]).bytes@.len() == block_size
                &&& forall|b: u64| in_any(chains@, b) ==> !#[trigger] c@.contains(b)
                &&& forall|b: u64| #[trigger]
                    final(claimed)@.contains(b) <==> in_any(chains@.push(c@), b)
            },
            Err(RdbError::SharedChain { lba }) => exists|c: Seq<u64>| #[trigger]
                walk::is_chain(old(disk).medium(), head, id::LSEG, c) && is_first_shared(
                    chains@,
                    c,
                    lba,
                ),
            Err(e) => walk::chain_breaks(*old(disk), head, id::LSEG, e),
        },
{
    let ghost m = disk.medium();
    let ghost before = claimed@;
    let mut buf: Vec<u8> = vec![0u8; block_size];
    let mut blocks: Vec<RawBlock> = Vec::new();
    let mut shared: Option<u64> = None;
    let mut walk = ChainWalk::start(head);
    proof {
        walk::lemma_walk_starts(m, head, id::LSEG);
        assert(Seq::<u64>::empty().take(0) =~= Seq::<u64>::empty());
    }
    loop
        invariant
            walk.inv(),
            disk.medium() == m,
            m == old(disk).medium(),
            m.block_size == block_size,
            block_size >= 512,
            forall|l: u64, e: S::Error|
                #[trigger] disk.read_fails(l, e) == old(disk).read_fails(l, e),
            buf@.len() == block_size,
            walk::is_walk(m, head, id::LSEG, walk.trail(), walk.tail()),
            forall|b: u64| #[trigger] before.contains(b) <==> in_any(chains@, b),
            forall|b: u64| #[trigger]
                claimed@.contains(b) <==> before.contains(b) || walk.trail().contains(b),
            match shared {
                Some(lba) => is_first_shared(chains@, walk.trail(), lba),
                None => {
                    &&& table::raws(blocks@) =~= table::blocks_at(m, walk.trail())
                    &&& forall|j: int|
                        0 <= j < walk.trail().len() ==> !in_any(chains@, #[trigger] walk.trail()[j])
                },
            },
            forall|i: int|
                0 <= i < blocks@.len() ==> (#[trigger] blocks@[i]).bytes@.len() == block_size,
        decreases MAX_CHAIN_BLOCKS - walk.trail().len(),
    {
        let ghost was = walk;
        let ghost held = claimed@;
        match walk.advance(disk, id::LSEG, buf.as_mut_slice()) {
            Ok(Some(lba)) => {
                let ghost t = walk.trail();
                let ghost n = was.trail().len() as int;
                proof {
                    assert(t == was.trail().push(lba));
                    assert(t[n] == lba);
                    assert(t.no_duplicates()) by {
                        reveal(walk::is_walk);
                    }
                    assert(!was.trail().contains(lba)) by {
                        if was.trail().contains(lba) {
                            let j = choose|j: int|
                                0 <= j < was.trail().len() && was.trail()[j] == lba;
                            assert(t[j] == t[n]);
                        }
                    }
                    assert(held.contains(lba) <==> in_any(chains@, lba)) by {
                        assert(held.contains(lba) <==> before.contains(lba)
                            || was.trail().contains(lba));
                        assert(before.contains(lba) <==> in_any(chains@, lba));
                    }
                }
                let ghost first = shared;
                let ghost so_far = blocks@;
                let fresh: bool = !claimed.contains(&lba);
                if fresh {
                    claimed.insert(lba);
                }
                if shared.is_none() {
                    if fresh {
                        blocks.push(RawBlock { lba, bytes: buf.clone() });
                    } else {
                        shared = Some(lba);
                    }
                }
                proof {
                    match first {
                        Some(b) => {
                            assert(is_first_shared(chains@, was.trail(), b));
                            lemma_first_shared_grows(chains@, was.trail(), lba, b);
                        },
                        None => {
                            assert forall|j: int| 0 <= j < n implies !in_any(
                                chains@,
                                #[trigger] t[j],
                            ) by {
                                assert(t[j] == was.trail()[j]);
                            }
                            if !fresh {
                                assert(t[n] == lba);
                                assert(is_first_shared(chains@, t, lba));
                            } else {
                                assert(!in_any(chains@, t[n]));
                                assert(table::raws(blocks@) =~= table::raws(so_far).push(
                                    Raw { lba, bytes: m.blocks[lba] },
                                ));
                                assert(table::raws(blocks@) =~= table::blocks_at(m, t));
                            }
                        },
                    }
                }
                proof {
                    assert forall|b: u64| #[trigger]
                        claimed@.contains(b) <==> before.contains(b) || t.contains(b) by {
                        assert(held.contains(b) <==> before.contains(b) || was.trail().contains(b));
                        if was.trail().contains(b) {
                            let j = choose|j: int| 0 <= j < n && was.trail()[j] == b;
                            assert(t[j] == b);
                        }
                        if t.contains(b) && b != lba {
                            let j = choose|j: int| 0 <= j < t.len() && t[j] == b;
                            assert(was.trail()[j] == b);
                        }
                    }
                }
            },
            Ok(None) => {
                let ghost c = walk.trail();
                assert(walk::is_chain(m, head, id::LSEG, c));
                if let Some(lba) = shared {
                    return Err(RdbError::SharedChain { lba });
                }
                proof {
                    assert forall|b: u64| in_any(chains@, b) implies !#[trigger] c.contains(b) by {
                        if c.contains(b) {
                            let j = choose|j: int| 0 <= j < c.len() && c[j] == b;
                            assert(!in_any(chains@, c[j]));
                        }
                    }
                    assert forall|b: u64| #[trigger]
                        claimed@.contains(b) <==> in_any(chains@.push(c), b) by {
                        lemma_in_any_push(chains@, c, b);
                        assert(before.contains(b) <==> in_any(chains@, b));
                    }
                }
                return Ok((blocks, Ghost(c)));
            },
            Err(e) => {
                proof {
                    assert(walk::is_walk(m, head, id::LSEG, was.trail(), was.tail()));
                    assert(walk::stops_with(*old(disk), id::LSEG, was.trail(), was.tail(), e));
                }
                return Err(e);
            },
        }
    }
}

/// A longer chain shares the same first block.
proof fn lemma_first_shared_grows(chains: Seq<Seq<u64>>, c: Seq<u64>, lba: u64, b: u64)
    requires
        is_first_shared(chains, c, b),
    ensures
        is_first_shared(chains, c.push(lba), b),
{
    let k = choose|k: int|
        {
            &&& 0 <= k < c.len()
            &&& #[trigger] c[k] == b
            &&& in_any(chains, b)
            &&& forall|j: int| 0 <= j < k ==> !in_any(chains, #[trigger] c[j])
        };
    let d = c.push(lba);
    assert(d[k] == b);
    assert forall|j: int| 0 <= j < k implies !in_any(chains, #[trigger] d[j]) by {
        assert(d[j] == c[j]);
    }
}

/// One chain more.
proof fn lemma_in_any_push(chains: Seq<Seq<u64>>, c: Seq<u64>, b: u64)
    ensures
        in_any(chains.push(c), b) <==> in_any(chains, b) || c.contains(b),
{
    let all = chains.push(c);
    if in_any(chains, b) {
        let f = choose|f: int| 0 <= f < chains.len() && (#[trigger] chains[f]).contains(b);
        assert(all[f].contains(b));
    }
    if c.contains(b) {
        assert(all[chains.len() as int].contains(b));
    }
    if in_any(all, b) {
        let f = choose|f: int| 0 <= f < all.len() && (#[trigger] all[f]).contains(b);
        if f < chains.len() {
            assert(chains[f].contains(b));
        }
    }
}

/// What a block points at.
fn links(b: &RawBlock, is_fshd: bool) -> (r: OriginalLinks)
    requires
        b.bytes@.len() >= 512,
    ensures
        r == table::links_of(b@, is_fshd),
{
    OriginalLinks {
        lba: b.lba,
        next: be32(b.bytes.as_slice(), chain::NEXT),
        seg_list: if is_fshd {
            be32(b.bytes.as_slice(), fshd::SEG_LIST)
        } else {
            CHAIN_END
        },
    }
}

/// The first `n` blocks of the list have been recorded.
spec fn recorded(
    original: Map<u64, OriginalLinks>,
    blocks: Seq<Raw>,
    slots: Seq<Slot>,
    n: int,
) -> bool {
    &&& forall|i: int|
        0 <= i < n ==> original.contains_key((#[trigger] blocks[i]).lba)
            && original[blocks[i].lba] == table::links_of(blocks[i], slots[i].is_fshd)
    &&& forall|b: u64| #[trigger]
        original.contains_key(b) ==> exists|i: int|
            0 <= i < n && (#[trigger] blocks[i]).lba == b
}

/// Record one block more.
fn record(
    original: &mut BTreeMap<u64, OriginalLinks>,
    b: &RawBlock,
    is_fshd: bool,
    blocks: Ghost<Seq<Raw>>,
    slots: Ghost<Seq<Slot>>,
    n: Ghost<int>,
)
    requires
        0 <= n@ < blocks@.len(),
        b.bytes@.len() >= 512,
        b@ == blocks@[n@],
        is_fshd == slots@[n@].is_fshd,
        forall|i: int, j: int|
            0 <= i < j < blocks@.len() ==> (#[trigger] blocks@[i]).lba != (
            #[trigger] blocks@[j]).lba,
        recorded(old(original)@, blocks@, slots@, n@),
    ensures
        recorded(final(original)@, blocks@, slots@, n@ + 1),
{
    let ghost before = original@;
    original.insert(b.lba, links(b, is_fshd));
    proof {
        assert forall|i: int| 0 <= i < n@ + 1 implies original@.contains_key(
            (#[trigger] blocks@[i]).lba,
        ) && original@[blocks@[i].lba] == table::links_of(blocks@[i], slots@[i].is_fshd) by {
            if i < n@ {
                assert(blocks@[i].lba != blocks@[n@].lba);
            }
        }
        assert forall|l: u64| #[trigger] original@.contains_key(l) implies exists|i: int|
            0 <= i < n@ + 1 && (#[trigger] blocks@[i]).lba == l by {
            if l == b.lba {
                assert(blocks@[n@].lba == l);
            } else {
                assert(before.contains_key(l));
                let i = choose|i: int| 0 <= i < n@ && (#[trigger] blocks@[i]).lba == l;
                assert(blocks@[i].lba == l);
            }
        }
    }
}

/// Record every block of the table and where it points.
fn record_all(
    parts: &Vec<RawBlock>,
    drivers: &Vec<DriverBlocks>,
    badbs: &Vec<RawBlock>,
    t: Ghost<Table>,
) -> (original: BTreeMap<u64, OriginalLinks>)
    requires
        table::raws(parts@) == t@.parts,
        table::drivers_of(drivers@) == t@.drivers,
        table::raws(badbs@) == t@.badbs,
        forall|i: int, j: int|
            0 <= i < j < t@.blocks().len() ==> (#[trigger] t@.blocks()[i]).lba != (
            #[trigger] t@.blocks()[j]).lba,
        forall|i: int|
            0 <= i < t@.blocks().len() ==> (#[trigger] t@.blocks()[i]).bytes.len() >= 512,
    ensures
        table::records(original@, t@.blocks(), t@.slots()),
{
    let ghost blocks = t@.blocks();
    let ghost slots = t@.slots();
    let ghost p = t@.drivers_from();
    let ghost q = t@.badbs_from();
    let ghost middle = table::driver_slots(t@.drivers, p, t@.drivers.len() as int);
    proof {
        table::lemma_driver_slots_len(t@.drivers, p, t@.drivers.len() as int);
        assert(t@.drivers.take(t@.drivers.len() as int) =~= t@.drivers);
        assert(t@.drivers.take(0) =~= Seq::<Driver>::empty());
        assert(middle.len() == q - p);
    }
    let mut original: BTreeMap<u64, OriginalLinks> = BTreeMap::new();
    let mut i: usize = 0;
    while i < parts.len()
        invariant
            i <= parts.len(),
            table::raws(parts@) == t@.parts,
            blocks == t@.blocks(),
            slots == t@.slots(),
            forall|i: int, j: int|
                0 <= i < j < blocks.len() ==> (#[trigger] blocks[i]).lba != (
                #[trigger] blocks[j]).lba,
            forall|i: int| 0 <= i < blocks.len() ==> (#[trigger] blocks[i]).bytes.len() >= 512,
            recorded(original@, blocks, slots, i as int),
        decreases parts.len() - i,
    {
        proof {
            assert(t@.parts[i as int] == parts@[i as int]@);
            assert(blocks[i as int] == t@.parts[i as int]);
            assert(slots[i as int] == table::chain_slots(t@.parts, 0)[i as int]);
        }
        record(&mut original, &parts[i], false, Ghost(blocks), Ghost(slots), Ghost(i as int));
        i += 1;
    }
    let mut f: usize = 0;
    while f < drivers.len()
        invariant
            f <= drivers.len(),
            table::drivers_of(drivers@) == t@.drivers,
            blocks == t@.blocks(),
            slots == t@.slots(),
            p == t@.drivers_from(),
            q == t@.badbs_from(),
            middle == table::driver_slots(t@.drivers, p, t@.drivers.len() as int),
            middle.len() == q - p,
            forall|i: int, j: int|
                0 <= i < j < blocks.len() ==> (#[trigger] blocks[i]).lba != (
                #[trigger] blocks[j]).lba,
            forall|i: int| 0 <= i < blocks.len() ==> (#[trigger] blocks[i]).bytes.len() >= 512,
            recorded(
                original@,
                blocks,
                slots,
                p + table::driver_blocks(t@.drivers.take(f as int)).len(),
            ),
        decreases drivers.len() - f,
    {
        let ghost at = table::driver_blocks(t@.drivers.take(f as int)).len() as int;
        let d = &drivers[f];
        proof {
            table::lemma_driver_place(t@.drivers, f as int);
            table::lemma_driver_slots(t@.drivers, p, t@.drivers.len() as int, f as int);
            assert(t@.drivers[f as int] == d@);
            assert(blocks[p + at] == d.header@);
            assert(slots[p + at] == middle[at]);
        }
        record(&mut original, &d.header, true, Ghost(blocks), Ghost(slots), Ghost(p + at));
        let mut j: usize = 0;
        while j < d.chain.len()
            invariant
                j <= d.chain.len(),
                f < t@.drivers.len(),
                t@.drivers[f as int] == d@,
                blocks == t@.blocks(),
                slots == t@.slots(),
                p == t@.drivers_from(),
                q == t@.badbs_from(),
                middle == table::driver_slots(t@.drivers, p, t@.drivers.len() as int),
                middle.len() == q - p,
                at == table::driver_blocks(t@.drivers.take(f as int)).len(),
                forall|i: int, j: int|
                    0 <= i < j < blocks.len() ==> (#[trigger] blocks[i]).lba != (
                    #[trigger] blocks[j]).lba,
                forall|i: int| 0 <= i < blocks.len() ==> (#[trigger] blocks[i]).bytes.len() >= 512,
                recorded(original@, blocks, slots, p + at + 1 + j),
            decreases d.chain.len() - j,
        {
            proof {
                table::lemma_driver_place(t@.drivers, f as int);
                table::lemma_driver_slots(t@.drivers, p, t@.drivers.len() as int, f as int);
                let dd = t@.drivers[f as int];
                assert(dd.chain[j as int] == d.chain@[j as int]@);
                assert(table::driver_blocks(t@.drivers)[at + 1 + j] == dd.chain[j as int]);
                assert(blocks[p + at + 1 + j] == table::driver_blocks(t@.drivers)[at + 1 + j]);
                assert(middle[at + 1 + j] == table::chain_slots(dd.chain, p + at + 1)[j as int]);
                assert(slots[p + at + 1 + j] == middle[at + 1 + j]);
            }
            record(
                &mut original,
                &d.chain[j],
                false,
                Ghost(blocks),
                Ghost(slots),
                Ghost(p + at + 1 + j),
            );
            j += 1;
        }
        proof {
            table::lemma_driver_place(t@.drivers, f as int);
        }
        f += 1;
    }
    assert(t@.drivers.take(t@.drivers.len() as int) =~= t@.drivers);
    let mut i: usize = 0;
    while i < badbs.len()
        invariant
            i <= badbs.len(),
            table::raws(badbs@) == t@.badbs,
            blocks == t@.blocks(),
            slots == t@.slots(),
            p == t@.drivers_from(),
            q == t@.badbs_from(),
            middle == table::driver_slots(t@.drivers, p, t@.drivers.len() as int),
            middle.len() == q - p,
            forall|i: int, j: int|
                0 <= i < j < blocks.len() ==> (#[trigger] blocks[i]).lba != (
                #[trigger] blocks[j]).lba,
            forall|i: int| 0 <= i < blocks.len() ==> (#[trigger] blocks[i]).bytes.len() >= 512,
            recorded(original@, blocks, slots, q + i),
        decreases badbs.len() - i,
    {
        proof {
            assert(t@.badbs[i as int] == badbs@[i as int]@);
            assert(blocks[q + i] == t@.badbs[i as int]);
            assert(slots[q + i] == table::chain_slots(t@.badbs, q)[i as int]);
        }
        record(&mut original, &badbs[i], false, Ghost(blocks), Ghost(slots), Ghost(q + i));
        i += 1;
    }
    original
}

/// Parse the RDB on `disk` and read every block of it into memory.
pub fn read_table<S: BlockSource>(disk: &mut S) -> (r: Result<Opened, RdbError<S::Error>>)
    ensures
        final(disk).medium() == old(disk).medium(),
        forall|l: u64, e: S::Error|
            #[trigger] final(disk).read_fails(l, e) == old(disk).read_fails(l, e),
        match r {
            Ok(o) => {
                &&& exists|chains: Seq<Seq<u64>>|
                    table::opened_as(old(disk).medium(), o.rdb, chains, o@)
                &&& o@.wf()
                &&& table::in_step(o@, o.rdb)
            },
            Err(e) => open_fails(*old(disk), e),
        },
{
    let ghost m = disk.medium();
    let rdb: Rdb = match Rdb::parse(disk) {
        Ok(rdb) => rdb,
        Err(e) => {
            return Err(e);
        },
    };
    let block_size: usize = disk.block_size();
    let rdsk_raw = match read_raw(disk, rdb.rdsk_block, block_size) {
        Ok(b) => b,
        Err(e) => {
            proof {
                lemma_io_fails(*old(disk), rdb, rdb.rdsk_block, e);
            }
            return Err(e);
        },
    };
    let mut part_lbas: Vec<u64> = Vec::new();
    let mut i: usize = 0;
    while i < rdb.partitions.len()
        invariant
            i <= rdb.partitions.len(),
            part_lbas@ =~= parse::part_lbas(rdb).take(i as int),
        decreases rdb.partitions.len() - i,
    {
        part_lbas.push(rdb.partitions[i].part_block);
        i += 1;
    }
    assert(part_lbas@ =~= parse::part_lbas(rdb));
    let parts = match read_raws(disk, &part_lbas, block_size) {
        Ok(blocks) => blocks,
        Err(e) => {
            proof {
                lemma_list_fails(*old(disk), rdb, part_lbas@, e);
            }
            return Err(e);
        },
    };
    let mut drivers: Vec<DriverBlocks> = Vec::new();
    let mut claimed: BTreeSet<u64> = BTreeSet::new();
    let ghost mut chains: Seq<Seq<u64>> = Seq::empty();
    let mut f: usize = 0;
    while f < rdb.filesystems.len()
        invariant
            f <= rdb.filesystems.len(),
            chains.len() == f,
            disk.medium() == m,
            m == old(disk).medium(),
            m.block_size == block_size,
            block_size >= 512,
            parse::parses_as(m, rdb),
            forall|l: u64, e: S::Error|
                #[trigger] disk.read_fails(l, e) == old(disk).read_fails(l, e),
            validate::are_driver_chains(m, rdb, chains),
            table::chains_apart(chains),
            forall|b: u64| #[trigger] claimed@.contains(b) <==> in_any(chains, b),
            table::drivers_of(drivers@) == table::drivers_at(m, rdb, chains),
            sized_drivers(drivers@, block_size),
        decreases rdb.filesystems.len() - f,
    {
        let fshd_block: u64 = rdb.filesystems[f].fshd_block;
        let head: u32 = rdb.filesystems[f].seg_list_blocks;
        let header = match read_raw(disk, fshd_block, block_size) {
            Ok(b) => b,
            Err(e) => {
                proof {
                    assert(parse::fshd_lbas(rdb)[f as int] == fshd_block);
                    lemma_io_fails(*old(disk), rdb, fshd_block, e);
                }
                return Err(e);
            },
        };
        let ghost before = *disk;
        let (chain, c) = match read_chain(disk, head, block_size, &mut claimed, Ghost(chains)) {
            Ok(found) => found,
            Err(e) => {
                proof {
                    if !(e is SharedChain) {
                        validate::lemma_same_breaks(before, *old(disk), head, id::LSEG, e);
                    }
                    assert(driver_fails(*old(disk), rdb, chains, e));
                    assert(reading_fails(*old(disk), rdb, e));
                }
                return Err(e);
            },
        };
        let ghost so_far = drivers@;
        let ghost earlier = chains;
        let d = DriverBlocks { header, chain };
        drivers.push(d);
        proof {
            chains = chains.push(c@);
            assert(table::drivers_of(drivers@) =~= table::drivers_of(so_far).push(d@));
            assert(table::drivers_at(m, rdb, chains) =~= table::drivers_at(m, rdb, earlier).push(
                Driver {
                    header: Raw { lba: fshd_block, bytes: m.blocks[fshd_block] },
                    chain: table::blocks_at(m, c@),
                },
            ));
            assert(table::chains_apart(chains)) by {
                assert forall|a: int, b: int, l: u64|
                    #![trigger chains[a].contains(l), chains[b].contains(l)]
                    0 <= a < b < chains.len() && chains[a].contains(l) implies !chains[b].contains(
                    l,
                ) by {
                    assert(chains[a] == earlier[a]);
                    if b < earlier.len() {
                        assert(chains[b] == earlier[b]);
                        assert(earlier[a].contains(l));
                        assert(!earlier[b].contains(l));
                    } else {
                        assert(in_any(earlier, l));
                    }
                }
            }
        }
        f += 1;
    }
    let badbs = match read_raws(disk, &rdb.badb_blocks, block_size) {
        Ok(blocks) => blocks,
        Err(e) => {
            proof {
                lemma_list_fails(*old(disk), rdb, rdb.badb_blocks@, e);
            }
            return Err(e);
        },
    };
    let disk_blocks: Option<u64> = disk.block_count();
    let ghost t = Table {
        block_size,
        rdsk_block: rdb.rdsk_block,
        rdsk: rdsk_raw.bytes@,
        parts: table::raws(parts@),
        drivers: table::drivers_of(drivers@),
        badbs: table::raws(badbs@),
        original: Map::empty(),
        disk_blocks,
        opened_hi: rdb.rdb_blocks_hi,
    };
    proof {
        assert(table::holds_blocks(m, rdb, chains, t));
        assert forall|i: int, j: int| 0 <= i < j < t.blocks().len() implies (
        #[trigger] t.blocks()[i]).lba != (#[trigger] t.blocks()[j]).lba by {
            table::lemma_opened_apart(m, rdb, chains, t, i, j);
        }
        assert forall|k: int| 0 <= k < t.blocks().len() implies (#[trigger] t.blocks()[k]).bytes.len()
            == block_size by {
            lemma_sized(parts@, drivers@, badbs@, t, block_size, k);
        }
    }
    let original = record_all(&parts, &drivers, &badbs, Ghost(t));
    let o = Opened {
        rdb,
        block_size,
        rdsk: rdsk_raw.bytes,
        parts,
        drivers,
        badbs,
        original,
        disk_blocks,
    };
    proof {
        assert(o@.blocks() == t.blocks());
        assert(o@.slots() == t.slots());
        assert(table::opened_as(m, o.rdb, chains, o@));
        table::lemma_opened_wf(m, o.rdb, chains, o@);
    }
    Ok(o)
}

/// Every block of the filesystems has the block size.
spec fn sized_drivers(drivers: Seq<DriverBlocks>, size: usize) -> bool {
    forall|f: int|
        0 <= f < drivers.len() ==> {
            &&& (#[trigger] drivers[f]).header.bytes@.len() == size
            &&& forall|j: int|
                0 <= j < drivers[f].chain@.len() ==> (
                #[trigger] drivers[f].chain@[j]).bytes@.len() == size
        }
}

/// Every block of the table has the block size where every block of its lists
/// does.
proof fn lemma_sized(
    parts: Seq<RawBlock>,
    drivers: Seq<DriverBlocks>,
    badbs: Seq<RawBlock>,
    t: Table,
    size: usize,
    k: int,
)
    requires
        table::raws(parts) == t.parts,
        table::drivers_of(drivers) == t.drivers,
        table::raws(badbs) == t.badbs,
        forall|i: int| 0 <= i < parts.len() ==> (#[trigger] parts[i]).bytes@.len() == size,
        sized_drivers(drivers, size),
        forall|i: int| 0 <= i < badbs.len() ==> (#[trigger] badbs[i]).bytes@.len() == size,
        0 <= k < t.blocks().len(),
    ensures
        t.blocks()[k].bytes.len() == size,
{
    let p = t.drivers_from();
    let q = t.badbs_from();
    if k < p {
        assert(t.blocks()[k] == parts[k]@);
    } else if k < q {
        let (f, j) = table::lemma_driver_block(t.drivers, k - p);
        assert(t.drivers[f] == drivers[f]@);
        assert(t.blocks()[k] == table::driver_blocks(t.drivers)[k - p]);
        if j >= 0 {
            assert(t.drivers[f].chain[j] == drivers[f].chain@[j]@);
        }
    } else {
        assert(t.blocks()[k] == badbs[k - q]@);
    }
}

/// A read of a block of the table that fails is a reason not to open it.
proof fn lemma_io_fails<S: BlockSource>(disk: S, rdb: Rdb, lba: u64, e: RdbError<S::Error>)
    requires
        parse::parses_as(disk.medium(), rdb),
        is_table_block(rdb, lba),
        e matches RdbError::Io(x) && disk.read_fails(lba, x),
    ensures
        open_fails(disk, e),
{
    assert(reading_fails(disk, rdb, e));
}

/// The same, of one block of a list.
proof fn lemma_list_fails<S: BlockSource>(
    disk: S,
    rdb: Rdb,
    lbas: Seq<u64>,
    e: RdbError<S::Error>,
)
    requires
        parse::parses_as(disk.medium(), rdb),
        forall|b: u64| lbas.contains(b) ==> is_table_block(rdb, b),
        e matches RdbError::Io(x) && exists|i: int|
            0 <= i < lbas.len() && #[trigger] disk.read_fails(lbas[i], x),
    ensures
        open_fails(disk, e),
{
    let x = e->Io_0;
    let i = choose|i: int| 0 <= i < lbas.len() && #[trigger] disk.read_fails(lbas[i], x);
    assert(lbas.contains(lbas[i]));
    lemma_io_fails(disk, rdb, lbas[i], e);
}

} // verus!
