//! Walking the block chains of a partition table.
use std::collections::BTreeSet;
use vstd::prelude::*;

use crate::bytes::{be32, CHAIN_END};
use crate::checksum::checksum_ok;
use crate::media::{BlockSource, Medium};
use crate::text;
use crate::text::{put, put_number};
use crate::{bytes, chain, checksum, hdr};

verus! {

/// How many blocks from the start of the disk the `RDSK` block may legally sit
/// in.
pub const RDB_LOCATION_LIMIT: u64 = 16;

/// How many blocks one chain may hold before the walk gives up. Only a source
/// that reports no block count can reach it: otherwise a chain of distinct
/// blocks cannot outlast the disk.
pub const MAX_CHAIN_BLOCKS: usize = 1_048_576;

/// Errors from parsing an RDB.
#[derive(Debug, Clone, PartialEq, Eq)]
pub enum RdbError<E> {
    /// The underlying [`BlockSource`] failed.
    Io(E),
    /// The source's block size is not a supported one.
    UnsupportedBlockSize {
        /// What the source said its block size was.
        block_size: usize,
    },
    /// No valid `RDSK` block in the first [`RDB_LOCATION_LIMIT`] blocks. Also
    /// the answer when the scan cannot read that far.
    NoRdsk,
    /// A block in a chain had the wrong ID.
    WrongId {
        /// The block the chain pointed at.
        lba: u64,
        /// The magic number the chain's type requires.
        expected: u32,
        /// The magic number found there.
        found: u32,
    },
    /// A block's checksum failed.
    BadChecksum {
        /// The block whose `ChkSum` did not add up.
        lba: u64,
    },
    /// A chain pointer walked past the end of the disk.
    ChainOutOfRange {
        /// The off-disk block the chain pointed at.
        lba: u64,
    },
    /// A chain revisited a block.
    ChainCycle {
        /// The block the chain came back to.
        lba: u64,
    },
    /// A chain ran past [`MAX_CHAIN_BLOCKS`] blocks without repeating one.
    ChainTooLong {
        /// The limit that was exceeded.
        limit: usize,
    },
    /// Two `FSHD` blocks' `LSEG` chains share a block.
    SharedChain {
        /// The first block found on two chains.
        lba: u64,
    },
    /// `rdb_BlockBytes` disagrees with the source's block size.
    BlockBytesMismatch {
        /// `rdb_BlockBytes`, as the `RDSK` block declares it.
        block_bytes: u32,
        /// What the source says it reads in.
        block_size: usize,
    },
}

impl<E> RdbError<E> {
    /// The line [`message`](Self::message) gives.
    pub open spec fn line(self, cause: Seq<char>) -> Seq<char> {
        match self {
            RdbError::Io(_) => "reading a block failed: "@ + cause,
            RdbError::UnsupportedBlockSize { block_size } => "unsupported device block size "@
                + text::decimal(block_size as int) + ": must be a power of two in 512..=32768"@,
            RdbError::NoRdsk => "no valid RDSK block in the first 16 blocks"@,
            RdbError::WrongId { lba, expected, found } => "block "@ + text::decimal(lba as int)
                + " has ID "@ + text::fourcc(found) + " where "@ + text::fourcc(expected)
                + " was expected"@,
            RdbError::BadChecksum { lba } => "block "@ + text::decimal(lba as int)
                + " has a bad checksum"@,
            RdbError::ChainOutOfRange { lba } => "a chain pointed at block "@ + text::decimal(
                lba as int,
            ) + ", past the end of the disk"@,
            RdbError::ChainCycle { lba } => "a chain loops back to block "@ + text::decimal(
                lba as int,
            ),
            RdbError::ChainTooLong { limit } => "a chain is longer than the "@ + text::decimal(
                limit as int,
            ) + "-block limit"@,
            RdbError::SharedChain { lba } => "two filesystems' LSEG chains share block "@
                + text::decimal(lba as int) + ", so neither can be edited"@,
            RdbError::BlockBytesMismatch { block_bytes, block_size } => "the RDB declares "@
                + text::decimal(block_bytes as int) + "-byte blocks but the source reads "@
                + text::decimal(block_size as int) + "-byte blocks"@,
        }
    }

    /// One line a user can act on. `cause` is what the source's own error
    /// says, for a read that failed.
    pub fn message(&self, cause: &str) -> (s: String)
        ensures
            s@ == self.line(cause@),
    {
        let mut s: String = String::new();
        match self {
            RdbError::Io(_) => {
                put(&mut s, "reading a block failed: ");
                put(&mut s, cause);
            },
            RdbError::UnsupportedBlockSize { block_size } => {
                put(&mut s, "unsupported device block size ");
                put_number(&mut s, *block_size as u64);
                put(&mut s, ": must be a power of two in 512..=32768");
            },
            RdbError::NoRdsk => {
                put(&mut s, "no valid RDSK block in the first 16 blocks");
            },
            RdbError::WrongId { lba, expected, found } => {
                put(&mut s, "block ");
                put_number(&mut s, *lba);
                put(&mut s, " has ID ");
                put(&mut s, text::fourcc_string(*found).as_str());
                put(&mut s, " where ");
                put(&mut s, text::fourcc_string(*expected).as_str());
                put(&mut s, " was expected");
            },
            RdbError::BadChecksum { lba } => {
                put(&mut s, "block ");
                put_number(&mut s, *lba);
                put(&mut s, " has a bad checksum");
            },
            RdbError::ChainOutOfRange { lba } => {
                put(&mut s, "a chain pointed at block ");
                put_number(&mut s, *lba);
                put(&mut s, ", past the end of the disk");
            },
            RdbError::ChainCycle { lba } => {
                put(&mut s, "a chain loops back to block ");
                put_number(&mut s, *lba);
            },
            RdbError::ChainTooLong { limit } => {
                put(&mut s, "a chain is longer than the ");
                put_number(&mut s, *limit as u64);
                put(&mut s, "-block limit");
            },
            RdbError::SharedChain { lba } => {
                put(&mut s, "two filesystems' LSEG chains share block ");
                put_number(&mut s, *lba);
                put(&mut s, ", so neither can be edited");
            },
            RdbError::BlockBytesMismatch { block_bytes, block_size } => {
                put(&mut s, "the RDB declares ");
                put_number(&mut s, *block_bytes as u64);
                put(&mut s, "-byte blocks but the source reads ");
                put_number(&mut s, *block_size as u64);
                put(&mut s, "-byte blocks");
            },
        }
        assert(s@ =~= self.line(cause@));
        s
    }
}

/// The pointer to block `k` of a chain that runs through `lbas`: its address,
/// or the chain terminator past the last.
pub open spec fn pointer_to(lbas: Seq<u64>, k: int) -> u32 {
    if 0 <= k < lbas.len() {
        lbas[k] as u32
    } else {
        CHAIN_END
    }
}

/// A block that a chain of `id` blocks may go through.
pub open spec fn good_block(b: Seq<u8>, id: u32) -> bool {
    bytes::long_at(b, hdr::ID as int) == id && checksum::checksum_holds(b)
}

/// The `Next` pointer of a chained block.
pub open spec fn next_of(b: Seq<u8>) -> u32 {
    bytes::long_at(b, chain::NEXT as int)
}

/// Following the chain of `id` blocks from `head` leads through exactly
/// `lbas`, each a distinct, good block of the medium, and then to `tail`.
#[verifier::opaque]
pub open spec fn is_walk(m: Medium, head: u32, id: u32, lbas: Seq<u64>, tail: u32) -> bool {
    &&& lbas.len() <= MAX_CHAIN_BLOCKS
    &&& lbas.no_duplicates()
    &&& forall|k: int|
        0 <= k < lbas.len() ==> {
            &&& (#[trigger] lbas[k]) < CHAIN_END
            &&& m.has(lbas[k])
            &&& good_block(m.blocks[lbas[k]], id)
        }
    &&& head == if lbas.len() == 0 {
        tail
    } else {
        lbas[0] as u32
    }
    &&& forall|k: int|
        0 <= k < lbas.len() ==> next_of(m.blocks[#[trigger] lbas[k]]) == if k == lbas.len() - 1 {
            tail
        } else {
            lbas[k + 1] as u32
        }
}

/// The chain of `id` blocks that starts at `head` is whole: it runs through
/// `lbas` and ends.
pub open spec fn is_chain(m: Medium, head: u32, id: u32, lbas: Seq<u64>) -> bool {
    is_walk(m, head, id, lbas, CHAIN_END)
}

/// A walk that has gone through `lbas` and points at `tail` next stops there
/// with `e`. The pointer is checked against the disk's end, then for a cycle,
/// then against the length limit; then the block is read; then its ID and its
/// checksum are checked.
pub open spec fn stops_with<S: BlockSource>(
    disk: S,
    id: u32,
    lbas: Seq<u64>,
    tail: u32,
    e: RdbError<S::Error>,
) -> bool {
    let m = disk.medium();
    let lba = tail as u64;
    let reached = m.has(lba) && !lbas.contains(lba) && lbas.len() < MAX_CHAIN_BLOCKS;
    &&& tail != CHAIN_END
    &&& match e {
        RdbError::ChainOutOfRange { lba: l } => l == lba && !m.has(lba),
        RdbError::ChainCycle { lba: l } => l == lba && m.has(lba) && lbas.contains(lba),
        RdbError::ChainTooLong { limit } => limit == MAX_CHAIN_BLOCKS && m.has(lba)
            && !lbas.contains(lba) && lbas.len() == MAX_CHAIN_BLOCKS,
        RdbError::Io(x) => reached && disk.read_fails(lba, x),
        RdbError::WrongId { lba: l, expected, found } => reached && l == lba && expected == id
            && found == bytes::long_at(m.blocks[lba], hdr::ID as int) && found != id,
        RdbError::BadChecksum { lba: l } => reached && l == lba && bytes::long_at(
            m.blocks[lba],
            hdr::ID as int,
        ) == id && !checksum::checksum_holds(m.blocks[lba]),
        _ => false,
    }
}

/// The chain of `id` blocks from `head` breaks off with `e`: a walk along good
/// blocks comes to a pointer at which it stops.
pub open spec fn chain_breaks<S: BlockSource>(
    disk: S,
    head: u32,
    id: u32,
    e: RdbError<S::Error>,
) -> bool {
    exists|lbas: Seq<u64>, tail: u32|
        #[trigger] is_walk(disk.medium(), head, id, lbas, tail) && stops_with(
            disk,
            id,
            lbas,
            tail,
            e,
        )
}

/// A walk that has not started.
pub proof fn lemma_walk_starts(m: Medium, head: u32, id: u32)
    ensures
        is_walk(m, head, id, Seq::empty(), head),
{
    reveal(is_walk);
}

/// A read of block `lba` does not fail.
pub open spec fn reads_at<S: BlockSource>(disk: S, lba: u64) -> bool {
    forall|e: S::Error| !#[trigger] disk.read_fails(lba, e)
}

/// No read of one of the blocks `lbas` fails.
pub open spec fn reads_all<S: BlockSource>(disk: S, lbas: Seq<u64>) -> bool {
    forall|k: int| 0 <= k < lbas.len() ==> reads_at(disk, #[trigger] lbas[k])
}

/// Reads fail past the end of the disk, if at all.
pub open spec fn reads_inside<S: BlockSource>(disk: S) -> bool {
    forall|lba: u64| #[trigger] disk.medium().has(lba) ==> reads_at(disk, lba)
}

/// Two walks from one head go through the same blocks as far as both go.
proof fn lemma_walks_agree(
    m: Medium,
    head: u32,
    id: u32,
    a: Seq<u64>,
    a_tail: u32,
    b: Seq<u64>,
    b_tail: u32,
    k: int,
)
    requires
        is_walk(m, head, id, a, a_tail),
        is_walk(m, head, id, b, b_tail),
        0 <= k < a.len(),
        k < b.len(),
    ensures
        a[k] == b[k],
    decreases k,
{
    reveal(is_walk);
    if k > 0 {
        lemma_walks_agree(m, head, id, a, a_tail, b, b_tail, k - 1);
        assert(next_of(m.blocks[a[k - 1]]) == a[k] as u32);
        assert(next_of(m.blocks[b[k - 1]]) == b[k] as u32);
    }
    assert(a[k] < CHAIN_END && b[k] < CHAIN_END);
}

/// A whole chain is unique: a disk does not leave open which blocks a chain
/// runs through.
pub proof fn law_chain_is_unique(m: Medium, head: u32, id: u32, a: Seq<u64>, b: Seq<u64>)
    requires
        is_chain(m, head, id, a),
        is_chain(m, head, id, b),
    ensures
        a == b,
{
    lemma_chain_has_ended(m, head, id, a, b, CHAIN_END);
    lemma_chain_has_ended(m, head, id, b, a, CHAIN_END);
    assert forall|k: int| 0 <= k < a.len() implies a[k] == b[k] by {
        lemma_walks_agree(m, head, id, a, CHAIN_END, b, CHAIN_END, k);
    }
    assert(a =~= b);
}

/// A chain stays whole on a medium whose blocks, as far as the chain goes
/// through them, are good and lead where they led.
pub proof fn law_chain_depends_on_its_pointers(
    m: Medium,
    s: Medium,
    head: u32,
    id: u32,
    lbas: Seq<u64>,
)
    requires
        is_chain(m, head, id, lbas),
        s.block_count == m.block_count,
        forall|k: int|
            0 <= k < lbas.len() ==> {
                let b = s.blocks[#[trigger] lbas[k]];
                good_block(b, id) && next_of(b) == next_of(m.blocks[lbas[k]])
            },
    ensures
        is_chain(s, head, id, lbas),
{
    reveal(is_walk);
}

/// A chain that has ended does not go on.
proof fn lemma_chain_has_ended(
    m: Medium,
    head: u32,
    id: u32,
    a: Seq<u64>,
    b: Seq<u64>,
    b_tail: u32,
)
    requires
        is_chain(m, head, id, a),
        is_walk(m, head, id, b, b_tail),
    ensures
        b.len() <= a.len(),
{
    reveal(is_walk);
    if a.len() < b.len() {
        let n = a.len() as int;
        assert(b[n] < CHAIN_END);
        if n > 0 {
            lemma_walks_agree(m, head, id, a, CHAIN_END, b, b_tail, n - 1);
            assert(next_of(m.blocks[a[n - 1]]) == CHAIN_END);
            assert(next_of(m.blocks[b[n - 1]]) == b[n] as u32);
        }
    }
}

/// A disk whose reads fail past its end alone can read every block of a whole
/// chain.
pub proof fn law_chains_lie_inside<S: BlockSource>(disk: S, head: u32, id: u32, lbas: Seq<u64>)
    requires
        reads_inside(disk),
        is_chain(disk.medium(), head, id, lbas),
    ensures
        reads_all(disk, lbas),
{
    reveal(is_walk);
    assert forall|k: int| 0 <= k < lbas.len() implies reads_at(disk, #[trigger] lbas[k]) by {
        assert(disk.medium().has(lbas[k]));
    }
}

/// A whole chain does not break off, unless a read on it fails.
pub proof fn law_whole_chain_breaks_only_on_a_failed_read<S: BlockSource>(
    disk: S,
    head: u32,
    id: u32,
    lbas: Seq<u64>,
    e: RdbError<S::Error>,
)
    requires
        is_chain(disk.medium(), head, id, lbas),
        chain_breaks(disk, head, id, e),
    ensures
        e matches RdbError::Io(x) && exists|k: int|
            0 <= k < lbas.len() && disk.read_fails(#[trigger] lbas[k], x),
{
    reveal(is_walk);
    let m = disk.medium();
    let (w, tail) = choose|w: Seq<u64>, tail: u32| #[trigger]
        is_walk(m, head, id, w, tail) && stops_with(disk, id, w, tail, e);
    lemma_chain_has_ended(m, head, id, lbas, w, tail);
    let n = w.len() as int;
    if n == lbas.len() {
        if n > 0 {
            lemma_walks_agree(m, head, id, lbas, CHAIN_END, w, tail, n - 1);
            assert(next_of(m.blocks[lbas[n - 1]]) == CHAIN_END);
            assert(next_of(m.blocks[w[n - 1]]) == tail);
        }
        assert(false);
    }
    if n > 0 {
        lemma_walks_agree(m, head, id, lbas, CHAIN_END, w, tail, n - 1);
        assert(next_of(m.blocks[lbas[n - 1]]) == lbas[n] as u32);
        assert(next_of(m.blocks[w[n - 1]]) == tail);
    }
    assert(lbas[n] < CHAIN_END);
    assert(lbas[n] == tail as u64);
    assert(!w.contains(tail as u64)) by {
        if w.contains(tail as u64) {
            let j = choose|j: int| 0 <= j < w.len() && w[j] == tail as u64;
            lemma_walks_agree(m, head, id, lbas, CHAIN_END, w, tail, j);
            assert(lbas[j] == lbas[n]);
        }
    }
    assert(good_block(m.blocks[lbas[n]], id));
}

/// A walk along one chain, a block at a time.
pub struct ChainWalk {
    next: u32,
    visited: BTreeSet<u32>,
    lbas: Ghost<Seq<u64>>,
}

impl ChainWalk {
    /// The blocks the walk has gone through.
    pub closed spec fn trail(&self) -> Seq<u64> {
        self.lbas@
    }

    /// Where it points next.
    pub closed spec fn tail(&self) -> u32 {
        self.next
    }

    /// The visited set is the trail.
    pub closed spec fn inv(&self) -> bool {
        &&& self.visited@.len() == self.lbas@.len()
        &&& self.visited@.finite()
        &&& forall|v: u32| #[trigger]
            self.visited@.contains(v) <==> self.lbas@.contains(v as u64)
    }

    /// A walk about to start at `head`.
    pub fn start(head: u32) -> (w: Self)
        ensures
            w.inv(),
            w.trail() == Seq::<u64>::empty(),
            w.tail() == head,
    {
        let visited: BTreeSet<u32> = BTreeSet::new();
        ChainWalk { next: head, visited, lbas: Ghost(Seq::empty()) }
    }

    /// Read and check the next block of the chain into `buf`. `None` when the
    /// chain has ended.
    pub fn advance<S: BlockSource>(&mut self, disk: &mut S, expected: u32, buf: &mut [u8]) -> (r:
        Result<Option<u64>, RdbError<S::Error>>)
        requires
            old(self).inv(),
            old(buf)@.len() == old(disk).medium().block_size,
            old(self).tail() != CHAIN_END ==> old(buf)@.len() >= 20,
        ensures
            final(self).inv(),
            final(disk).medium() == old(disk).medium(),
            forall|l: u64, e: S::Error|
                #[trigger] final(disk).read_fails(l, e) == old(disk).read_fails(l, e),
            final(buf)@.len() == old(buf)@.len(),
            forall|head: u32| #[trigger]
                is_walk(old(disk).medium(), head, expected, old(self).trail(), old(self).tail())
                    ==> match r {
                    Ok(Some(lba)) => {
                        &&& final(self).trail() == old(self).trail().push(lba)
                        &&& is_walk(
                            old(disk).medium(),
                            head,
                            expected,
                            final(self).trail(),
                            final(self).tail(),
                        )
                        &&& final(buf)@ == old(disk).medium().blocks[lba]
                    },
                    Ok(None) => {
                        &&& old(self).tail() == CHAIN_END
                        &&& final(self).trail() == old(self).trail()
                    },
                    Err(e) => stops_with(
                        *old(disk),
                        expected,
                        old(self).trail(),
                        old(self).tail(),
                        e,
                    ),
                },
            r matches Ok(Some(lba)) ==> old(self).tail() != CHAIN_END && lba == old(self).tail(),
            r is Ok && r->Ok_0 is Some ==> final(self).trail().len() == old(self).trail().len() + 1
                && final(self).trail().len() <= MAX_CHAIN_BLOCKS,
    {
        if self.next == CHAIN_END {
            return Ok(None);
        }
        let lba: u64 = self.next as u64;
        if let Some(n) = disk.block_count() {
            if lba >= n {
                return Err(RdbError::ChainOutOfRange { lba });
            }
        }
        let next: u32 = self.next;
        let ghost trail = self.lbas@;
        let fresh: bool = self.visited.insert(next);
        if !fresh {
            assert(trail.contains(next as u64));
            return Err(RdbError::ChainCycle { lba });
        }
        proof {
            assert(!trail.contains(lba));
            self.lbas@ = trail.push(lba);
            assert forall|v: u32| #[trigger] self.visited@.contains(v) <==> self.lbas@.contains(
                v as u64,
            ) by {
                if v == next {
                    assert(self.lbas@[trail.len() as int] == v as u64);
                }
                if trail.contains(v as u64) {
                    let j = choose|j: int| 0 <= j < trail.len() && trail[j] == v as u64;
                    assert(self.lbas@[j] == v as u64);
                }
            }
        }
        if self.visited.len() > MAX_CHAIN_BLOCKS {
            reveal(is_walk);
            return Err(RdbError::ChainTooLong { limit: MAX_CHAIN_BLOCKS });
        }
        match disk.read_block(lba, buf) {
            Ok(()) => {},
            Err(e) => {
                return Err(RdbError::Io(e));
            },
        }
        let found: u32 = be32(buf, hdr::ID);
        if found != expected {
            return Err(RdbError::WrongId { lba, expected, found });
        }
        if !checksum_ok(buf) {
            return Err(RdbError::BadChecksum { lba });
        }
        self.next = be32(buf, chain::NEXT);
        proof {
            let m = old(disk).medium();
            assert forall|head: u32| #[trigger]
                is_walk(m, head, expected, trail, next) implies is_walk(
                m,
                head,
                expected,
                self.lbas@,
                self.next,
            ) by {
                reveal(is_walk);
                let l = self.lbas@;
                assert forall|k: int| 0 <= k < l.len() implies next_of(m.blocks[#[trigger] l[k]])
                    == (if k == l.len() - 1 {
                    self.next
                } else {
                    l[k + 1] as u32
                }) by {
                    if k < trail.len() {
                        assert(l[k] == trail[k]);
                    }
                }
            }
        }
        Ok(Some(lba))
    }
}

/// Walk one RDB block chain, verifying every block, and give the blocks it
/// runs through. `buf` is the caller's scratch block.
pub fn walk_chain<S: BlockSource>(disk: &mut S, head: u32, expected: u32, buf: &mut [u8]) -> (r:
    Result<Vec<u64>, RdbError<S::Error>>)
    requires
        old(buf)@.len() == old(disk).medium().block_size,
        head != CHAIN_END ==> old(buf)@.len() >= 20,
    ensures
        final(disk).medium() == old(disk).medium(),
        forall|l: u64, e: S::Error|
            #[trigger] final(disk).read_fails(l, e) == old(disk).read_fails(l, e),
        final(buf)@.len() == old(buf)@.len(),
        match r {
            Ok(lbas) => is_chain(old(disk).medium(), head, expected, lbas@),
            Err(e) => chain_breaks(*old(disk), head, expected, e),
        },
{
    let mut lbas: Vec<u64> = Vec::new();
    let mut walk = ChainWalk::start(head);
    let ghost m = disk.medium();
    proof {
        lemma_walk_starts(m, head, expected);
    }
    loop
        invariant
            walk.inv(),
            disk.medium() == m,
            m == old(disk).medium(),
            forall|l: u64, e: S::Error|
                #[trigger] disk.read_fails(l, e) == old(disk).read_fails(l, e),
            buf@.len() == m.block_size,
            buf@.len() == old(buf)@.len(),
            walk.tail() != CHAIN_END ==> buf@.len() >= 20,
            lbas@ == walk.trail(),
            is_walk(m, head, expected, walk.trail(), walk.tail()),
        decreases MAX_CHAIN_BLOCKS - walk.trail().len(),
    {
        let ghost before = walk;
        match walk.advance(disk, expected, buf) {
            Ok(Some(lba)) => {
                lbas.push(lba);
            },
            Ok(None) => {
                return Ok(lbas);
            },
            Err(e) => {
                proof {
                    assert(is_walk(m, head, expected, before.trail(), before.tail()));
                    assert(stops_with(*old(disk), expected, before.trail(), before.tail(), e));
                }
                return Err(e);
            },
        }
    }
}

} // verus!
