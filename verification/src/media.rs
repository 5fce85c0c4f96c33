//! Block media: where a partition table is read from and written to.
use vstd::prelude::*;

use crate::bytes;
use crate::bytes::block_size_ok;

verus! {

/// What a block device holds, as the contracts speak of it.
#[verifier::ext_equal]
pub struct Medium {
    /// Bytes per device block.
    pub block_size: usize,
    /// Total number of blocks, where the device says.
    pub block_count: Option<u64>,
    /// The blocks, by address.
    pub blocks: Map<u64, Seq<u8>>,
}

impl Medium {
    /// Block `lba` is not past an end the device declares.
    pub open spec fn has(self, lba: u64) -> bool {
        match self.block_count {
            Some(n) => lba < n,
            None => true,
        }
    }

    /// The medium after `bytes` was written to block `lba`.
    pub open spec fn written(self, lba: u64, bytes: Seq<u8>) -> Medium {
        Medium { blocks: self.blocks.insert(lba, bytes), ..self }
    }
}

/// One block on its way to a medium: its address and its bytes.
pub type BlockWrite = (u64, Seq<u8>);

/// The medium after `writes` were made, in order.
pub open spec fn after_writes(m: Medium, writes: Seq<BlockWrite>) -> Medium
    decreases writes.len(),
{
    if writes.len() == 0 {
        m
    } else {
        after_writes(m, writes.drop_last()).written(writes.last().0, writes.last().1)
    }
}

/// Two media that agree on everything but, perhaps, block `lba`.
pub open spec fn agree_except(a: Medium, b: Medium, lba: u64) -> bool {
    &&& a.block_size == b.block_size
    &&& a.block_count == b.block_count
    &&& a.blocks.remove(lba) == b.blocks.remove(lba)
}

/// One more write at the end.
pub proof fn lemma_after_writes_push(m: Medium, writes: Seq<BlockWrite>, w: BlockWrite)
    ensures
        after_writes(m, writes.push(w)) == after_writes(m, writes).written(w.0, w.1),
{
    assert(writes.push(w).drop_last() =~= writes);
}

/// Writing never changes the block size or the declared block count, and a
/// block that no write addresses keeps its contents.
pub proof fn lemma_after_writes_frame(m: Medium, writes: Seq<BlockWrite>)
    ensures
        after_writes(m, writes).block_size == m.block_size,
        after_writes(m, writes).block_count == m.block_count,
        forall|lba: u64|
            (forall|k: int| 0 <= k < writes.len() ==> (#[trigger] writes[k]).0 != lba)
                ==> #[trigger] after_writes(m, writes).blocks[lba] == m.blocks[lba],
    decreases writes.len(),
{
    if writes.len() > 0 {
        let head = writes.drop_last();
        lemma_after_writes_frame(m, head);
        assert forall|lba: u64|
            (forall|k: int| 0 <= k < writes.len() ==> (#[trigger] writes[k]).0
                != lba) implies #[trigger] after_writes(m, writes).blocks[lba]
            == m.blocks[lba] by {
            assert(writes[writes.len() - 1].0 != lba);
            assert forall|k: int| 0 <= k < head.len() implies (#[trigger] head[k]).0 != lba by {
                assert(writes[k].0 != lba);
            }
        }
    }
}

/// A block written by write `k` and by no later one holds what write `k` put
/// there.
pub proof fn lemma_after_writes_block(m: Medium, writes: Seq<BlockWrite>, k: int)
    requires
        0 <= k < writes.len(),
        forall|j: int| k < j < writes.len() ==> (#[trigger] writes[j]).0 != writes[k].0,
    ensures
        after_writes(m, writes).blocks[writes[k].0] == writes[k].1,
    decreases writes.len(),
{
    if k < writes.len() - 1 {
        let head = writes.drop_last();
        assert forall|j: int| k < j < head.len() implies (#[trigger] head[j]).0 != head[k].0 by {
            assert(writes[j].0 != writes[k].0);
        }
        lemma_after_writes_block(m, head, k);
        assert(writes[writes.len() - 1].0 != writes[k].0);
    }
}

/// A block of a medium that was written holds what it held before, or what one
/// of the writes put there.
pub proof fn lemma_after_writes_either(m: Medium, writes: Seq<BlockWrite>, lba: u64)
    ensures
        after_writes(m, writes).blocks[lba] == m.blocks[lba] || exists|k: int|
            0 <= k < writes.len() && (#[trigger] writes[k]).0 == lba && writes[k].1
                == after_writes(m, writes).blocks[lba],
    decreases writes.len(),
{
    if writes.len() > 0 {
        let head = writes.drop_last();
        let last = writes.len() - 1;
        lemma_after_writes_either(m, head, lba);
        if writes[last].0 == lba {
            assert(writes[last].1 == after_writes(m, writes).blocks[lba]);
        } else if after_writes(m, head).blocks[lba] != m.blocks[lba] {
            let k = choose|k: int|
                0 <= k < head.len() && (#[trigger] head[k]).0 == lba && head[k].1 == after_writes(
                    m,
                    head,
                ).blocks[lba];
            assert(writes[k] == head[k]);
        }
    }
}

/// Anything that can produce fixed-size blocks by LBA.
///
/// The one seam between this library and the world on the read side. The
/// block size is a runtime property of the source; supported sizes are powers
/// of two in `MIN_BLOCK_SIZE..=MAX_BLOCK_SIZE`.
pub trait BlockSource {
    /// How this source reports a failed read.
    type Error;

    /// What the device holds. Reading does not change it.
    open spec fn medium(&self) -> Medium {
        arbitrary()
    }

    /// Whether a read of block `lba` may fail with `e`.
    open spec fn read_fails(&self, lba: u64, e: Self::Error) -> bool {
        arbitrary()
    }

    /// Bytes per device block.
    fn block_size(&self) -> (size: usize)
        ensures
            size == self.medium().block_size,
    ;

    /// Read block `lba` into `buf`, whose length is exactly the block size.
    fn read_block(&mut self, lba: u64, buf: &mut [u8]) -> (r: Result<(), Self::Error>)
        requires
            old(buf)@.len() == old(self).medium().block_size,
        ensures
            final(self).medium() == old(self).medium(),
            forall|l: u64, e: Self::Error|
                #[trigger] final(self).read_fails(l, e) == old(self).read_fails(l, e),
            final(buf)@.len() == old(buf)@.len(),
            match r {
                Ok(_) => final(buf)@ == old(self).medium().blocks[lba],
                Err(e) => old(self).read_fails(lba, e),
            },
    ;

    /// Total number of blocks, if known.
    fn block_count(&self) -> (count: Option<u64>)
        ensures
            count == self.medium().block_count,
    ;
}

/// Anything that can accept fixed-size blocks by LBA: the write seam.
pub trait BlockSink {
    /// How this sink reports a failed write.
    type Error;

    /// What the device holds.
    open spec fn target(&self) -> Medium {
        arbitrary()
    }

    /// Whether a write of block `lba` may fail with `e`.
    open spec fn write_fails(&self, lba: u64, e: Self::Error) -> bool {
        arbitrary()
    }

    /// Bytes per device block.
    fn block_size(&self) -> (size: usize)
        ensures
            size == self.target().block_size,
    ;

    /// Write `buf` to block `lba`. `buf`'s length is exactly the block size. A
    /// write that fails leaves every other block alone.
    fn write_block(&mut self, lba: u64, buf: &[u8]) -> (r: Result<(), Self::Error>)
        requires
            buf@.len() == old(self).target().block_size,
        ensures
            forall|l: u64, e: Self::Error|
                #[trigger] final(self).write_fails(l, e) == old(self).write_fails(l, e),
            match r {
                Ok(_) => final(self).target() == old(self).target().written(lba, buf@),
                Err(e) => old(self).write_fails(lba, e) && agree_except(
                    old(self).target(),
                    final(self).target(),
                    lba,
                ),
            },
    ;

    /// Total number of blocks, if known.
    fn block_count(&self) -> (count: Option<u64>)
        ensures
            count == self.target().block_count,
    ;
}

/// `lba * block_size`, or `None` where the product leaves the byte address
/// space.
pub fn byte_offset(lba: u64, block_size: usize) -> (r: Option<u64>)
    ensures
        r == if lba * block_size <= u64::MAX {
            Some((lba * block_size) as u64)
        } else {
            None
        },
{
    lba.checked_mul(block_size as u64)
}

/// How many whole blocks a stream of `len` bytes has; a fragment at its end is
/// no block. `None` where the block size is not supported.
pub fn whole_blocks(len: u64, block_size: usize) -> (r: Option<u64>)
    ensures
        r == if bytes::supported_block_size(block_size as int) {
            Some((len / block_size as u64) as u64)
        } else {
            None
        },
{
    if !block_size_ok(block_size) {
        return None;
    }
    Some(len / block_size as u64)
}

/// A write of block `lba` does not fail.
pub open spec fn writes_at<S: BlockSink>(sink: S, lba: u64) -> bool {
    forall|e: S::Error| !#[trigger] sink.write_fails(lba, e)
}

/// No write of one of the blocks `lbas` fails.
pub open spec fn writes_all<S: BlockSink>(sink: S, lbas: Seq<u64>) -> bool {
    forall|k: int| 0 <= k < lbas.len() ==> writes_at(sink, #[trigger] lbas[k])
}

/// Writes fail past the end of the device, if at all.
pub open spec fn writes_inside<S: BlockSink>(sink: S) -> bool {
    forall|lba: u64| #[trigger] sink.target().has(lba) ==> writes_at(sink, lba)
}

/// Of `writes`, begun on `start`, the first `k` have been made.
pub open spec fn written_so_far<S: BlockSink>(
    sink: S,
    start: S,
    writes: Seq<BlockWrite>,
    k: int,
) -> bool {
    &&& 0 <= k <= writes.len()
    &&& sink.target() == after_writes(start.target(), writes.take(k))
    &&& forall|l: u64, e: S::Error| #[trigger] sink.write_fails(l, e) == start.write_fails(l, e)
}

/// Of `writes`, begun on `start`, the first `k` have been made, and the next
/// one failed with `e`.
pub open spec fn broke_off_at<S: BlockSink>(
    sink: S,
    start: S,
    writes: Seq<BlockWrite>,
    e: S::Error,
    k: int,
) -> bool {
    &&& 0 <= k < writes.len()
    &&& start.write_fails(writes[k].0, e)
    &&& agree_except(
        after_writes(start.target(), writes.take(k)),
        sink.target(),
        writes[k].0,
    )
}

/// `writes`, begun on `start`, were made up to one that failed with `e`.
pub open spec fn broke_off<S: BlockSink>(
    sink: S,
    start: S,
    writes: Seq<BlockWrite>,
    e: S::Error,
) -> bool {
    exists|k: int| broke_off_at(sink, start, writes, e, k)
}

/// Make the next of a sequence of writes.
pub(crate) fn write_next<S: BlockSink>(
    sink: &mut S,
    lba: u64,
    buf: &[u8],
    start: Ghost<S>,
    writes: Ghost<Seq<BlockWrite>>,
    k: Ghost<int>,
) -> (r: Result<(), S::Error>)
    requires
        written_so_far(*old(sink), start@, writes@, k@),
        k@ < writes@.len(),
        writes@[k@] == (lba, buf@),
        buf@.len() == old(sink).target().block_size,
    ensures
        final(sink).target().block_size == old(sink).target().block_size,
        match r {
            Ok(_) => written_so_far(*final(sink), start@, writes@, k@ + 1),
            Err(e) => broke_off(*final(sink), start@, writes@, e),
        },
{
    match sink.write_block(lba, buf) {
        Ok(_) => {
            proof {
                lemma_after_writes_push(start@.target(), writes@.take(k@), (lba, buf@));
                assert(writes@.take(k@ + 1) =~= writes@.take(k@).push((lba, buf@)));
            }
            Ok(())
        },
        Err(e) => {
            assert(broke_off_at(*sink, start@, writes@, e, k@));
            Err(e)
        },
    }
}

} // verus!
