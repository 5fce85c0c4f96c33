//! Views of one partition as a block source or a block sink of its own.
use vstd::prelude::*;

use crate::media;
use crate::media::{BlockSink, BlockSource, Medium};
use crate::model::Partition;
use crate::text;
use crate::text::{put, put_number};
use crate::walk;

verus! {

/// Which blocks of a device a view shows: those of one partition.
pub struct Bounds {
    start_lba: u64,
    block_len: u64,
}

impl Bounds {
    /// First block on the device.
    pub closed spec fn start(&self) -> u64 {
        self.start_lba
    }

    /// Number of blocks.
    pub closed spec fn length(&self) -> u64 {
        self.block_len
    }

    /// The blocks of `partition`.
    fn of(partition: &Partition) -> (r: Self)
        ensures
            r.start() == partition.start_lba,
            r.length() == partition.block_len,
    {
        Bounds { start_lba: partition.start_lba, block_len: partition.block_len }
    }
}

/// A [`BlockSource`] view of one partition: LBA 0 here is
/// `partition.start_lba` on the parent, in the parent's device blocks.
pub struct PartitionSource<'a, S: BlockSource> {
    /// The device the partition lies on. What a view has written is on it
    /// when the view ends.
    pub parent: &'a mut S,
    /// The blocks of the parent that the view shows.
    pub bounds: Bounds,
}

/// Error from [`PartitionSource`] and [`PartitionSink`].
#[derive(Debug, Clone, PartialEq, Eq)]
pub enum PartitionSourceError<E> {
    /// The parent failed on the underlying transfer.
    Parent(E),
    /// An access past the partition's last block.
    OutOfRange {
        /// The partition-relative block asked for.
        lba: u64,
        /// How many blocks the partition has.
        len: u64,
    },
    /// The block is inside the partition but off the end of the parent.
    BeyondParent {
        /// The partition-relative block asked for.
        lba: u64,
        /// Where it lands on the parent.
        parent_lba: u64,
        /// How many blocks the parent says it has.
        block_count: u64,
    },
}

impl<E> PartitionSourceError<E> {
    /// The line [`message`](Self::message) gives.
    pub open spec fn line(self, cause: Seq<char>) -> Seq<char> {
        match self {
            PartitionSourceError::Parent(_) => "the parent device failed: "@ + cause,
            PartitionSourceError::OutOfRange { lba, len } => "block "@ + text::decimal(lba as int)
                + " is past the end of the partition, which has "@ + text::decimal(len as int)
                + " blocks"@,
            PartitionSourceError::BeyondParent { lba, parent_lba, block_count } => "block "@
                + text::decimal(lba as int) + " of the partition is block "@
                + text::decimal(parent_lba as int) + " of the device, which has only "@
                + text::decimal(block_count as int) + " blocks"@,
        }
    }

    /// One line a user can act on. `cause` is what the underlying error says, for a
    /// transfer that failed.
    pub fn message(&self, cause: &str) -> (s: String)
        ensures
            s@ == self.line(cause@),
    {
        let mut s: String = String::new();
        match self {
            PartitionSourceError::Parent(_) => {
                put(&mut s, "the parent device failed: ");
                put(&mut s, cause);
            },
            PartitionSourceError::OutOfRange { lba, len } => {
                put(&mut s, "block ");
                put_number(&mut s, *lba as u64);
                put(&mut s, " is past the end of the partition, which has ");
                put_number(&mut s, *len as u64);
                put(&mut s, " blocks");
            },
            PartitionSourceError::BeyondParent { lba, parent_lba, block_count } => {
                put(&mut s, "block ");
                put_number(&mut s, *lba as u64);
                put(&mut s, " of the partition is block ");
                put_number(&mut s, *parent_lba as u64);
                put(&mut s, " of the device, which has only ");
                put_number(&mut s, *block_count as u64);
                put(&mut s, " blocks");
            },
        }
        assert(s@ =~= self.line(cause@));
        s
    }
}

/// The part of `m` from block `start`, `len` blocks long, addressed from 0.
pub open spec fn window(m: Medium, start: u64, len: u64) -> Medium {
    Medium {
        block_size: m.block_size,
        block_count: Some(len),
        blocks: Map::new(
            |lba: u64| true,
            |lba: u64|
                if lba < len && start + lba <= u64::MAX {
                    m.blocks[(start + lba) as u64]
                } else {
                    Seq::empty()
                },
        ),
    }
}

/// Block `lba` of the window `start, len` of `m` exists: it lies inside the
/// window, inside the address space, and before any end that `m` declares.
pub open spec fn reachable(m: Medium, start: u64, len: u64, lba: u64) -> bool {
    lba < len && start + lba <= u64::MAX && m.has((start + lba) as u64)
}

/// What an access to block `lba` of the window `start, len` of `m` may fail
/// with: an access past the window or past the address space, past the end
/// that the parent declares, or whatever the parent fails with.
pub open spec fn window_fails<E>(
    m: Medium,
    start: u64,
    len: u64,
    parent_fails: spec_fn(u64, E) -> bool,
    lba: u64,
    e: PartitionSourceError<E>,
) -> bool {
    let inside = lba < len && start + lba <= u64::MAX;
    match e {
        PartitionSourceError::OutOfRange { lba: l, len: n } => !inside && l == lba && n == len,
        PartitionSourceError::BeyondParent { lba: l, parent_lba, block_count } => inside && l == lba
            && parent_lba == start + lba && m.block_count == Some(block_count) && parent_lba
            >= block_count,
        PartitionSourceError::Parent(p) => inside && m.has((start + lba) as u64) && parent_fails(
            (start + lba) as u64,
            p,
        ),
    }
}

impl<'a, S: BlockSource> PartitionSource<'a, S> {
    /// First block of the view on the parent.
    pub open spec fn start(&self) -> u64 {
        self.bounds.start()
    }

    /// Number of blocks in the view.
    pub open spec fn length(&self) -> u64 {
        self.bounds.length()
    }

    /// The parent as it stands.
    pub open spec fn parent_source(&self) -> S {
        *self.parent
    }

    /// View `partition` of `parent` as a [`BlockSource`] of its own, borrowing
    /// the parent for as long as the view lives.
    pub fn new(parent: &'a mut S, partition: &Partition) -> (view: Self)
        ensures
            view.start() == partition.start_lba,
            view.length() == partition.block_len,
            view.parent_source() == *old(parent),
            *final(view.parent) == *final(parent),
    {
        PartitionSource { parent, bounds: Bounds::of(partition) }
    }
}

impl<'a, S: BlockSource> BlockSource for PartitionSource<'a, S> {
    type Error = PartitionSourceError<S::Error>;

    open spec fn medium(&self) -> Medium {
        window(self.parent_source().medium(), self.start(), self.length())
    }

    open spec fn read_fails(&self, lba: u64, e: Self::Error) -> bool {
        window_fails(
            self.parent_source().medium(),
            self.start(),
            self.length(),
            |l: u64, p: S::Error| self.parent_source().read_fails(l, p),
            lba,
            e,
        )
    }

    fn block_size(&self) -> (size: usize) {
        self.parent.block_size()
    }

    fn read_block(&mut self, lba: u64, buf: &mut [u8]) -> (r: Result<(), Self::Error>)
        ensures
            *final(final(self).parent) == *final(old(self).parent),
            final(self).start() == old(self).start(),
            final(self).length() == old(self).length(),
            r is Ok ==> reachable(
                old(self).parent_source().medium(),
                old(self).start(),
                old(self).length(),
                lba,
            ),
            final(self).parent_source().medium() == old(self).parent_source().medium(),
            forall|l: u64, e: S::Error|
                #[trigger] final(self).parent_source().read_fails(l, e) == old(
                    self,
                ).parent_source().read_fails(l, e),
            match r {
                Err(PartitionSourceError::Parent(_)) => true,
                Err(_) => final(self).parent_source() == old(self).parent_source(),
                Ok(_) => true,
            },
    {
        if lba >= self.bounds.block_len || lba > u64::MAX - self.bounds.start_lba {
            return Err(PartitionSourceError::OutOfRange { lba, len: self.bounds.block_len });
        }
        let parent_lba: u64 = self.bounds.start_lba + lba;
        if let Some(block_count) = self.parent.block_count() {
            if parent_lba >= block_count {
                return Err(PartitionSourceError::BeyondParent { lba, parent_lba, block_count });
            }
        }
        match self.parent.read_block(parent_lba, buf) {
            Ok(()) => Ok(()),
            Err(e) => Err(PartitionSourceError::Parent(e)),
        }
    }

    fn block_count(&self) -> (count: Option<u64>) {
        Some(self.bounds.block_len)
    }
}

/// A write inside a window is a write to the parent, moved by the window's
/// start.
proof fn lemma_window_written(m: Medium, start: u64, len: u64, lba: u64, bytes: Seq<u8>)
    requires
        lba < len,
        start + lba <= u64::MAX,
    ensures
        window(m.written((start + lba) as u64, bytes), start, len) == window(
            m,
            start,
            len,
        ).written(lba, bytes),
{
    assert(window(m.written((start + lba) as u64, bytes), start, len).blocks =~= window(
        m,
        start,
        len,
    ).written(lba, bytes).blocks);
}

/// Parents that agree but for one block give windows that agree but for it.
proof fn lemma_window_agrees(a: Medium, b: Medium, start: u64, len: u64, lba: u64)
    requires
        lba < len,
        start + lba <= u64::MAX,
        media::agree_except(a, b, (start + lba) as u64),
    ensures
        media::agree_except(window(a, start, len), window(b, start, len), lba),
{
    let at = (start + lba) as u64;
    assert forall|l: u64| l != at implies a.blocks[l] == b.blocks[l] by {
        assert(a.blocks.remove(at)[l] == a.blocks[l]);
        assert(b.blocks.remove(at)[l] == b.blocks[l]);
    }
    assert(window(a, start, len).blocks.remove(lba) =~= window(b, start, len).blocks.remove(lba));
}

/// `PartitionSource` is a [`BlockSink`] too when its parent is.
impl<'a, S> BlockSink for PartitionSource<'a, S> where
    S: BlockSource + BlockSink<Error = <S as BlockSource>::Error>,
 {
    type Error = PartitionSourceError<<S as BlockSource>::Error>;

    open spec fn target(&self) -> Medium {
        window(self.parent_source().target(), self.start(), self.length())
    }

    open spec fn write_fails(&self, lba: u64, e: Self::Error) -> bool {
        window_fails(
            self.parent_source().target(),
            self.start(),
            self.length(),
            |l: u64, p: <S as BlockSource>::Error| self.parent_source().write_fails(l, p),
            lba,
            e,
        )
    }

    fn block_size(&self) -> (size: usize) {
        BlockSink::block_size(&*self.parent)
    }

    fn write_block(&mut self, lba: u64, buf: &[u8]) -> (r: Result<(), Self::Error>)
        ensures
            *final(final(self).parent) == *final(old(self).parent),
            final(self).start() == old(self).start(),
            final(self).length() == old(self).length(),
            r is Ok ==> reachable(
                old(self).parent_source().target(),
                old(self).start(),
                old(self).length(),
                lba,
            ),
            r is Ok ==> final(self).parent_source().target()
                == old(self).parent_source().target().written((old(self).start() + lba) as u64, buf@),
            forall|l: u64, e: <S as BlockSource>::Error|
                #[trigger] final(self).parent_source().write_fails(l, e) == old(
                    self,
                ).parent_source().write_fails(l, e),
            match r {
                Err(PartitionSourceError::Parent(_)) => media::agree_except(
                    old(self).parent_source().target(),
                    final(self).parent_source().target(),
                    (old(self).start() + lba) as u64,
                ),
                Err(_) => final(self).parent_source() == old(self).parent_source(),
                Ok(_) => true,
            },
    {
        if lba >= self.bounds.block_len || lba > u64::MAX - self.bounds.start_lba {
            return Err(PartitionSourceError::OutOfRange { lba, len: self.bounds.block_len });
        }
        let parent_lba: u64 = self.bounds.start_lba + lba;
        if let Some(block_count) = BlockSink::block_count(&*self.parent) {
            if parent_lba >= block_count {
                return Err(PartitionSourceError::BeyondParent { lba, parent_lba, block_count });
            }
        }
        let ghost before = self.parent.target();
        let r = self.parent.write_block(parent_lba, buf);
        proof {
            lemma_window_written(before, self.bounds.start_lba, self.bounds.block_len, lba, buf@);
            if r is Err {
                lemma_window_agrees(before, self.parent.target(), self.bounds.start_lba, self.bounds.block_len, lba);
            }
        }
        match r {
            Ok(()) => Ok(()),
            Err(e) => Err(PartitionSourceError::Parent(e)),
        }
    }

    fn block_count(&self) -> (count: Option<u64>) {
        Some(self.bounds.block_len)
    }
}

/// A [`BlockSink`] view of one partition: the write-side mirror of
/// [`PartitionSource`].
pub struct PartitionSink<'a, S: BlockSink> {
    /// The device the partition lies on. What a view has written is on it
    /// when the view ends.
    pub parent: &'a mut S,
    /// The blocks of the parent that the view shows.
    pub bounds: Bounds,
}

impl<'a, S: BlockSink> PartitionSink<'a, S> {
    /// First block of the view on the parent.
    pub open spec fn start(&self) -> u64 {
        self.bounds.start()
    }

    /// Number of blocks in the view.
    pub open spec fn length(&self) -> u64 {
        self.bounds.length()
    }

    /// The parent as it stands.
    pub open spec fn parent_sink(&self) -> S {
        *self.parent
    }

    /// View `partition` of `parent` as a [`BlockSink`] of its own, borrowing
    /// the parent for as long as the view lives.
    pub fn new(parent: &'a mut S, partition: &Partition) -> (view: Self)
        ensures
            view.start() == partition.start_lba,
            view.length() == partition.block_len,
            view.parent_sink() == *old(parent),
            *final(view.parent) == *final(parent),
    {
        PartitionSink { parent, bounds: Bounds::of(partition) }
    }
}

impl<'a, S: BlockSink> BlockSink for PartitionSink<'a, S> {
    type Error = PartitionSourceError<S::Error>;

    open spec fn target(&self) -> Medium {
        window(self.parent_sink().target(), self.start(), self.length())
    }

    open spec fn write_fails(&self, lba: u64, e: Self::Error) -> bool {
        window_fails(
            self.parent_sink().target(),
            self.start(),
            self.length(),
            |l: u64, p: S::Error| self.parent_sink().write_fails(l, p),
            lba,
            e,
        )
    }

    fn block_size(&self) -> (size: usize) {
        self.parent.block_size()
    }

    fn write_block(&mut self, lba: u64, buf: &[u8]) -> (r: Result<(), Self::Error>)
        ensures
            *final(final(self).parent) == *final(old(self).parent),
            final(self).start() == old(self).start(),
            final(self).length() == old(self).length(),
            r is Ok ==> reachable(
                old(self).parent_sink().target(),
                old(self).start(),
                old(self).length(),
                lba,
            ),
            r is Ok ==> final(self).parent_sink().target()
                == old(self).parent_sink().target().written((old(self).start() + lba) as u64, buf@),
            forall|l: u64, e: S::Error|
                #[trigger] final(self).parent_sink().write_fails(l, e) == old(
                    self,
                ).parent_sink().write_fails(l, e),
            match r {
                Err(PartitionSourceError::Parent(_)) => media::agree_except(
                    old(self).parent_sink().target(),
                    final(self).parent_sink().target(),
                    (old(self).start() + lba) as u64,
                ),
                Err(_) => final(self).parent_sink() == old(self).parent_sink(),
                Ok(_) => true,
            },
    {
        if lba >= self.bounds.block_len || lba > u64::MAX - self.bounds.start_lba {
            return Err(PartitionSourceError::OutOfRange { lba, len: self.bounds.block_len });
        }
        let parent_lba: u64 = self.bounds.start_lba + lba;
        if let Some(block_count) = self.parent.block_count() {
            if parent_lba >= block_count {
                return Err(PartitionSourceError::BeyondParent { lba, parent_lba, block_count });
            }
        }
        let ghost before = self.parent.target();
        let r = self.parent.write_block(parent_lba, buf);
        proof {
            lemma_window_written(before, self.bounds.start_lba, self.bounds.block_len, lba, buf@);
            if r is Err {
                lemma_window_agrees(before, self.parent.target(), self.bounds.start_lba, self.bounds.block_len, lba);
            }
        }
        match r {
            Ok(()) => Ok(()),
            Err(e) => Err(PartitionSourceError::Parent(e)),
        }
    }

    fn block_count(&self) -> (count: Option<u64>) {
        Some(self.bounds.block_len)
    }
}

/// What is written at a partition-relative address is what is read back at
/// the same address, and nothing of a partition that shares no block with this
/// one changes.
pub proof fn law_partition_write_reads_back(
    m: Medium,
    start: u64,
    len: u64,
    lba: u64,
    bytes: Seq<u8>,
    other_start: u64,
    other_len: u64,
)
    requires
        lba < len,
        start + lba <= u64::MAX,
    ensures
        window(m.written((start + lba) as u64, bytes), start, len).blocks[lba] == bytes,
        start + len <= other_start || other_start + other_len <= start ==> window(
            m.written((start + lba) as u64, bytes),
            other_start,
            other_len,
        ) == window(m, other_start, other_len),
{
    assert(start + len <= other_start || other_start + other_len <= start ==> window(
        m.written((start + lba) as u64, bytes),
        other_start,
        other_len,
    ).blocks =~= window(m, other_start, other_len).blocks);
}

/// A view of a partition that lies on its parent reads wherever the parent does:
/// where reads of the parent fail past its end alone, so do reads of the view.
pub proof fn law_view_reads_inside<'a, S: BlockSource>(view: PartitionSource<'a, S>)
    requires
        walk::reads_inside(view.parent_source()),
        view.start() + view.length() <= u64::MAX,
        view.parent_source().medium().block_count matches Some(n) ==> view.start() + view.length()
            <= n,
    ensures
        walk::reads_inside(view),
{
    let parent = view.parent_source();
    assert forall|lba: u64| #[trigger] view.medium().has(lba) implies walk::reads_at(
        view,
        lba,
    ) by {
        let at = (view.start() + lba) as u64;
        assert(parent.medium().has(at));
        assert(walk::reads_at(parent, at));
    }
}

/// The same of what is written through a view.
pub proof fn law_view_writes_inside<'a, S: BlockSink>(view: PartitionSink<'a, S>)
    requires
        media::writes_inside(view.parent_sink()),
        view.start() + view.length() <= u64::MAX,
        view.parent_sink().target().block_count matches Some(n) ==> view.start() + view.length()
            <= n,
    ensures
        media::writes_inside(view),
{
    let parent = view.parent_sink();
    assert forall|lba: u64| #[trigger] view.target().has(lba) implies media::writes_at(
        view,
        lba,
    ) by {
        let at = (view.start() + lba) as u64;
        assert(parent.target().has(at));
        assert(media::writes_at(parent, at));
    }
}

/// A view of a partition is the partition: as many blocks as it has, each the one
/// of the parent that lies as far past its first. A read of it fails only past
/// its end, past the end of the parent, or where a read of the parent does.
pub proof fn law_view_is_the_partition<'a, S: BlockSource>(view: PartitionSource<'a, S>, lba: u64)
    ensures
        ({
            let parent = view.parent_source().medium();
            let at = view.start() + lba;
            let inside = lba < view.length() && at <= 0xFFFF_FFFF_FFFF_FFFF;
            &&& view.medium().block_size == parent.block_size
            &&& view.medium().block_count == Some(view.length())
            &&& inside ==> view.medium().blocks[lba] == parent.blocks[at as u64]
            &&& forall|e: PartitionSourceError<S::Error>| #[trigger]
                view.read_fails(lba, e) ==> match e {
                    PartitionSourceError::OutOfRange { lba: l, len } => l == lba && len
                        == view.length() && !inside,
                    PartitionSourceError::BeyondParent { lba: l, parent_lba, block_count } => l
                        == lba && parent_lba == at && parent.block_count == Some(block_count)
                        && inside && at >= block_count,
                    PartitionSourceError::Parent(p) => inside && (parent.block_count matches Some(n)
                        ==> at < n) && view.parent_source().read_fails(at as u64, p),
                }
        }),
{
}

/// The same of a view that is written to, and a write of it fails for the same
/// reasons.
pub proof fn law_written_view_is_the_partition<'a, S: BlockSink>(
    view: PartitionSink<'a, S>,
    lba: u64,
)
    ensures
        ({
            let parent = view.parent_sink().target();
            let at = view.start() + lba;
            let inside = lba < view.length() && at <= 0xFFFF_FFFF_FFFF_FFFF;
            &&& view.target().block_size == parent.block_size
            &&& view.target().block_count == Some(view.length())
            &&& inside ==> view.target().blocks[lba] == parent.blocks[at as u64]
            &&& forall|e: PartitionSourceError<S::Error>| #[trigger]
                view.write_fails(lba, e) ==> match e {
                    PartitionSourceError::OutOfRange { lba: l, len } => l == lba && len
                        == view.length() && !inside,
                    PartitionSourceError::BeyondParent { lba: l, parent_lba, block_count } => l
                        == lba && parent_lba == at && parent.block_count == Some(block_count)
                        && inside && at >= block_count,
                    PartitionSourceError::Parent(p) => inside && (parent.block_count matches Some(n)
                        ==> at < n) && view.parent_sink().write_fails(at as u64, p),
                }
        }),
{
}

} // verus!
