//! Finding and parsing the RDB on a disk.
use vstd::prelude::*;

use crate::bytes::{be32, block_size_ok, CHAIN_END};
use crate::checksum::checksum_ok;
use crate::media::{BlockSource, Medium};
use crate::model::{
    parse_badb, parse_fshd, parse_part, parse_rdsk, BadBlockEntry, FileSysHeader, Partition, Rdb,
};
use crate::walk::{ChainWalk, RdbError, MAX_CHAIN_BLOCKS, RDB_LOCATION_LIMIT};
use crate::{bytes, hdr, id, lseg, model, rdsk, walk};

verus! {

/// How many blocks the scan for a `RDSK` block looks at.
pub open spec fn scan_end(m: Medium) -> u64 {
    match m.block_count {
        Some(n) => if n < RDB_LOCATION_LIMIT {
            n
        } else {
            RDB_LOCATION_LIMIT
        },
        None => RDB_LOCATION_LIMIT,
    }
}

/// Block `at` is the first of the scanned blocks that is a `RDSK` block whose
/// checksum holds.
pub open spec fn rdsk_found_at(m: Medium, at: u64) -> bool {
    &&& at < scan_end(m)
    &&& walk::good_block(m.blocks[at], id::RDSK)
    &&& forall|j: u64| j < at ==> !walk::good_block(#[trigger] m.blocks[j], id::RDSK)
}

/// The scan can end at block `k` without a `RDSK` block: it is past the
/// scanned blocks, or its read may fail.
pub open spec fn scan_ends_at<S: BlockSource>(disk: S, k: u64) -> bool {
    &&& k <= scan_end(disk.medium())
    &&& forall|j: u64| j < k ==> !walk::good_block(#[trigger] disk.medium().blocks[j], id::RDSK)
    &&& k == scan_end(disk.medium()) || exists|e: S::Error| #[trigger] disk.read_fails(k, e)
}

/// The scan can end without a `RDSK` block.
pub open spec fn scan_finds_nothing<S: BlockSource>(disk: S) -> bool {
    exists|k: u64| #[trigger] scan_ends_at(disk, k)
}

/// Where the `PART` blocks are.
pub open spec fn part_lbas(rdb: Rdb) -> Seq<u64> {
    Seq::new(rdb.partitions@.len(), |i: int| rdb.partitions@[i].part_block)
}

/// Where the `FSHD` blocks are.
pub open spec fn fshd_lbas(rdb: Rdb) -> Seq<u64> {
    Seq::new(rdb.filesystems@.len(), |i: int| rdb.filesystems@[i].fshd_block)
}

/// The partitions are what the `PART` chain from `head` says.
pub open spec fn partitions_read(m: Medium, head: u32, partitions: Seq<Partition>) -> bool {
    &&& walk::is_chain(
        m,
        head,
        id::PART,
        Seq::new(partitions.len(), |i: int| partitions[i].part_block),
    )
    &&& forall|i: int|
        0 <= i < partitions.len() ==> model::part_reads(
            #[trigger] partitions[i],
            m.blocks[partitions[i].part_block],
            partitions[i].part_block,
        )
}

/// The filesystems are what the `FSHD` chain from `head` says.
pub open spec fn filesystems_read(m: Medium, head: u32, filesystems: Seq<FileSysHeader>) -> bool {
    &&& walk::is_chain(
        m,
        head,
        id::FSHD,
        Seq::new(filesystems.len(), |i: int| filesystems[i].fshd_block),
    )
    &&& forall|i: int|
        0 <= i < filesystems.len() ==> model::fshd_reads(
            #[trigger] filesystems[i],
            m.blocks[filesystems[i].fshd_block],
            filesystems[i].fshd_block,
        )
}

/// The entries of the `BADB` blocks at `lbas`, one block after another.
pub open spec fn all_entries(m: Medium, lbas: Seq<u64>) -> Seq<BadBlockEntry>
    decreases lbas.len(),
{
    if lbas.len() == 0 {
        Seq::empty()
    } else {
        all_entries(m, lbas.drop_last()) + model::badb_entries(m.blocks[lbas.last()])
    }
}

/// `rdb` is what the RDB on `m` says.
pub open spec fn parses_as(m: Medium, rdb: Rdb) -> bool {
    let b = m.blocks[rdb.rdsk_block];
    &&& bytes::supported_block_size(m.block_size as int)
    &&& rdsk_found_at(m, rdb.rdsk_block)
    &&& model::rdsk_reads(rdb, b, rdb.rdsk_block)
    &&& rdb.block_bytes == m.block_size
    &&& partitions_read(m, bytes::long_at(b, rdsk::PARTITION_LIST as int), rdb.partitions@)
    &&& filesystems_read(m, rdb.filesys_header_list, rdb.filesystems@)
    &&& walk::is_chain(m, rdb.bad_block_list, id::BADB, rdb.badb_blocks@)
    &&& rdb.bad_blocks@ == all_entries(m, rdb.badb_blocks@)
}

/// A `RDSK` block at `at` heads the scan's result and declares the medium's
/// own block size.
pub open spec fn rdsk_usable_at(m: Medium, at: u64) -> bool {
    rdsk_found_at(m, at) && bytes::long_at(m.blocks[at], rdsk::BLOCK_BYTES as int) == m.block_size
}

/// The first of the three chains that a `RDSK` block heads to break off does
/// so with `e`.
pub open spec fn table_breaks<S: BlockSource>(disk: S, b: Seq<u8>, e: RdbError<S::Error>) -> bool {
    let m = disk.medium();
    let parts = bytes::long_at(b, rdsk::PARTITION_LIST as int);
    let fshds = bytes::long_at(b, rdsk::FILESYS_HEADER_LIST as int);
    let badbs = bytes::long_at(b, rdsk::BAD_BLOCK_LIST as int);
    let parts_whole = exists|l: Seq<u64>| #[trigger] walk::is_chain(m, parts, id::PART, l);
    let fshds_whole = exists|l: Seq<u64>| #[trigger] walk::is_chain(m, fshds, id::FSHD, l);
    ||| walk::chain_breaks(disk, parts, id::PART, e)
    ||| parts_whole && walk::chain_breaks(disk, fshds, id::FSHD, e)
    ||| parts_whole && fshds_whole && walk::chain_breaks(disk, badbs, id::BADB, e)
}

/// When a parse of `disk` gives the error `e`.
pub open spec fn parse_fails<S: BlockSource>(disk: S, e: RdbError<S::Error>) -> bool {
    let m = disk.medium();
    let supported = bytes::supported_block_size(m.block_size as int);
    match e {
        RdbError::UnsupportedBlockSize { block_size } => !supported && block_size == m.block_size,
        RdbError::NoRdsk => supported && scan_finds_nothing(disk),
        RdbError::BlockBytesMismatch { block_bytes, block_size } => supported && exists|at: u64|
            {
                &&& #[trigger] rdsk_found_at(m, at)
                &&& block_bytes == bytes::long_at(m.blocks[at], rdsk::BLOCK_BYTES as int)
                &&& block_bytes != m.block_size
                &&& block_size == m.block_size
            },
        _ => supported && exists|at: u64| #[trigger]
            rdsk_usable_at(m, at) && table_breaks(disk, m.blocks[at], e),
    }
}

/// What a parse of `disk` may give.
pub open spec fn parse_outcome<S: BlockSource>(disk: S, r: Result<Rdb, RdbError<S::Error>>) -> bool {
    match r {
        Ok(rdb) => parses_as(disk.medium(), rdb),
        Err(e) => parse_fails(disk, e),
    }
}

/// The payload of the `LSEG` blocks at `lbas`, one block after another.
pub open spec fn payload_of(m: Medium, lbas: Seq<u64>) -> Seq<u8>
    decreases lbas.len(),
{
    if lbas.len() == 0 {
        Seq::empty()
    } else {
        payload_of(m, lbas.drop_last()) + m.blocks[lbas.last()].subrange(
            lseg::LOAD_DATA as int,
            m.blocks[lbas.last()].len() as int,
        )
    }
}

/// The blocks at `lbas` have the size of a block.
pub open spec fn blocks_are_whole(m: Medium, lbas: Seq<u64>) -> bool {
    forall|k: int| 0 <= k < lbas.len() ==> m.blocks[#[trigger] lbas[k]].len() == m.block_size
}

/// What loading the driver of `fshd`, a filesystem of `rdb`, from `disk` may
/// give.
pub open spec fn load_outcome<S: BlockSource>(
    rdb: Rdb,
    fshd: FileSysHeader,
    disk: S,
    r: Result<Vec<u8>, RdbError<S::Error>>,
) -> bool {
    let m = disk.medium();
    match r {
        Ok(binary) => {
            &&& m.block_size == rdb.block_bytes
            &&& exists|lbas: Seq<u64>| #[trigger]
                walk::is_chain(m, fshd.seg_list_blocks, id::LSEG, lbas) && blocks_are_whole(m, lbas)
                    && binary@ == payload_of(m, lbas)
        },
        Err(RdbError::BlockBytesMismatch { block_bytes, block_size }) => {
            &&& m.block_size != rdb.block_bytes
            &&& block_bytes == rdb.block_bytes
            &&& block_size == m.block_size
        },
        Err(e) => {
            &&& m.block_size == rdb.block_bytes
            &&& walk::chain_breaks(disk, fshd.seg_list_blocks, id::LSEG, e)
        },
    }
}

/// Whole blocks carry the same amount each.
pub proof fn lemma_payload_len(m: Medium, lbas: Seq<u64>)
    requires
        blocks_are_whole(m, lbas),
        m.block_size >= lseg::LOAD_DATA,
    ensures
        payload_of(m, lbas).len() == lbas.len() * (m.block_size - lseg::LOAD_DATA),
    decreases lbas.len(),
{
    let each = m.block_size - lseg::LOAD_DATA;
    if lbas.len() > 0 {
        let rest = lbas.drop_last();
        assert forall|k: int| 0 <= k < rest.len() implies m.blocks[#[trigger] rest[k]].len()
            == m.block_size by {
            assert(rest[k] == lbas[k]);
        }
        lemma_payload_len(m, rest);
        assert(lbas.last() == lbas[lbas.len() - 1]);
        assert(lbas.len() * each == rest.len() * each + each) by (nonlinear_arith)
            requires
                lbas.len() == rest.len() + 1,
        ;
    } else {
        assert(0 * each == 0);
    }
}

/// What is loaded is the payload of whole blocks: its length is that of one
/// block's payload, once for every block of the chain.
pub proof fn law_loaded_driver_is_whole_blocks<S: BlockSource>(
    rdb: Rdb,
    fshd: FileSysHeader,
    disk: S,
    binary: Vec<u8>,
)
    requires
        load_outcome::<S>(rdb, fshd, disk, Ok(binary)),
        rdb.block_bytes >= lseg::LOAD_DATA,
    ensures
        exists|lbas: Seq<u64>| #[trigger]
            walk::is_chain(disk.medium(), fshd.seg_list_blocks, id::LSEG, lbas) && binary@.len()
                == lbas.len() * (rdb.block_bytes - lseg::LOAD_DATA),
{
    let m = disk.medium();
    let c = choose|c: Seq<u64>| #[trigger]
        walk::is_chain(m, fshd.seg_list_blocks, id::LSEG, c) && blocks_are_whole(m, c) && binary@
            == payload_of(m, c);
    lemma_payload_len(m, c);
    assert(walk::is_chain(m, fshd.seg_list_blocks, id::LSEG, c));
}

/// A driver whose chain is whole loads, unless a read of it fails: what comes back is
/// what the blocks of the chain carry.
pub proof fn law_whole_driver_loads<S: BlockSource>(
    rdb: Rdb,
    fshd: FileSysHeader,
    disk: S,
    lbas: Seq<u64>,
    r: Result<Vec<u8>, RdbError<S::Error>>,
)
    requires
        disk.medium().block_size == rdb.block_bytes,
        walk::is_chain(disk.medium(), fshd.seg_list_blocks, id::LSEG, lbas),
        walk::reads_all(disk, lbas),
        load_outcome(rdb, fshd, disk, r),
    ensures
        r matches Ok(binary) && binary@ == payload_of(disk.medium(), lbas),
{
    let m = disk.medium();
    match r {
        Ok(binary) => {
            let c = choose|c: Seq<u64>| #[trigger]
                walk::is_chain(m, fshd.seg_list_blocks, id::LSEG, c) && blocks_are_whole(m, c)
                    && binary@ == payload_of(m, c);
            walk::law_chain_is_unique(m, fshd.seg_list_blocks, id::LSEG, c, lbas);
        },
        Err(e) => {
            if !(e is BlockBytesMismatch) {
                walk::law_whole_chain_breaks_only_on_a_failed_read(
                    disk,
                    fshd.seg_list_blocks,
                    id::LSEG,
                    lbas,
                    e,
                );
            }
        },
    }
}

/// The scan for a `RDSK` block. On success `buf` holds the block.
fn find_rdsk<S: BlockSource>(disk: &mut S, buf: &mut [u8]) -> (r: Option<u64>)
    requires
        old(buf)@.len() == old(disk).medium().block_size,
        old(buf)@.len() >= 512,
    ensures
        final(disk).medium() == old(disk).medium(),
        forall|l: u64, e: S::Error|
            #[trigger] final(disk).read_fails(l, e) == old(disk).read_fails(l, e),
        final(buf)@.len() == old(buf)@.len(),
        match r {
            Some(at) => rdsk_found_at(old(disk).medium(), at) && final(buf)@
                == old(disk).medium().blocks[at],
            None => scan_finds_nothing(*old(disk)),
        },
{
    let end: u64 = match disk.block_count() {
        Some(n) => if n < RDB_LOCATION_LIMIT {
            n
        } else {
            RDB_LOCATION_LIMIT
        },
        None => RDB_LOCATION_LIMIT,
    };
    let mut lba: u64 = 0;
    while lba < end
        invariant
            lba <= end,
            end == scan_end(old(disk).medium()),
            disk.medium() == old(disk).medium(),
            forall|l: u64, e: S::Error|
                #[trigger] disk.read_fails(l, e) == old(disk).read_fails(l, e),
            buf@.len() == old(buf)@.len(),
            buf@.len() == disk.medium().block_size,
            buf@.len() >= 512,
            forall|j: u64|
                j < lba ==> !walk::good_block(#[trigger] old(disk).medium().blocks[j], id::RDSK),
        decreases end - lba,
    {
        match disk.read_block(lba, buf) {
            Ok(()) => {},
            Err(e) => {
                assert(old(disk).read_fails(lba, e));
                assert(scan_ends_at(*old(disk), lba));
                return None;
            },
        }
        if be32(buf, hdr::ID) == id::RDSK && checksum_ok(buf) {
            return Some(lba);
        }
        lba += 1;
    }
    assert(scan_ends_at(*old(disk), lba));
    None
}

impl Rdb {
    /// Find and parse the RDB on `disk`.
    ///
    /// Scans the first [`RDB_LOCATION_LIMIT`] blocks for a `RDSK` block whose
    /// checksum passes, then walks the `PART`, `FSHD` and `BADB` chains. A
    /// read that fails *during the scan* ends it rather than failing the
    /// parse.
    pub fn parse<S: BlockSource>(disk: &mut S) -> (r: Result<Self, RdbError<S::Error>>)
        ensures
            parse_outcome(*old(disk), r),
            final(disk).medium() == old(disk).medium(),
            forall|l: u64, e: S::Error|
                #[trigger] final(disk).read_fails(l, e) == old(disk).read_fails(l, e),
    {
        let block_size: usize = disk.block_size();
        if !block_size_ok(block_size) {
            return Err(RdbError::UnsupportedBlockSize { block_size });
        }
        let ghost m = disk.medium();
        let mut buf: Vec<u8> = vec![0u8; block_size];
        let at: u64 = match find_rdsk(disk, buf.as_mut_slice()) {
            Some(at) => at,
            None => {
                return Err(RdbError::NoRdsk);
            },
        };
        let block_bytes: u32 = be32(buf.as_slice(), rdsk::BLOCK_BYTES);
        if block_bytes as usize != block_size {
            return Err(RdbError::BlockBytesMismatch { block_bytes, block_size });
        }
        let mut rdb: Rdb = parse_rdsk(buf.as_slice(), at);
        let partition_list: u32 = be32(buf.as_slice(), rdsk::PARTITION_LIST);
        let ghost b = buf@;
        assert(rdsk_usable_at(m, at));

        let partitions = match read_partitions(disk, partition_list, buf.as_mut_slice()) {
            Ok(partitions) => partitions,
            Err(e) => {
                return Err(e);
            },
        };
        proof {
            assert(walk::is_chain(
                m,
                partition_list,
                id::PART,
                Seq::new(partitions@.len(), |i: int| partitions@[i].part_block),
            ));
        }
        let filesystems = match read_filesystems(
            disk,
            rdb.filesys_header_list,
            buf.as_mut_slice(),
        ) {
            Ok(filesystems) => filesystems,
            Err(e) => {
                return Err(e);
            },
        };
        proof {
            assert(walk::is_chain(
                m,
                rdb.filesys_header_list,
                id::FSHD,
                Seq::new(filesystems@.len(), |i: int| filesystems@[i].fshd_block),
            ));
        }
        let (bad_blocks, badb_blocks) = match read_bad_blocks(
            disk,
            rdb.bad_block_list,
            buf.as_mut_slice(),
        ) {
            Ok(lists) => lists,
            Err(e) => {
                return Err(e);
            },
        };
        rdb.partitions = partitions;
        rdb.filesystems = filesystems;
        rdb.bad_blocks = bad_blocks;
        rdb.badb_blocks = badb_blocks;
        Ok(rdb)
    }

    /// Reassemble one filesystem driver's binary from its `LSEG` chain.
    ///
    /// `LSEG` records no byte count, so each block contributes its whole
    /// payload area and the result is the binary followed by the slack of its
    /// last block. A header with no chain yields an empty result.
    pub fn load_filesystem<S: BlockSource>(&self, fshd: &FileSysHeader, disk: &mut S) -> (r: Result<
        Vec<u8>,
        RdbError<S::Error>,
    >)
        requires
            old(disk).medium().block_size == self.block_bytes && fshd.seg_list_blocks != CHAIN_END
                ==> self.block_bytes >= lseg::LOAD_DATA,
        ensures
            final(disk).medium() == old(disk).medium(),
            forall|l: u64, e: S::Error|
                #[trigger] final(disk).read_fails(l, e) == old(disk).read_fails(l, e),
            load_outcome(*self, *fshd, *old(disk), r),
    {
        let block_size: usize = disk.block_size();
        if block_size != self.block_bytes as usize {
            return Err(
                RdbError::BlockBytesMismatch { block_bytes: self.block_bytes, block_size },
            );
        }
        let mut buf: Vec<u8> = vec![0u8; block_size];
        let mut out: Vec<u8> = Vec::new();
        let mut chain = ChainWalk::start(fshd.seg_list_blocks);
        let ghost m = disk.medium();
        let ghost head = fshd.seg_list_blocks;
        proof {
            walk::lemma_walk_starts(m, head, id::LSEG);
        }
        loop
            invariant
                chain.inv(),
                disk.medium() == m,
                m == old(disk).medium(),
                m.block_size == self.block_bytes,
                forall|l: u64, e: S::Error|
                    #[trigger] disk.read_fails(l, e) == old(disk).read_fails(l, e),
                buf@.len() == m.block_size,
                chain.tail() != CHAIN_END ==> buf@.len() >= 20,
                head == fshd.seg_list_blocks,
                walk::is_walk(m, head, id::LSEG, chain.trail(), chain.tail()),
                blocks_are_whole(m, chain.trail()),
                out@ == payload_of(m, chain.trail()),
            decreases MAX_CHAIN_BLOCKS - chain.trail().len(),
        {
            let ghost before = chain;
            match chain.advance(disk, id::LSEG, buf.as_mut_slice()) {
                Ok(Some(_)) => {
                    let data = vstd::slice::slice_subrange(
                        buf.as_slice(),
                        lseg::LOAD_DATA,
                        buf.len(),
                    );
                    out.extend_from_slice(data);
                    assert(chain.trail().drop_last() =~= before.trail());
                    assert(out@ =~= payload_of(m, chain.trail()));
                    assert forall|k: int| 0 <= k < chain.trail().len() implies m.blocks[
                    #[trigger] chain.trail()[k]].len() == m.block_size by {
                        if k < before.trail().len() {
                            assert(chain.trail()[k] == before.trail()[k]);
                        }
                    }
                },
                Ok(None) => {
                    assert(walk::is_chain(m, head, id::LSEG, chain.trail()));
                    return Ok(out);
                },
                Err(e) => {
                    assert(walk::is_walk(m, head, id::LSEG, before.trail(), before.tail()));
                    assert(walk::stops_with(*old(disk), id::LSEG, before.trail(), before.tail(), e));
                    return Err(e);
                },
            }
        }
    }
}

/// Walk a `PART` chain and parse every block of it.
fn read_partitions<S: BlockSource>(disk: &mut S, head: u32, buf: &mut [u8]) -> (r: Result<
    Vec<Partition>,
    RdbError<S::Error>,
>)
    requires
        old(buf)@.len() == old(disk).medium().block_size,
        old(buf)@.len() >= 512,
    ensures
        final(disk).medium() == old(disk).medium(),
        forall|l: u64, e: S::Error|
            #[trigger] final(disk).read_fails(l, e) == old(disk).read_fails(l, e),
        final(buf)@.len() == old(buf)@.len(),
        match r {
            Ok(partitions) => partitions_read(old(disk).medium(), head, partitions@),
            Err(e) => walk::chain_breaks(*old(disk), head, id::PART, e),
        },
{
    let mut out: Vec<Partition> = Vec::new();
    let mut chain = ChainWalk::start(head);
    let ghost m = disk.medium();
    proof {
        walk::lemma_walk_starts(m, head, id::PART);
    }
    loop
        invariant
            chain.inv(),
            disk.medium() == m,
            m == old(disk).medium(),
            forall|l: u64, e: S::Error|
                #[trigger] disk.read_fails(l, e) == old(disk).read_fails(l, e),
            buf@.len() == m.block_size,
            buf@.len() == old(buf)@.len(),
            buf@.len() >= 512,
            walk::is_walk(m, head, id::PART, chain.trail(), chain.tail()),
            chain.trail() =~= Seq::new(out@.len(), |i: int| out@[i].part_block),
            forall|i: int|
                0 <= i < out@.len() ==> model::part_reads(
                    #[trigger] out@[i],
                    m.blocks[out@[i].part_block],
                    out@[i].part_block,
                ),
        decreases MAX_CHAIN_BLOCKS - chain.trail().len(),
    {
        let ghost before = chain;
        match chain.advance(disk, id::PART, buf) {
            Ok(Some(lba)) => {
                out.push(parse_part(buf, lba));
            },
            Ok(None) => {
                return Ok(out);
            },
            Err(e) => {
                assert(walk::is_walk(m, head, id::PART, before.trail(), before.tail()));
                assert(walk::stops_with(*old(disk), id::PART, before.trail(), before.tail(), e));
                return Err(e);
            },
        }
    }
}

/// Walk a `FSHD` chain and parse every block of it.
fn read_filesystems<S: BlockSource>(disk: &mut S, head: u32, buf: &mut [u8]) -> (r: Result<
    Vec<FileSysHeader>,
    RdbError<S::Error>,
>)
    requires
        old(buf)@.len() == old(disk).medium().block_size,
        old(buf)@.len() >= 512,
    ensures
        final(disk).medium() == old(disk).medium(),
        forall|l: u64, e: S::Error|
            #[trigger] final(disk).read_fails(l, e) == old(disk).read_fails(l, e),
        final(buf)@.len() == old(buf)@.len(),
        match r {
            Ok(filesystems) => filesystems_read(old(disk).medium(), head, filesystems@),
            Err(e) => walk::chain_breaks(*old(disk), head, id::FSHD, e),
        },
{
    let mut out: Vec<FileSysHeader> = Vec::new();
    let mut chain = ChainWalk::start(head);
    let ghost m = disk.medium();
    proof {
        walk::lemma_walk_starts(m, head, id::FSHD);
    }
    loop
        invariant
            chain.inv(),
            disk.medium() == m,
            m == old(disk).medium(),
            forall|l: u64, e: S::Error|
                #[trigger] disk.read_fails(l, e) == old(disk).read_fails(l, e),
            buf@.len() == m.block_size,
            buf@.len() == old(buf)@.len(),
            buf@.len() >= 512,
            walk::is_walk(m, head, id::FSHD, chain.trail(), chain.tail()),
            chain.trail() =~= Seq::new(out@.len(), |i: int| out@[i].fshd_block),
            forall|i: int|
                0 <= i < out@.len() ==> model::fshd_reads(
                    #[trigger] out@[i],
                    m.blocks[out@[i].fshd_block],
                    out@[i].fshd_block,
                ),
        decreases MAX_CHAIN_BLOCKS - chain.trail().len(),
    {
        let ghost before = chain;
        match chain.advance(disk, id::FSHD, buf) {
            Ok(Some(lba)) => {
                out.push(parse_fshd(buf, lba));
            },
            Ok(None) => {
                return Ok(out);
            },
            Err(e) => {
                assert(walk::is_walk(m, head, id::FSHD, before.trail(), before.tail()));
                assert(walk::stops_with(*old(disk), id::FSHD, before.trail(), before.tail(), e));
                return Err(e);
            },
        }
    }
}

/// Walk a `BADB` chain and collect its entries and its blocks.
fn read_bad_blocks<S: BlockSource>(disk: &mut S, head: u32, buf: &mut [u8]) -> (r: Result<
    (Vec<BadBlockEntry>, Vec<u64>),
    RdbError<S::Error>,
>)
    requires
        old(buf)@.len() == old(disk).medium().block_size,
        old(buf)@.len() >= 512,
    ensures
        final(disk).medium() == old(disk).medium(),
        forall|l: u64, e: S::Error|
            #[trigger] final(disk).read_fails(l, e) == old(disk).read_fails(l, e),
        final(buf)@.len() == old(buf)@.len(),
        match r {
            Ok((entries, lbas)) => walk::is_chain(old(disk).medium(), head, id::BADB, lbas@)
                && entries@ == all_entries(old(disk).medium(), lbas@),
            Err(e) => walk::chain_breaks(*old(disk), head, id::BADB, e),
        },
{
    let mut entries: Vec<BadBlockEntry> = Vec::new();
    let mut lbas: Vec<u64> = Vec::new();
    let mut chain = ChainWalk::start(head);
    let ghost m = disk.medium();
    proof {
        walk::lemma_walk_starts(m, head, id::BADB);
    }
    loop
        invariant
            chain.inv(),
            disk.medium() == m,
            m == old(disk).medium(),
            forall|l: u64, e: S::Error|
                #[trigger] disk.read_fails(l, e) == old(disk).read_fails(l, e),
            buf@.len() == m.block_size,
            buf@.len() == old(buf)@.len(),
            buf@.len() >= 512,
            walk::is_walk(m, head, id::BADB, chain.trail(), chain.tail()),
            lbas@ == chain.trail(),
            entries@ == all_entries(m, lbas@),
        decreases MAX_CHAIN_BLOCKS - chain.trail().len(),
    {
        let ghost before = chain;
        match chain.advance(disk, id::BADB, buf) {
            Ok(Some(lba)) => {
                lbas.push(lba);
                parse_badb(buf, &mut entries);
                assert(lbas@.drop_last() =~= before.trail());
            },
            Ok(None) => {
                return Ok((entries, lbas));
            },
            Err(e) => {
                assert(walk::is_walk(m, head, id::BADB, before.trail(), before.tail()));
                assert(walk::stops_with(*old(disk), id::BADB, before.trail(), before.tail(), e));
                return Err(e);
            },
        }
    }
}

/// No read fails that finding and parsing a table takes: of the blocks that are
/// scanned up to the `RDSK` block at `at`, or of its chains.
pub open spec fn reads_table<S: BlockSource>(
    disk: S,
    at: u64,
    parts: Seq<u64>,
    fshds: Seq<u64>,
    badbs: Seq<u64>,
) -> bool {
    &&& forall|j: u64| j <= at ==> #[trigger] walk::reads_at(disk, j)
    &&& walk::reads_all(disk, parts)
    &&& walk::reads_all(disk, fshds)
    &&& walk::reads_all(disk, badbs)
}

/// No read fails that parsing the table `rdb` takes.
pub open spec fn reads_model<S: BlockSource>(disk: S, rdb: Rdb) -> bool {
    reads_table(disk, rdb.rdsk_block, part_lbas(rdb), fshd_lbas(rdb), rdb.badb_blocks@)
}

/// A disk whose reads fail past its end alone can read every table it holds.
pub proof fn law_tables_lie_inside<S: BlockSource>(
    disk: S,
    at: u64,
    parts: Seq<u64>,
    fshds: Seq<u64>,
    badbs: Seq<u64>,
)
    requires
        walk::reads_inside(disk),
        rdsk_found_at(disk.medium(), at),
        ({
            let m = disk.medium();
            let b = m.blocks[at];
            &&& walk::is_chain(
                m,
                bytes::long_at(b, rdsk::PARTITION_LIST as int),
                id::PART,
                parts,
            )
            &&& walk::is_chain(
                m,
                bytes::long_at(b, rdsk::FILESYS_HEADER_LIST as int),
                id::FSHD,
                fshds,
            )
            &&& walk::is_chain(
                m,
                bytes::long_at(b, rdsk::BAD_BLOCK_LIST as int),
                id::BADB,
                badbs,
            )
        }),
    ensures
        reads_table(disk, at, parts, fshds, badbs),
{
    let m = disk.medium();
    let b = m.blocks[at];
    assert forall|j: u64| j <= at implies #[trigger] walk::reads_at(disk, j) by {
        assert(m.has(j));
    }
    walk::law_chains_lie_inside(
        disk,
        bytes::long_at(b, rdsk::PARTITION_LIST as int),
        id::PART,
        parts,
    );
    walk::law_chains_lie_inside(
        disk,
        bytes::long_at(b, rdsk::FILESYS_HEADER_LIST as int),
        id::FSHD,
        fshds,
    );
    walk::law_chains_lie_inside(
        disk,
        bytes::long_at(b, rdsk::BAD_BLOCK_LIST as int),
        id::BADB,
        badbs,
    );
}

/// A table whose chains are whole parses, unless a read that finding and parsing
/// it takes fails.
pub proof fn law_whole_table_parses<S: BlockSource>(
    disk: S,
    at: u64,
    parts: Seq<u64>,
    fshds: Seq<u64>,
    badbs: Seq<u64>,
    r: Result<Rdb, RdbError<S::Error>>,
)
    requires
        reads_table(disk, at, parts, fshds, badbs),
        bytes::supported_block_size(disk.medium().block_size as int),
        rdsk_usable_at(disk.medium(), at),
        ({
            let m = disk.medium();
            let b = m.blocks[at];
            &&& walk::is_chain(
                m,
                bytes::long_at(b, rdsk::PARTITION_LIST as int),
                id::PART,
                parts,
            )
            &&& walk::is_chain(
                m,
                bytes::long_at(b, rdsk::FILESYS_HEADER_LIST as int),
                id::FSHD,
                fshds,
            )
            &&& walk::is_chain(
                m,
                bytes::long_at(b, rdsk::BAD_BLOCK_LIST as int),
                id::BADB,
                badbs,
            )
        }),
        parse_outcome(disk, r),
    ensures
        r is Ok,
{
    let m = disk.medium();
    let b = m.blocks[at];
    if let Err(e) = r {
        assert(forall|j: u64| #[trigger] rdsk_found_at(m, j) ==> j == at) by {
            assert forall|j: u64| #[trigger] rdsk_found_at(m, j) implies j == at by {
                assert(walk::good_block(m.blocks[at], id::RDSK));
                assert(walk::good_block(m.blocks[j], id::RDSK));
            }
        }
        if e is NoRdsk {
            let k = choose|k: u64| #[trigger] scan_ends_at(disk, k);
            assert(walk::good_block(m.blocks[at], id::RDSK));
            assert(k <= at);
            assert(walk::reads_at(disk, k));
        } else if !(e is UnsupportedBlockSize) && !(e is BlockBytesMismatch) {
            assert(table_breaks(disk, b, e)) by {
                let x = choose|x: u64| #[trigger]
                    rdsk_usable_at(m, x) && table_breaks(disk, m.blocks[x], e);
                assert(x == at);
            }
            lemma_chain_holds(
                disk,
                bytes::long_at(b, rdsk::PARTITION_LIST as int),
                id::PART,
                parts,
                e,
            );
            lemma_chain_holds(
                disk,
                bytes::long_at(b, rdsk::FILESYS_HEADER_LIST as int),
                id::FSHD,
                fshds,
                e,
            );
            lemma_chain_holds(
                disk,
                bytes::long_at(b, rdsk::BAD_BLOCK_LIST as int),
                id::BADB,
                badbs,
                e,
            );
        }
    }
}

/// A whole chain does not break off where no read of it fails.
proof fn lemma_chain_holds<S: BlockSource>(
    disk: S,
    head: u32,
    id: u32,
    lbas: Seq<u64>,
    e: RdbError<S::Error>,
)
    requires
        walk::is_chain(disk.medium(), head, id, lbas),
        walk::reads_all(disk, lbas),
    ensures
        !walk::chain_breaks(disk, head, id, e),
{
    if walk::chain_breaks(disk, head, id, e) {
        walk::law_whole_chain_breaks_only_on_a_failed_read(disk, head, id, lbas, e);
    }
}

/// The two models say the same, the places of their blocks included.
pub open spec fn same_table(a: Rdb, b: Rdb) -> bool {
    &&& model::same_disk(a, b)
    &&& a.high_rdsk_block == b.high_rdsk_block
    &&& a.filesys_header_list == b.filesys_header_list
    &&& a.bad_block_list == b.bad_block_list
    &&& part_lbas(a) == part_lbas(b)
    &&& a.partitions@.len() == b.partitions@.len()
    &&& forall|i: int|
        0 <= i < a.partitions@.len() ==> model::same_partition(
            #[trigger] a.partitions@[i],
            b.partitions@[i],
        )
    &&& a.filesystems@ == b.filesystems@
    &&& a.bad_blocks@ == b.bad_blocks@
    &&& a.badb_blocks@ == b.badb_blocks@
}

/// There is one thing that a disk says: two parses of it agree.
pub proof fn law_parse_is_determined(m: Medium, a: Rdb, b: Rdb)
    requires
        parses_as(m, a),
        parses_as(m, b),
    ensures
        same_table(a, b),
{
    assert(a.rdsk_block == b.rdsk_block) by {
        assert(walk::good_block(m.blocks[a.rdsk_block], id::RDSK));
        assert(walk::good_block(m.blocks[b.rdsk_block], id::RDSK));
    }
    let head = bytes::long_at(m.blocks[a.rdsk_block], rdsk::PARTITION_LIST as int);
    walk::law_chain_is_unique(m, head, id::PART, part_lbas(a), part_lbas(b));
    walk::law_chain_is_unique(m, a.filesys_header_list, id::FSHD, fshd_lbas(a), fshd_lbas(b));
    walk::law_chain_is_unique(m, a.bad_block_list, id::BADB, a.badb_blocks@, b.badb_blocks@);
    assert(part_lbas(a).len() == a.partitions@.len() && part_lbas(b).len() == b.partitions@.len());
    assert(fshd_lbas(a).len() == a.filesystems@.len() && fshd_lbas(b).len()
        == b.filesystems@.len());
    assert forall|i: int| 0 <= i < a.partitions@.len() implies model::same_partition(
        #[trigger] a.partitions@[i],
        b.partitions@[i],
    ) by {
        assert(part_lbas(a)[i] == part_lbas(b)[i]);
        assert(model::part_reads(
            b.partitions@[i],
            m.blocks[b.partitions@[i].part_block],
            b.partitions@[i].part_block,
        ));
    }
    assert forall|i: int| 0 <= i < a.filesystems@.len() implies a.filesystems@[i]
        == b.filesystems@[i] by {
        assert(fshd_lbas(a)[i] == fshd_lbas(b)[i]);
        assert(model::fshd_reads(
            b.filesystems@[i],
            m.blocks[b.filesystems@[i].fshd_block],
            b.filesystems@[i].fshd_block,
        ));
    }
    assert(a.filesystems@ =~= b.filesystems@);
}

} // verus!
