//! What becomes of a driver's binary.
use vstd::arithmetic::div_mod::*;
use vstd::arithmetic::mul::*;
use vstd::prelude::*;

use crate::media::{BlockSource, Medium};
use crate::model::{FileSysHeader, Rdb};
use crate::specs::FileSystemSpec;
use crate::table::{Raw, Table};
use crate::walk::RdbError;
use crate::{
    bytes, commit, commit_laws, editor, geometry_laws, id, image, layout_laws, parse, walk,
};

verus! {

/// The blocks carry `data`, each from its byte 20 to its end, one after another,
/// and zeros after it; there is no block more than that takes.
pub open spec fn carries(blocks: Seq<Seq<u8>>, block_size: int, data: Seq<u8>) -> bool {
    let payload = block_size - 20;
    &&& data.len() <= blocks.len() * payload
    &&& blocks.len() > 0 ==> (blocks.len() - 1) * payload < data.len()
    &&& forall|c: int| 0 <= c < blocks.len() ==> (#[trigger] blocks[c]).len() == block_size
    &&& forall|c: int, j: int|
        0 <= c < blocks.len() && 0 <= j < payload ==> #[trigger] blocks[c][20 + j] == if c * payload
            + j < data.len() {
            data[c * payload + j]
        } else {
            0
        }
}

/// The bytes of a list of blocks.
pub open spec fn bytes_of(blocks: Seq<Raw>) -> Seq<Seq<u8>> {
    Seq::new(blocks.len(), |c: int| blocks[c].bytes)
}

/// `data`, filled up with zeros to whole payloads.
pub open spec fn is_filled_up(loaded: Seq<u8>, data: Seq<u8>, payload: int) -> bool {
    &&& data.len() <= loaded.len()
    &&& loaded.len() - data.len() < payload
    &&& loaded.len() % payload as nat == 0
    &&& forall|k: int| 0 <= k < data.len() ==> #[trigger] loaded[k] == data[k]
    &&& forall|k: int| data.len() <= k < loaded.len() ==> #[trigger] loaded[k] == 0
}

/// The payload of a new `LSEG` block: its data, and zeros.
proof fn lemma_new_lseg_payload(size: nat, host_id: u32, data: Seq<u8>, next: u32, j: int)
    requires
        size >= 512,
        size % 4 == 0,
        data.len() + 20 <= size,
        0 <= j < size - 20,
    ensures
        image::new_lseg(size, host_id, data, next).len() == size,
        image::new_lseg(size, host_id, data, next)[20 + j] == if j < data.len() {
            data[j]
        } else {
            0
        },
{
    if j >= data.len() {
        let k = (20 + j) / 4;
        assert(k >= 5);
        assert(image::new_lseg_long(host_id, image::lseg_summed(data), next, k) == 0);
        assert(bytes::byte_of(0, (20 + j) % 4) == 0);
    }
}

/// The blocks of a driver that is added carry its whole binary, whatever its
/// length.
pub proof fn law_new_driver_carries_its_binary(block_size: usize, spec: FileSystemSpec)
    requires
        geometry_laws::is_block_size(block_size),
    ensures
        carries(
            bytes_of(editor::new_driver(block_size, spec).chain),
            block_size as int,
            spec.binary@,
        ),
{
    let chain = editor::new_driver(block_size, spec).chain;
    let blocks = bytes_of(chain);
    let data = spec.binary@;
    let payload = block_size - 20;
    layout_laws::lemma_is_count(data.len(), payload);
    assert forall|c: int| 0 <= c < blocks.len() implies (#[trigger] blocks[c]).len()
        == block_size by {
        image::lemma_piece(data, payload, c);
        lemma_new_lseg_payload(
            block_size as nat,
            spec.host_id,
            image::piece(data, payload, c),
            bytes::CHAIN_END,
            0,
        );
    }
    assert forall|c: int, j: int|
        0 <= c < blocks.len() && 0 <= j < payload implies #[trigger] blocks[c][20 + j] == if c
        * payload + j < data.len() {
        data[c * payload + j]
    } else {
        0
    } by {
        image::lemma_piece(data, payload, c);
        lemma_new_lseg_payload(
            block_size as nat,
            spec.host_id,
            image::piece(data, payload, c),
            bytes::CHAIN_END,
            j,
        );
    }
}

/// Byte `k` of what the blocks of a driver carry.
proof fn lemma_payload_in(chain: Seq<Raw>, block_size: int, c: int, j: int)
    requires
        block_size >= 512,
        forall|c: int| 0 <= c < chain.len() ==> (#[trigger] chain[c]).bytes.len() == block_size,
        0 <= c < chain.len(),
        0 <= j < block_size - 20,
    ensures
        commit_laws::payload_in(chain).len() == chain.len() * (block_size - 20),
        0 <= c * (block_size - 20) + j < chain.len() * (block_size - 20),
        commit_laws::payload_in(chain)[c * (block_size - 20) + j] == chain[c].bytes[20 + j],
    decreases chain.len(),
{
    let payload = block_size - 20;
    let rest = chain.drop_last();
    let n = chain.len() as int;
    lemma_payload_in_len(chain, block_size);
    lemma_payload_in_len(rest, block_size);
    assert(0 <= c * payload + j < n * payload) by (nonlinear_arith)
        requires
            0 <= c <= n - 1,
            0 <= j < payload,
    ;
    if c < n - 1 {
        lemma_payload_in(rest, block_size, c, j);
    }
}

/// How much the blocks of a driver carry.
proof fn lemma_payload_in_len(chain: Seq<Raw>, block_size: int)
    requires
        block_size >= 512,
        forall|c: int| 0 <= c < chain.len() ==> (#[trigger] chain[c]).bytes.len() == block_size,
    ensures
        commit_laws::payload_in(chain).len() == chain.len() * (block_size - 20),
    decreases chain.len(),
{
    let payload = block_size - 20;
    if chain.len() > 0 {
        let rest = chain.drop_last();
        lemma_payload_in_len(rest, block_size);
        assert(chain.len() * payload == rest.len() * payload + payload) by (nonlinear_arith)
            requires
                chain.len() == rest.len() + 1,
        ;
        assert(chain.last() == chain[chain.len() - 1]);
    } else {
        assert(0 * payload == 0);
    }
}

/// Blocks that carry some data load as that data, filled up with zeros.
proof fn lemma_carried_loads(chain: Seq<Raw>, block_size: int, data: Seq<u8>)
    requires
        block_size >= 512,
        carries(bytes_of(chain), block_size, data),
    ensures
        is_filled_up(commit_laws::payload_in(chain), data, block_size - 20),
{
    let payload = block_size - 20;
    let loaded = commit_laws::payload_in(chain);
    let n = chain.len() as int;
    assert forall|c: int| 0 <= c < chain.len() implies (#[trigger] chain[c]).bytes.len()
        == block_size by {
        assert(bytes_of(chain)[c].len() == block_size);
    }
    lemma_payload_in_len(chain, block_size);
    assert forall|k: int| 0 <= k < loaded.len() implies #[trigger] loaded[k] == if k < data.len() {
        data[k]
    } else {
        0
    } by {
        let c = k / payload;
        let j = k % payload;
        lemma_fundamental_div_mod(k, payload);
        lemma_mod_bound(k, payload);
        lemma_mul_is_commutative(payload, c);
        assert(0 <= c < n) by (nonlinear_arith)
            requires
                k == payload * c + j,
                0 <= j < payload,
                0 <= k < n * payload,
        ;
        lemma_payload_in(chain, block_size, c, j);
        assert(bytes_of(chain)[c][20 + j] == chain[c].bytes[20 + j]);
    }
    assert(loaded.len() - data.len() < payload) by (nonlinear_arith)
        requires
            loaded.len() == n * payload,
            n > 0 ==> (n - 1) * payload < data.len(),
            n >= 0,
            payload > 0,
            data.len() >= 0,
    ;
    lemma_mod_multiples_basic(n, payload);
}

/// A driver that an edit adds or puts in loads back after the commit: a load of
/// it does not fail, unless a read of one of its blocks does, and gives its whole
/// binary and fewer than one block's worth of zeros.
pub proof fn law_added_driver_loads_back<S: BlockSource>(
    m: Medium,
    t: Table,
    assigned: Seq<u64>,
    zeroed: Seq<u64>,
    k: int,
    rdb: Rdb,
    f: int,
    spec: FileSystemSpec,
    disk: S,
    r: Result<Vec<u8>, RdbError<S::Error>>,
)
    requires
        commit_laws::planned(t, assigned, zeroed),
        commit_laws::readable_on(m, t, assigned),
        t.blocks().len() < k <= commit::commit_writes(t, assigned, zeroed).len(),
        0 <= f < t.drivers.len(),
        geometry_laws::is_block_size(t.block_size),
        t.drivers[f] == editor::new_driver(t.block_size, spec),
        t.drivers[f].chain.len() <= 1_048_576,
        disk.medium() == commit_laws::state(m, t, assigned, zeroed, k),
        walk::reads_all(
            disk,
            commit_laws::addresses(assigned, commit_laws::lseg_places(t, f)),
        ),
        parse::parses_as(disk.medium(), rdb),
        parse::load_outcome(rdb, rdb.filesystems@[f], disk, r),
    ensures
        r matches Ok(binary) && is_filled_up(binary@, spec.binary@, t.block_size - 20),
{
    commit_laws::law_committed_driver_loads_back(
        m,
        t,
        assigned,
        zeroed,
        k,
        rdb,
        f,
        disk,
        r,
    );
    law_new_driver_carries_its_binary(t.block_size, spec);
    lemma_carried_loads(t.drivers[f].chain, t.block_size as int, spec.binary@);
}

/// Byte `j` of block `c` of what a chain's blocks carry.
proof fn lemma_payload_of(m: Medium, lbas: Seq<u64>, c: int, j: int)
    requires
        m.block_size >= 512,
        parse::blocks_are_whole(m, lbas),
        0 <= c < lbas.len(),
        0 <= j < m.block_size - 20,
    ensures
        0 <= c * (m.block_size - 20) + j < parse::payload_of(m, lbas).len(),
        parse::payload_of(m, lbas).len() == lbas.len() * (m.block_size - 20),
        parse::payload_of(m, lbas)[c * (m.block_size - 20) + j] == m.blocks[lbas[c]][20 + j],
    decreases lbas.len(),
{
    let payload = m.block_size - 20;
    let rest = lbas.drop_last();
    let n = lbas.len() as int;
    parse::lemma_payload_len(m, lbas);
    assert(parse::blocks_are_whole(m, rest)) by {
        assert forall|k: int| 0 <= k < rest.len() implies m.blocks[#[trigger] rest[k]].len()
            == m.block_size by {
            assert(rest[k] == lbas[k]);
        }
    }
    parse::lemma_payload_len(m, rest);
    assert(0 <= c * payload + j < n * payload) by (nonlinear_arith)
        requires
            0 <= c <= n - 1,
            0 <= j < payload,
    ;
    if c < n - 1 {
        lemma_payload_of(m, rest, c, j);
        assert(rest[c] == lbas[c]);
    } else {
        assert(lbas.last() == lbas[c]);
    }
}

/// What loads is what the blocks of the chain hold from byte 20 on, one block
/// after another, and nothing else.
pub proof fn law_loaded_bytes_are_the_blocks<S: BlockSource>(
    rdb: Rdb,
    fshd: FileSysHeader,
    disk: S,
    binary: Vec<u8>,
    lbas: Seq<u64>,
)
    requires
        parse::load_outcome::<S>(rdb, fshd, disk, Ok(binary)),
        disk.medium().block_size >= 512,
        walk::is_chain(disk.medium(), fshd.seg_list_blocks, id::LSEG, lbas),
    ensures
        disk.medium().block_size == rdb.block_bytes,
        binary@.len() == lbas.len() * (rdb.block_bytes - 20),
        forall|c: int, j: int|
            0 <= c < lbas.len() && 0 <= j < rdb.block_bytes - 20 ==> binary@[c * (rdb.block_bytes
                - 20) + j] == #[trigger] disk.medium().blocks[lbas[c]][20 + j],
{
    let m = disk.medium();
    let w = choose|w: Seq<u64>| #[trigger]
        walk::is_chain(m, fshd.seg_list_blocks, id::LSEG, w) && parse::blocks_are_whole(m, w)
            && binary@ == parse::payload_of(m, w);
    walk::law_chain_is_unique(m, fshd.seg_list_blocks, id::LSEG, w, lbas);
    parse::lemma_payload_len(m, lbas);
    assert forall|c: int, j: int|
        0 <= c < lbas.len() && 0 <= j < rdb.block_bytes - 20 implies binary@[c * (rdb.block_bytes
        - 20) + j] == #[trigger] m.blocks[lbas[c]][20 + j] by {
        lemma_payload_of(m, lbas, c, j);
    }
}

} // verus!
