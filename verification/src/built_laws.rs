//! The bytes of the blocks of a table that is built.
use vstd::prelude::*;

use crate::image::PartContext;
use crate::layout::Request;
use crate::{
    builder, bytes, checksum, format_laws, image, layout, layout_laws, new_block_laws,
};

verus! {

/// `b` is `s` with its checksum over `longs` longwords.
pub open spec fn is_sealed(b: Seq<u8>, s: Seq<u8>, longs: int) -> bool {
    &&& b.len() == s.len()
    &&& format_laws::number(b, 4) == longs
    &&& format_laws::checks_out(b)
    &&& forall|i: int| 0 <= i < s.len() && !(4 <= i < 12) ==> #[trigger] b[i] == s[i]
}

proof fn lemma_sealed(s: Seq<u8>, longs: u32)
    requires
        checksum::sealable(s, longs),
    ensures
        is_sealed(checksum::sealed(s, longs), s, longs as int),
{
    checksum::law_sealed_block_checks_out(s, longs);
    format_laws::law_checksum_is_the_sum(checksum::sealed(s, longs));
    format_laws::lemma_number(checksum::sealed(s, longs), 4);
}

/// The block of each partition of a table that is built says what was asked for,
/// with the disk's own host, heads and sectors, and leads to that of the next.
pub proof fn law_built_partition_says_what_was_asked(
    req: Request,
    sink_blocks: Option<u64>,
    i: int,
)
    requires
        bytes::supported_block_size(req.geometry.block_size as int),
        req.layout_refusal(sink_blocks) is None,
        0 <= i < req.specs.len(),
    ensures
        exists|s: Seq<u8>|
            {
                let p = req.layout().partitions[i];
                &&& #[trigger] is_sealed(req.part_image(i), s, 64)
                &&& new_block_laws::is_part_block(
                    s,
                    req.geometry.block_size as int,
                    req.specs[i],
                    p.name,
                    p.low_cyl,
                    p.high_cyl,
                    if i + 1 < req.specs.len() {
                        (req.rdsk_block + i + 2) as u32
                    } else {
                        0xFFFF_FFFF
                    },
                    PartContext {
                        host_id: req.host_id,
                        heads: req.geometry.heads,
                        sectors: req.geometry.sectors,
                        block_size: req.geometry.block_size,
                    },
                )
            },
{
    let name = layout::name_of(req.specs, i);
    layout_laws::lemma_lo(req);
    layout_laws::lemma_needed(req);
    builder::lemma_name_fits(req.specs, i);
    let s = image::new_part(
        req.geometry.block_size as nat,
        req.specs[i],
        name,
        req.extent(i).0 as u32,
        req.extent(i).1 as u32,
        req.part_next(i),
        req.context(),
    );
    new_block_laws::law_new_partition_block(
        req.geometry.block_size as nat,
        req.specs[i],
        name,
        req.extent(i).0 as u32,
        req.extent(i).1 as u32,
        req.part_next(i),
        req.context(),
    );
    lemma_sealed(s, 64);
    assert(is_sealed(req.part_image(i), s, 64));
}

/// The header of each filesystem of a table that is built says what was asked for,
/// and leads to its driver and to the header of the next.
pub proof fn law_built_filesystem_says_what_was_asked(req: Request, i: int)
    requires
        bytes::supported_block_size(req.geometry.block_size as int),
        0 <= i < req.filesystems.len(),
    ensures
        is_sealed(
            req.fshd_image(i),
            image::new_fshd(
                req.geometry.block_size as nat,
                req.filesystems[i],
                req.layout().filesystems[i].seg_list_blocks,
                if i + 1 < req.filesystems.len() {
                    req.fshd_block(i + 1) as u32
                } else {
                    0xFFFF_FFFF
                },
            ),
            64,
        ),
{
    lemma_sealed(
        image::new_fshd(
            req.geometry.block_size as nat,
            req.filesystems[i],
            req.seg_list(i),
            req.fshd_next(i),
        ),
        64,
    );
}

/// The `RDSK` block of a table that is built says what was asked for and where
/// everything is, and nothing else.
#[verifier::rlimit(60)]
pub proof fn law_built_rdsk_says_what_was_asked(req: Request, sink_blocks: Option<u64>)
    requires
        bytes::supported_block_size(req.geometry.block_size as int),
        req.layout_refusal(sink_blocks) is None,
    ensures
        ({
            let b = req.rdsk_image();
            let g = req.geometry;
            let l = req.layout();
            &&& b.len() == g.block_size
            &&& format_laws::checks_out(b)
            &&& format_laws::number(b, 0) == 0x5244_534B
            &&& format_laws::number(b, 4) == 64
            &&& format_laws::number(b, 12) == req.host_id
            &&& format_laws::number(b, 16) == g.block_size
            &&& format_laws::number(b, 20) == req.flags
            &&& format_laws::number(b, 24) == 0xFFFF_FFFF
            &&& format_laws::number(b, 28) == if req.specs.len() == 0 {
                0xFFFF_FFFF
            } else {
                req.rdsk_block + 1
            }
            &&& format_laws::number(b, 32) == if req.filesystems.len() == 0 {
                0xFFFF_FFFF
            } else {
                req.rdsk_block + 1 + req.specs.len()
            }
            &&& format_laws::number(b, 36) == 0xFFFF_FFFF
            &&& format_laws::number(b, 64) == g.cylinders
            &&& format_laws::number(b, 68) == g.sectors
            &&& format_laws::number(b, 72) == g.heads
            &&& format_laws::number(b, 76) == 1
            &&& format_laws::number(b, 80) == g.cylinders
            &&& format_laws::number(b, 96) == g.cylinders
            &&& format_laws::number(b, 100) == g.cylinders
            &&& format_laws::number(b, 104) == 3
            &&& format_laws::number(b, 128) == 0
            &&& format_laws::number(b, 132) == l.rdb_blocks_hi
            &&& format_laws::number(b, 136) == l.lo_cylinder
            &&& format_laws::number(b, 140) == g.cylinders - 1
            &&& g.heads * g.sectors <= 0xFFFF_FFFF ==> format_laws::number(b, 144) == g.heads
                * g.sectors
            &&& format_laws::number(b, 148) == 0
            &&& format_laws::number(b, 152) == l.high_rdsk_block
            &&& new_block_laws::is_zero(b, 40, 64)
            &&& new_block_laws::is_zero(b, 84, 96)
            &&& new_block_laws::is_zero(b, 108, 132)
            &&& new_block_laws::is_zero(b, 156, g.block_size as int)
        }),
{
    let size = req.geometry.block_size as nat;
    let longs = |k: int| req.rdsk_long(k);
    let s = image::block_of(size, longs);
    let b = req.rdsk_image();
    layout_laws::lemma_lo(req);
    layout_laws::lemma_needed(req);
    lemma_sealed(s, 64);
    format_laws::lemma_numbers(b);
    format_laws::lemma_numbers(s);
    assert forall|k: int| (0 <= k < size / 4 && k != 1 && k != 2) implies #[trigger] bytes::long_at(
        b,
        4 * k,
    ) == req.rdsk_long(k) by {
        image::lemma_block_of_long(size, longs, k);
        bytes::lemma_long_at_same_bytes(b, s, 4 * k);
    }
    assert(bytes::long_at(b, 4int * 0) == req.rdsk_long(0));
    assert(bytes::long_at(b, 4int * 3) == req.rdsk_long(3));
    assert(bytes::long_at(b, 4int * 4) == req.rdsk_long(4));
    assert(bytes::long_at(b, 4int * 5) == req.rdsk_long(5));
    assert(bytes::long_at(b, 4int * 6) == req.rdsk_long(6));
    assert(bytes::long_at(b, 4int * 7) == req.rdsk_long(7));
    assert(bytes::long_at(b, 4int * 8) == req.rdsk_long(8));
    assert(bytes::long_at(b, 4int * 9) == req.rdsk_long(9));
    assert(bytes::long_at(b, 4int * 16) == req.rdsk_long(16));
    assert(bytes::long_at(b, 4int * 17) == req.rdsk_long(17));
    assert(bytes::long_at(b, 4int * 18) == req.rdsk_long(18));
    assert(bytes::long_at(b, 4int * 19) == req.rdsk_long(19));
    assert(bytes::long_at(b, 4int * 20) == req.rdsk_long(20));
    assert(bytes::long_at(b, 4int * 24) == req.rdsk_long(24));
    assert(bytes::long_at(b, 4int * 25) == req.rdsk_long(25));
    assert(bytes::long_at(b, 4int * 26) == req.rdsk_long(26));
    assert(bytes::long_at(b, 4int * 32) == req.rdsk_long(32));
    assert(bytes::long_at(b, 4int * 33) == req.rdsk_long(33));
    assert(bytes::long_at(b, 4int * 34) == req.rdsk_long(34));
    assert(bytes::long_at(b, 4int * 35) == req.rdsk_long(35));
    assert(bytes::long_at(b, 4int * 36) == req.rdsk_long(36));
    assert(bytes::long_at(b, 4int * 37) == req.rdsk_long(37));
    assert(bytes::long_at(b, 4int * 38) == req.rdsk_long(38));
    assert forall|i: int|
        (40 <= i < 64 || 84 <= i < 96 || 108 <= i < 132 || 156 <= i
            < size) implies #[trigger] b[i] == 0 by {
        assert(b[i] == s[i]);
        assert(longs(i / 4) == 0);
        new_block_laws::lemma_zero_long(size, longs, i);
    }
}

} // verus!
