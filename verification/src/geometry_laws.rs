//! What a geometry that is chosen for a disk promises.
use vstd::arithmetic::div_mod::*;
use vstd::arithmetic::mul::*;
use vstd::arithmetic::power2::*;
use vstd::prelude::*;

use crate::geometry;
use crate::geometry::{Geometry, GeometryError};

verus! {

/// How many bytes the geometry describes.
pub open spec fn described(g: Geometry) -> int {
    g.cylinders * (g.heads * g.sectors) * g.block_size
}

/// The geometry fits a disk of `total_bytes`: it describes no more than the
/// disk, one more cylinder would be too many, and its fields and the blocks of a
/// cylinder fit 32 bits.
pub open spec fn fits(g: Geometry, total_bytes: u64, block_size: usize) -> bool {
    &&& g.block_size == block_size
    &&& g.cylinders > 0
    &&& g.heads * g.sectors <= 0xFFFF_FFFF
    &&& described(g) <= total_bytes
    &&& total_bytes < described(g) + g.heads * g.sectors * block_size
}

/// A geometry of 63 sectors, its heads by the size of the disk.
pub open spec fn of_63_sectors(g: Geometry, total_bytes: u64, block_size: usize) -> bool {
    &&& fits(g, total_bytes, block_size)
    &&& g.sectors == 63
    &&& g.heads == if total_bytes < 528_483_328 {
        16int
    } else if total_bytes < 1_056_965_632 {
        32
    } else if total_bytes < 2_113_930_240 {
        64
    } else if total_bytes < 4_227_859_456 {
        128
    } else {
        256
    }
}

/// A geometry of 32 sectors, with the fewest heads, doubled from one, that leave
/// no more than 65535 cylinders.
pub open spec fn of_32_sectors(g: Geometry, total_bytes: u64, block_size: usize) -> bool {
    &&& fits(g, total_bytes, block_size)
    &&& g.sectors == 32
    &&& g.cylinders <= 65535
    &&& exists|k: nat| #[trigger] pow2(k) == g.heads
    &&& g.heads == 1 || 65536 * (g.heads / 2) * 32 * block_size <= total_bytes
}

/// One of the two conventions.
pub open spec fn conventional(g: Geometry, total_bytes: u64, block_size: usize) -> bool {
    of_63_sectors(g, total_bytes, block_size) || of_32_sectors(g, total_bytes, block_size)
}

/// The block sizes that are supported.
pub open spec fn is_block_size(size: usize) -> bool {
    size == 512 || size == 1024 || size == 2048 || size == 4096 || size == 8192 || size == 16384
        || size == 32768
}

/// The heads that halving ends with are a power of two, and the fewest.
proof fn lemma_halved_heads(blocks: int, cylinders: int, heads: int, k: nat)
    requires
        blocks >= 0,
        heads == pow2(k),
        cylinders == blocks / (32 * heads),
        heads == 1 || blocks >= 65536 * (heads / 2) * 32,
        blocks >= 32,
    ensures
        ({
            let (c, h) = geometry::halved(cylinders, heads);
            &&& exists|j: nat| #[trigger] pow2(j) == h
            &&& h >= 1
            &&& 0 < c <= 65535
            &&& c == blocks / (32 * h)
            &&& h == 1 || blocks >= 65536 * (h / 2) * 32
        }),
    decreases cylinders,
{
    lemma_pow2_pos(k);
    if cylinders > 65535 {
        lemma_div_denominator(blocks, 32 * heads, 2);
        assert((32 * heads) * 2 == 32 * (heads * 2));
        lemma_pow2_unfold(k + 1);
        lemma_fundamental_div_mod(blocks, 32 * heads);
        lemma_mod_bound(blocks, 32 * heads);
        assert(blocks >= 65536 * heads * 32) by (nonlinear_arith)
            requires
                blocks == (32 * heads) * cylinders + blocks % (32 * heads),
                blocks % (32 * heads) >= 0,
                cylinders >= 65536,
                heads >= 1,
        ;
        assert((heads * 2) / 2 == heads);
        lemma_halved_heads(blocks, cylinders / 2, heads * 2, k + 1);
    } else {
        lemma_fundamental_div_mod(blocks, 32 * heads);
        lemma_mod_bound(blocks, 32 * heads);
        lemma_div_pos_is_pos(blocks, 32 * heads);
        assert(pow2(k) == heads);
        if cylinders == 0 {
            assert(blocks < 32 * heads) by (nonlinear_arith)
                requires
                    blocks == (32 * heads) * cylinders + blocks % (32 * heads),
                    blocks % (32 * heads) < 32 * heads,
                    cylinders == 0,
            ;
            if heads != 1 {
                assert(heads % 2 == 0) by {
                    if k == 0 {
                        lemma2_to64();
                    } else {
                        lemma_pow2_unfold(k);
                    }
                }
            }
        }
    }
}

/// A disk's worth of whole blocks, in whole cylinders of `per` blocks.
proof fn lemma_floor(total_bytes: u64, bs: int, per: int, cylinders: int)
    requires
        bs > 0,
        per > 0,
        cylinders >= 0,
    ensures
        cylinders == (total_bytes as int / bs) / per <==> cylinders * per * bs <= total_bytes
            < cylinders * per * bs + per * bs,
{
    let total = total_bytes as int;
    lemma_mul_strictly_positive(bs, per);
    lemma_div_denominator(total, bs, per);
    lemma_fundamental_div_mod(total, bs * per);
    lemma_mod_bound(total, bs * per);
    lemma_mul_is_commutative(bs, per);
    assert(cylinders * per * bs == cylinders * (per * bs)) by (nonlinear_arith);
    let q = total / (bs * per);
    let d = per * bs;
    assert((d * q == q * d)) by (nonlinear_arith);
    if cylinders * d <= total < cylinders * d + d {
        assert(cylinders == q) by (nonlinear_arith)
            requires
                cylinders * d <= total < cylinders * d + d,
                q * d <= total < q * d + d,
                d > 0,
        ;
    }
}

/// What the first candidate is.
proof fn lemma_63(total_bytes: u64, block_size: usize)
    requires
        is_block_size(block_size),
    ensures
        geometry::pc_candidate(total_bytes, block_size) matches Some(g) ==> of_63_sectors(
            g,
            total_bytes,
            block_size,
        ) && total_bytes < 0x8000_0000_0000 * block_size,
        forall|c: Geometry| #[trigger]
            of_63_sectors(c, total_bytes, block_size) ==> geometry::pc_candidate(
                total_bytes,
                block_size,
            ) == Some(c),
{
    let heads = geometry::pc_heads(total_bytes);
    let per = heads * 63;
    let bs = block_size as int;
    let blocks = total_bytes as int / bs;
    lemma_div_pos_is_pos(total_bytes as int, bs);
    lemma_div_pos_is_pos(blocks, per);
    if let Some(g) = geometry::pc_candidate(total_bytes, block_size) {
        lemma_floor(total_bytes, bs, per, g.cylinders as int);
        assert(total_bytes < 0x8000_0000_0000 * bs) by (nonlinear_arith)
            requires
                total_bytes < g.cylinders * per * bs + per * bs,
                g.cylinders <= 0xFFFF_FFFF,
                0 < per <= 16128,
                bs > 0,
        ;
    }
    assert forall|c: Geometry| #[trigger]
        of_63_sectors(c, total_bytes, block_size) implies geometry::pc_candidate(
        total_bytes,
        block_size,
    ) == Some(c) by {
        lemma_floor(total_bytes, bs, per, c.cylinders as int);
    }
}

/// A power of two below another is at most half of it.
proof fn lemma_half_pow2(j: nat, k: nat)
    requires
        pow2(j) < pow2(k),
    ensures
        pow2(j) <= pow2(k) / 2,
        pow2(k) % 2 == 0,
{
    if k <= j {
        if k < j {
            lemma_pow2_strictly_increases(k, j);
        }
    } else {
        lemma_pow2_unfold(k);
        if j < k - 1 {
            lemma_pow2_strictly_increases(j, (k - 1) as nat);
        }
    }
}

/// There is one geometry of 32 sectors.
proof fn lemma_32_unique(a: Geometry, b: Geometry, total_bytes: u64, block_size: usize)
    requires
        is_block_size(block_size),
        of_32_sectors(a, total_bytes, block_size),
        of_32_sectors(b, total_bytes, block_size),
    ensures
        a == b,
{
    let bs = block_size as int;
    lemma_fewer_heads(a, b, total_bytes, block_size);
    lemma_fewer_heads(b, a, total_bytes, block_size);
    let per = a.heads * 32;
    assert(per > 0) by {
        let k = choose|k: nat| #[trigger] pow2(k) == a.heads;
        lemma_pow2_pos(k);
    }
    lemma_floor(total_bytes, bs, per, a.cylinders as int);
    lemma_floor(total_bytes, bs, per, b.cylinders as int);
}

/// Fewer heads than the fewest are too few.
proof fn lemma_fewer_heads(a: Geometry, b: Geometry, total_bytes: u64, block_size: usize)
    requires
        is_block_size(block_size),
        of_32_sectors(a, total_bytes, block_size),
        of_32_sectors(b, total_bytes, block_size),
    ensures
        a.heads >= b.heads,
{
    if a.heads < b.heads {
        let bs = block_size as int;
        let j = choose|j: nat| #[trigger] pow2(j) == a.heads;
        let k = choose|k: nat| #[trigger] pow2(k) == b.heads;
        lemma_pow2_pos(j);
        lemma_half_pow2(j, k);
        let h = a.heads as int;
        let half = (b.heads / 2) as int;
        assert(65536 * half * 32 * bs >= 65536 * h * 32 * bs) by (nonlinear_arith)
            requires
                half >= h,
                bs > 0,
        ;
        assert(described(a) + a.heads * a.sectors * bs <= 65536 * h * 32 * bs) by (nonlinear_arith)
            requires
                described(a) == a.cylinders * (h * 32) * bs,
                a.heads * a.sectors * bs == (h * 32) * bs,
                a.cylinders <= 65535,
                h > 0,
                bs > 0,
        ;
    }
}

/// What the second candidate is.
proof fn lemma_32(total_bytes: u64, block_size: usize)
    requires
        is_block_size(block_size),
        total_bytes >= 32 * block_size,
    ensures
        match geometry::amiga_candidate(total_bytes, block_size) {
            Some(g) => of_32_sectors(g, total_bytes, block_size) && total_bytes < 0x8000_0000_0000
                * block_size,
            None => total_bytes >= 0x8000_0000_0000 * block_size,
        },
        forall|c: Geometry| #[trigger]
            of_32_sectors(c, total_bytes, block_size) ==> geometry::amiga_candidate(
                total_bytes,
                block_size,
            ) == Some(c),
{
    let bs = block_size as int;
    let total = total_bytes as int;
    let blocks = total / bs;
    lemma_div_pos_is_pos(total, bs);
    lemma_fundamental_div_mod(total, bs);
    lemma_mod_bound(total, bs);
    assert(blocks >= 32) by (nonlinear_arith)
        requires
            total == bs * blocks + total % bs,
            total % bs < bs,
            total >= 32 * bs,
            bs > 0,
    ;
    lemma2_to64();
    lemma_halved_heads(blocks, blocks / 32, 1, 0);
    let (c, h) = geometry::halved(blocks / 32, 1);
    let j = choose|j: nat| #[trigger] pow2(j) == h;
    lemma_floor(total_bytes, bs, 32 * h, c);
    assert(c * (32 * h) * bs == c * (h * 32) * bs && (32 * h) * bs == (h * 32) * bs) by (
    nonlinear_arith);
    let half = h / 2;
    if h != 1 {
        assert(65536 * half * 32 * bs <= total) by (nonlinear_arith)
            requires
                blocks >= 65536 * half * 32,
                total >= bs * blocks,
                bs > 0,
        ;
    }
    if h * 32 > 0xFFFF_FFFF {
        assert(half >= 0x400_0000);
        assert(total >= 0x8000_0000_0000 * bs) by (nonlinear_arith)
            requires
                65536 * half * 32 * bs <= total,
                half >= 0x400_0000,
                bs > 0,
        ;
    } else {
        assert(pow2(27) == 0x800_0000);
        assert(h <= 0x400_0000) by {
            lemma_half_pow2(j, 27);
        }
        assert(total < 0x8000_0000_0000 * bs) by (nonlinear_arith)
            requires
                total < c * (32 * h) * bs + (32 * h) * bs,
                c <= 65535,
                0 < h <= 0x400_0000,
                bs > 0,
        ;
        let g = geometry::amiga_candidate(total_bytes, block_size)->Some_0;
        assert(g.heads == h && g.cylinders == c);
        assert(described(g) == c * (h * 32) * bs);
        assert(pow2(j) == g.heads);
        assert(of_32_sectors(g, total_bytes, block_size));
        assert forall|d: Geometry| #[trigger]
            of_32_sectors(d, total_bytes, block_size) implies geometry::amiga_candidate(
            total_bytes,
            block_size,
        ) == Some(d) by {
            lemma_32_unique(g, d, total_bytes, block_size);
        }
    }
    if h * 32 > 0xFFFF_FFFF {
        assert forall|d: Geometry| #[trigger]
            of_32_sectors(d, total_bytes, block_size) implies geometry::amiga_candidate(
            total_bytes,
            block_size,
        ) == Some(d) by {
            let k = choose|k: nat| #[trigger] pow2(k) == d.heads;
            assert(pow2(27) == 0x800_0000);
            lemma_half_pow2(k, 27);
            let dh = d.heads as int;
            lemma_pow2_pos(k);
            assert(total < 0x8000_0000_0000 * bs) by (nonlinear_arith)
                requires
                    total < d.cylinders * (dh * 32) * bs + (dh * 32) * bs,
                    d.cylinders <= 65535,
                    0 < dh <= 0x400_0000,
                    bs > 0,
            ;
        }
    }
}

/// A geometry that describes more leaves fewer bytes undescribed.
proof fn lemma_described(g: Geometry, total_bytes: u64, block_size: usize)
    requires
        is_block_size(block_size),
        fits(g, total_bytes, block_size),
    ensures
        g.bytes_in_all() == described(g),
{
    let n = g.cylinders * (g.heads * g.sectors);
    assert(0 <= n <= n * g.block_size) by (nonlinear_arith)
        requires
            n == g.cylinders * (g.heads * g.sectors),
            g.block_size >= 1,
            g.cylinders >= 0,
            g.heads >= 0,
            g.sectors >= 0,
    ;
}

/// Every disk of at least one track of 32 blocks, in a supported block size, has
/// a geometry, up to 2^47 blocks, where the 32-bit fields run out. The one it
/// gets is one of the two conventional ones, no conventional one describes more
/// of the disk, and of two that describe as much it is the one of 63 sectors.
pub proof fn law_best_conventional_geometry_is_chosen(total_bytes: u64, block_size: usize)
    ensures
        match geometry::geometry_of(total_bytes, block_size) {
            Ok(g) => {
                &&& is_block_size(block_size)
                &&& 32 * block_size <= total_bytes < 0x8000_0000_0000 * block_size
                &&& conventional(g, total_bytes, block_size)
                &&& forall|c: Geometry| #[trigger]
                    conventional(c, total_bytes, block_size) ==> described(c) <= described(g)
                &&& forall|c: Geometry| #[trigger]
                    of_63_sectors(c, total_bytes, block_size) && described(c) == described(g)
                        ==> c == g
            },
            Err(GeometryError::UnsupportedBlockSize { block_size: b }) => {
                !is_block_size(block_size) && b == block_size
            },
            Err(GeometryError::TooSmall { total_bytes: t, block_size: b, minimum_bytes }) => {
                &&& is_block_size(block_size)
                &&& total_bytes < 32 * block_size
                &&& t == total_bytes
                &&& b == block_size
                &&& minimum_bytes == 32 * block_size
            },
            Err(GeometryError::TooLarge { total_bytes: t, block_size: b }) => {
                &&& is_block_size(block_size)
                &&& total_bytes >= 0x8000_0000_0000 * block_size
                &&& t == total_bytes
                &&& b == block_size
            },
        },
{
    if is_block_size(block_size) {
        let bs = block_size as int;
        let total = total_bytes as int;
        lemma_fundamental_div_mod(total, bs);
        lemma_mod_bound(total, bs);
        assert(total / bs < 32 <==> total < 32 * bs) by (nonlinear_arith)
            requires
                total == bs * (total / bs) + total % bs,
                0 <= total % bs < bs,
                bs > 0,
        ;
        if total >= 32 * bs {
            lemma_63(total_bytes, block_size);
            lemma_32(total_bytes, block_size);
            if let Some(g) = geometry::pc_candidate(total_bytes, block_size) {
                lemma_described(g, total_bytes, block_size);
            }
            if let Some(g) = geometry::amiga_candidate(total_bytes, block_size) {
                lemma_described(g, total_bytes, block_size);
            }
        }
    }
}

/// A larger disk, in the same blocks, never gets a geometry that describes less,
/// as far as both have the same heads and sectors.
pub proof fn law_more_bytes_are_no_fewer_cylinders(a: u64, b: u64, block_size: usize)
    requires
        a <= b,
    ensures
        match (geometry::geometry_of(a, block_size), geometry::geometry_of(b, block_size)) {
            (Ok(g), Ok(h)) => g.heads == h.heads && g.sectors == h.sectors ==> g.cylinders
                <= h.cylinders,
            _ => true,
        },
{
    law_best_conventional_geometry_is_chosen(a, block_size);
    law_best_conventional_geometry_is_chosen(b, block_size);
    if let (Ok(g), Ok(h)) = (
        geometry::geometry_of(a, block_size),
        geometry::geometry_of(b, block_size),
    ) {
        if g.heads == h.heads && g.sectors == h.sectors && g.cylinders > h.cylinders {
            let per = g.heads * g.sectors;
            let bs = block_size as int;
            assert(g.cylinders * per * bs >= h.cylinders * per * bs + per * bs) by (
            nonlinear_arith)
                requires
                    g.cylinders >= h.cylinders + 1,
                    per >= 0,
                    bs > 0,
            ;
        }
    }
}

/// A geometry describes as many blocks as its cylinders have, each of as many as
/// there are heads and sectors, and as many bytes as these have, as far as 64
/// bits go.
pub proof fn law_geometry_describes_its_blocks(g: Geometry)
    ensures
        g.blocks_per_cylinder() == g.heads * g.sectors,
        g.cylinders * g.heads * g.sectors <= u64::MAX ==> g.blocks_in_all() == g.cylinders * g.heads
            * g.sectors,
        g.cylinders * g.heads * g.sectors > u64::MAX ==> g.blocks_in_all() == u64::MAX,
        g.blocks_in_all() * g.block_size <= u64::MAX ==> g.bytes_in_all() == g.blocks_in_all()
            * g.block_size,
        g.blocks_in_all() * g.block_size > u64::MAX ==> g.bytes_in_all() == u64::MAX,
{
    assert(g.cylinders * (g.heads * g.sectors) == g.cylinders * g.heads * g.sectors)
        by (nonlinear_arith);
    assert(g.cylinders * g.heads * g.sectors >= 0) by (nonlinear_arith);
    let n = g.blocks_in_all();
    assert(n * g.block_size >= 0) by (nonlinear_arith);
}

} // verus!
