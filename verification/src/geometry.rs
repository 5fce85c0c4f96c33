//! Drive geometry: cylinders, heads and sectors for a disk of a given size.
//!
//! Geometry is a fiction on any modern medium, but the format has no other way
//! to say where a partition starts, so some triple has to be chosen. Two
//! candidates are generated and the one that wastes fewer bytes is taken, the
//! first winning an exact tie.
use vstd::arithmetic::div_mod::*;
use vstd::arithmetic::mul::*;
use vstd::prelude::*;

use crate::arith;
use crate::text;
use crate::text::{put, put_number};
use crate::bytes;
use crate::bytes::block_size_ok;

verus! {

/// Sectors per track of the first candidate: the largest a six-bit sector
/// field holds.
pub const PC_SECTORS: u64 = 63;

/// Heads of the first candidate past the last row of its table.
pub const PC_HEADS_ABOVE: u64 = 256;

/// Blocks per track of the second candidate.
pub const AMIGA_SECTORS: u64 = 32;

/// The cylinder ceiling the second candidate halves down to.
pub const MAX_CYLINDERS: u64 = 65535;

/// A drive geometry: the triple a `RDSK` block stores in
/// `rdb_Cylinders`/`rdb_Heads`/`rdb_Sectors`, and the block size it is in.
#[derive(Debug, Clone, Copy, PartialEq, Eq, Structural)]
pub struct Geometry {
    /// `rdb_Cylinders`.
    pub cylinders: u32,
    /// `rdb_Heads`: surfaces per cylinder.
    pub heads: u32,
    /// `rdb_Sectors`: device blocks per track.
    pub sectors: u32,
    /// Bytes per device block.
    pub block_size: usize,
}

impl Geometry {
    /// Blocks in a cylinder.
    pub open spec fn blocks_per_cylinder(self) -> int {
        self.heads * self.sectors
    }

    /// Blocks in all, saturating.
    pub open spec fn blocks_in_all(self) -> u64 {
        arith::saturated(self.cylinders * self.blocks_per_cylinder())
    }

    /// Bytes in all, saturating.
    pub open spec fn bytes_in_all(self) -> u64 {
        arith::saturated(self.blocks_in_all() * self.block_size)
    }

    /// Device blocks per cylinder: `heads * sectors`.
    pub fn cylinder_blocks(&self) -> (r: u64)
        ensures
            r == self.blocks_per_cylinder(),
    {
        arith::mul32(self.heads, self.sectors)
    }

    /// Device blocks the whole geometry describes, saturating.
    pub fn total_blocks(&self) -> (r: u64)
        ensures
            r == self.blocks_in_all(),
    {
        arith::sat_mul(self.cylinders as u64, self.cylinder_blocks())
    }

    /// Bytes the whole geometry describes, saturating.
    pub fn total_bytes(&self) -> (r: u64)
        ensures
            r == self.bytes_in_all(),
    {
        arith::sat_mul(self.total_blocks(), self.block_size as u64)
    }
}

/// Why [`synthesize_geometry`] could not produce a geometry.
#[derive(Debug, Clone, Copy, PartialEq, Eq, Structural)]
pub enum GeometryError {
    /// `block_size` is not a power of two in the supported range.
    UnsupportedBlockSize {
        /// The block size asked for.
        block_size: usize,
    },
    /// The disk is smaller than one cylinder of the smallest geometry.
    TooSmall {
        /// The size asked for.
        total_bytes: u64,
        /// The block size asked for.
        block_size: usize,
        /// The smallest size that does yield a geometry, in bytes.
        minimum_bytes: u64,
    },
    /// No candidate geometry's fields fit the format's 32-bit longwords.
    TooLarge {
        /// The size asked for.
        total_bytes: u64,
        /// The block size asked for.
        block_size: usize,
    },
}

impl GeometryError {
    /// The line [`message`](Self::message) gives.
    pub open spec fn line(self) -> Seq<char> {
        match self {
            GeometryError::UnsupportedBlockSize { block_size } => "unsupported device block size "@
                + text::decimal(block_size as int) + ": must be a power of two in 512..=32768"@,
            GeometryError::TooSmall { total_bytes, block_size, minimum_bytes } => text::decimal(total_bytes as int)
                + " bytes is too small for a geometry in "@ + text::decimal(block_size as int)
                + "-byte blocks: at least "@ + text::decimal(minimum_bytes as int)
                + " bytes are needed for one cylinder"@,
            GeometryError::TooLarge { total_bytes, block_size } => text::decimal(total_bytes as int)
                + " bytes in "@ + text::decimal(block_size as int)
                + "-byte blocks exceeds what the RDB's 32-bit geometry fields can describe"@,
        }
    }

    /// One line a user can act on.
    pub fn message(&self) -> (s: String)
        ensures
            s@ == self.line(),
    {
        let mut s: String = String::new();
        match self {
            GeometryError::UnsupportedBlockSize { block_size } => {
                put(&mut s, "unsupported device block size ");
                put_number(&mut s, *block_size as u64);
                put(&mut s, ": must be a power of two in 512..=32768");
            },
            GeometryError::TooSmall { total_bytes, block_size, minimum_bytes } => {
                put_number(&mut s, *total_bytes as u64);
                put(&mut s, " bytes is too small for a geometry in ");
                put_number(&mut s, *block_size as u64);
                put(&mut s, "-byte blocks: at least ");
                put_number(&mut s, *minimum_bytes as u64);
                put(&mut s, " bytes are needed for one cylinder");
            },
            GeometryError::TooLarge { total_bytes, block_size } => {
                put_number(&mut s, *total_bytes as u64);
                put(&mut s, " bytes in ");
                put_number(&mut s, *block_size as u64);
                put(&mut s, "-byte blocks exceeds what the RDB's 32-bit geometry fields can describe");
            },
        }
        assert(s@ =~= self.line());
        s
    }
}

/// The geometry, where it describes something and its fields and the blocks
/// per cylinder fit 32 bits.
pub open spec fn representable_geometry(
    cylinders: int,
    heads: int,
    sectors: int,
    block_size: usize,
) -> Option<Geometry> {
    if 0 < cylinders <= u32::MAX && 0 <= heads <= u32::MAX && 0 <= sectors <= u32::MAX && heads
        * sectors <= u32::MAX {
        Some(
            Geometry {
                cylinders: cylinders as u32,
                heads: heads as u32,
                sectors: sectors as u32,
                block_size,
            },
        )
    } else {
        None
    }
}

/// Heads of the first candidate, from the size in bytes.
pub open spec fn pc_heads(total_bytes: u64) -> int {
    let kib = total_bytes / 1024;
    if kib <= 504 * 1024 {
        16
    } else if kib <= 1008 * 1024 {
        32
    } else if kib <= 2016 * 1024 {
        64
    } else if kib <= 4032 * 1024 {
        128
    } else {
        PC_HEADS_ABOVE as int
    }
}

/// The first candidate: 63 sectors, heads from the table.
pub open spec fn pc_candidate(total_bytes: u64, block_size: usize) -> Option<Geometry> {
    representable_geometry(
        (total_bytes as int / block_size as int) / (pc_heads(total_bytes) * PC_SECTORS),
        pc_heads(total_bytes),
        PC_SECTORS as int,
        block_size,
    )
}

/// Halve the cylinders and double the heads until the ceiling is met.
pub open spec fn halved(cylinders: int, heads: int) -> (int, int)
    decreases cylinders,
{
    if cylinders > MAX_CYLINDERS {
        halved(cylinders / 2, heads * 2)
    } else {
        (cylinders, heads)
    }
}

/// The second candidate: 32 sectors and one head, halved down to the ceiling.
pub open spec fn amiga_candidate(total_bytes: u64, block_size: usize) -> Option<Geometry> {
    let (cylinders, heads) = halved(
        (total_bytes as int / block_size as int) / (AMIGA_SECTORS as int),
        1,
    );
    representable_geometry(cylinders, heads, AMIGA_SECTORS as int, block_size)
}

/// The candidate that leaves fewer bytes undescribed; the first on a tie.
pub open spec fn less_wasteful(
    total_bytes: u64,
    first: Option<Geometry>,
    second: Option<Geometry>,
) -> Option<Geometry> {
    match (first, second) {
        (Some(a), Some(b)) => if total_bytes - b.bytes_in_all() < total_bytes - a.bytes_in_all() {
            Some(b)
        } else {
            Some(a)
        },
        (Some(a), None) => Some(a),
        (None, b) => b,
    }
}

/// The geometry of a disk of `total_bytes` in `block_size`-byte blocks, or why
/// it has none.
pub open spec fn geometry_of(total_bytes: u64, block_size: usize) -> Result<
    Geometry,
    GeometryError,
> {
    if !bytes::supported_block_size(block_size as int) {
        Err(GeometryError::UnsupportedBlockSize { block_size })
    } else if (total_bytes as int / block_size as int) < AMIGA_SECTORS {
        Err(
            GeometryError::TooSmall {
                total_bytes,
                block_size,
                minimum_bytes: (AMIGA_SECTORS * block_size) as u64,
            },
        )
    } else {
        match less_wasteful(
            total_bytes,
            pc_candidate(total_bytes, block_size),
            amiga_candidate(total_bytes, block_size),
        ) {
            Some(g) => Ok(g),
            None => Err(GeometryError::TooLarge { total_bytes, block_size }),
        }
    }
}

/// Halving keeps the cylinder count the floor of the blocks over the blocks
/// per cylinder.
proof fn lemma_halved(blocks: int, cylinders: int, heads: int)
    requires
        blocks >= 0,
        heads >= 1,
        cylinders == blocks / (AMIGA_SECTORS * heads),
    ensures
        halved(cylinders, heads).1 >= 1,
        halved(cylinders, heads).0 == blocks / (AMIGA_SECTORS * halved(cylinders, heads).1),
    decreases cylinders,
{
    if cylinders > MAX_CYLINDERS {
        lemma_div_denominator(blocks, AMIGA_SECTORS * heads, 2);
        assert((AMIGA_SECTORS * heads) * 2 == AMIGA_SECTORS * (heads * 2)) by (nonlinear_arith);
        lemma_halved(blocks, cylinders / 2, heads * 2);
    }
}

/// A geometry whose cylinder count is the floor of the blocks over its
/// cylinder describes at most the disk, and all of it but part of a cylinder.
proof fn lemma_floored_geometry(total_bytes: u64, g: Geometry)
    requires
        g.block_size > 0,
        g.blocks_per_cylinder() > 0,
        g.cylinders == (total_bytes as int / g.block_size as int) / g.blocks_per_cylinder(),
    ensures
        g.bytes_in_all() == g.cylinders * g.blocks_per_cylinder() * g.block_size,
        g.bytes_in_all() <= total_bytes,
        total_bytes - g.bytes_in_all() < g.blocks_per_cylinder() * g.block_size,
{
    let bs = g.block_size as int;
    let cb = g.blocks_per_cylinder();
    let blocks = total_bytes as int / bs;
    let cyls = g.cylinders as int;
    lemma_fundamental_div_mod(total_bytes as int, bs);
    lemma_fundamental_div_mod(blocks, cb);
    lemma_mod_bound(total_bytes as int, bs);
    lemma_mod_bound(blocks, cb);
    let r = total_bytes as int % bs;
    let q = blocks % cb;
    assert(cyls * cb <= blocks) by {
        lemma_mul_is_commutative(cyls, cb);
    }
    assert(bs * blocks <= total_bytes);
    assert(blocks <= total_bytes) by (nonlinear_arith)
        requires
            bs * blocks <= total_bytes,
            bs >= 1,
            blocks >= 0,
    ;
    assert(0 <= cyls * cb) by (nonlinear_arith)
        requires
            cyls >= 0,
            cb >= 0,
    ;
    assert(g.blocks_in_all() == cyls * cb);
    assert((cyls * cb) * bs <= bs * blocks) by (nonlinear_arith)
        requires
            cyls * cb <= blocks,
            bs >= 1,
    ;
    assert(0 <= (cyls * cb) * bs) by (nonlinear_arith)
        requires
            0 <= cyls * cb,
            bs >= 1,
    ;
    assert(g.bytes_in_all() == (cyls * cb) * bs);
    assert(total_bytes - (cyls * cb) * bs < cb * bs) by (nonlinear_arith)
        requires
            total_bytes == bs * blocks + r,
            blocks == cb * cyls + q,
            q <= cb - 1,
            r < bs,
            bs >= 1,
    ;
}

/// Both candidates describe at most the disk asked for and fall short of it by
/// less than one of their cylinders.
proof fn lemma_candidates(total_bytes: u64, block_size: usize)
    requires
        block_size > 0,
    ensures
        match pc_candidate(total_bytes, block_size) {
            Some(g) => {
                &&& g.bytes_in_all() == g.cylinders * g.blocks_per_cylinder() * g.block_size
                &&& g.bytes_in_all() <= total_bytes
                &&& total_bytes - g.bytes_in_all() < g.blocks_per_cylinder() * g.block_size
                &&& g.block_size == block_size
            },
            None => true,
        },
        match amiga_candidate(total_bytes, block_size) {
            Some(g) => {
                &&& g.bytes_in_all() == g.cylinders * g.blocks_per_cylinder() * g.block_size
                &&& g.bytes_in_all() <= total_bytes
                &&& total_bytes - g.bytes_in_all() < g.blocks_per_cylinder() * g.block_size
                &&& g.block_size == block_size
            },
            None => true,
        },
{
    if let Some(g) = pc_candidate(total_bytes, block_size) {
        lemma_floored_geometry(total_bytes, g);
    }
    let blocks = total_bytes as int / block_size as int;
    lemma_div_pos_is_pos(total_bytes as int, block_size as int);
    lemma_halved(blocks, blocks / (AMIGA_SECTORS as int), 1);
    if let Some(g) = amiga_candidate(total_bytes, block_size) {
        let (cylinders, heads) = halved(blocks / (AMIGA_SECTORS as int), 1);
        assert(AMIGA_SECTORS * heads == heads * AMIGA_SECTORS);
        lemma_floored_geometry(total_bytes, g);
    }
}

/// A synthesized geometry describes at most the disk asked for, and all of it
/// but less than one cylinder. A partition's last cylinder is therefore never
/// past the end of the medium.
pub proof fn law_geometry_rounds_down(total_bytes: u64, block_size: usize)
    ensures
        match geometry_of(total_bytes, block_size) {
            Ok(g) => {
                &&& g.block_size == block_size
                &&& g.bytes_in_all() == g.cylinders * g.blocks_per_cylinder() * g.block_size
                &&& g.bytes_in_all() <= total_bytes
                &&& total_bytes - g.bytes_in_all() < g.blocks_per_cylinder() * block_size
            },
            Err(_) => true,
        },
{
    if block_size > 0 {
        lemma_candidates(total_bytes, block_size);
    }
}

/// The heads and sectors of the first candidate do not depend on the block size.
pub proof fn law_head_table_ignores_block_size(total_bytes: u64, a: usize, b: usize)
    ensures
        match (pc_candidate(total_bytes, a), pc_candidate(total_bytes, b)) {
            (Some(g), Some(h)) => g.heads == h.heads && g.sectors == h.sectors,
            _ => true,
        },
{
}

/// Choose a cylinders/heads/sectors geometry for a disk of `total_bytes` in
/// `block_size`-byte device blocks.
///
/// Both candidates round the cylinder count down, so a geometry describes at
/// most the size asked for. A candidate whose fields do not fit 32 bits is
/// discarded rather than truncated.
pub fn synthesize_geometry(total_bytes: u64, block_size: usize) -> (r: Result<
    Geometry,
    GeometryError,
>)
    ensures
        r == geometry_of(total_bytes, block_size),
{
    if !block_size_ok(block_size) {
        return Err(GeometryError::UnsupportedBlockSize { block_size });
    }
    proof {
        lemma_candidates(total_bytes, block_size);
    }
    let bs: u64 = block_size as u64;
    let total_blocks: u64 = total_bytes / bs;
    let minimum_bytes: u64 = AMIGA_SECTORS * bs;
    if total_blocks < AMIGA_SECTORS {
        return Err(GeometryError::TooSmall { total_bytes, block_size, minimum_bytes });
    }
    let pc = pc_geometry(total_bytes, total_blocks, block_size);
    let amiga = amiga_geometry(total_blocks, block_size);
    let best = match (pc, amiga) {
        (Some(a), Some(b)) => if total_bytes - b.total_bytes() < total_bytes - a.total_bytes() {
            Some(b)
        } else {
            Some(a)
        },
        (Some(a), None) => Some(a),
        (None, b) => b,
    };
    match best {
        Some(g) => Ok(g),
        None => Err(GeometryError::TooLarge { total_bytes, block_size }),
    }
}

/// The first candidate: 63 sectors, heads from the table.
fn pc_geometry(total_bytes: u64, total_blocks: u64, block_size: usize) -> (r: Option<Geometry>)
    requires
        block_size > 0,
        total_blocks == total_bytes as int / block_size as int,
    ensures
        r == pc_candidate(total_bytes, block_size),
{
    let kib: u64 = total_bytes / 1024;
    let heads: u64 = if kib <= 504 * 1024 {
        16
    } else if kib <= 1008 * 1024 {
        32
    } else if kib <= 2016 * 1024 {
        64
    } else if kib <= 4032 * 1024 {
        128
    } else {
        PC_HEADS_ABOVE
    };
    let cylinders: u64 = total_blocks / (heads * PC_SECTORS);
    representable(cylinders, heads, PC_SECTORS, block_size)
}

/// The second candidate: 32 sectors, one head, halving cylinders and doubling
/// heads until the cylinder count fits the ceiling.
fn amiga_geometry(total_blocks: u64, block_size: usize) -> (r: Option<Geometry>)
    ensures
        ({
            let (cylinders, heads) = halved(total_blocks as int / (AMIGA_SECTORS as int), 1);
            r == representable_geometry(cylinders, heads, AMIGA_SECTORS as int, block_size)
        }),
{
    let mut heads: u64 = 1;
    let mut cylinders: u64 = total_blocks / AMIGA_SECTORS;
    while cylinders > MAX_CYLINDERS
        invariant
            halved(cylinders as int, heads as int) == halved(
                total_blocks as int / (AMIGA_SECTORS as int),
                1,
            ),
            cylinders * heads <= u64::MAX,
            heads >= 1,
        decreases cylinders,
    {
        assert(cylinders / 2 * (heads * 2) <= cylinders * heads && heads * 2 <= u64::MAX)
            by (nonlinear_arith)
            requires
                cylinders > MAX_CYLINDERS,
                cylinders * heads <= u64::MAX,
                MAX_CYLINDERS == 65535,
        ;
        cylinders = cylinders / 2;
        heads = heads * 2;
    }
    representable(cylinders, heads, AMIGA_SECTORS, block_size)
}

/// A candidate geometry, or `None` if it describes nothing or does not fit the
/// format's 32-bit fields.
fn representable(cylinders: u64, heads: u64, sectors: u64, block_size: usize) -> (r: Option<
    Geometry,
>)
    ensures
        r == representable_geometry(cylinders as int, heads as int, sectors as int, block_size),
{
    let max: u64 = u32::MAX as u64;
    if cylinders == 0 || cylinders > max || heads > max || sectors > max {
        return None;
    }
    match heads.checked_mul(sectors) {
        Some(blocks) if blocks <= max => Some(
            Geometry {
                cylinders: cylinders as u32,
                heads: heads as u32,
                sectors: sectors as u32,
                block_size,
            },
        ),
        _ => None,
    }
}

} // verus!
