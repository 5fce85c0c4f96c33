//! Why a request for a table is refused, and what building one changes.
use vstd::arithmetic::div_mod::*;
use vstd::arithmetic::mul::*;
use vstd::prelude::*;
use vstd::utf8::*;

use crate::geometry::Geometry;
use crate::layout::{Refusal, Request};
use crate::media::Medium;
use crate::specs::{FileSystemSpec, PartitionSpec, Placement};
use crate::{
    arith, build_laws, builder, bytes, fshd_defaults, geometry_laws, layout, layout_laws, media,
    specs,
};

verus! {

/// How many blocks the filesystems take: a header each, and as many blocks as
/// the binary fills at `payload` bytes a block.
pub open spec fn filesystem_blocks(filesystems: Seq<FileSystemSpec>, payload: int) -> int
    decreases filesystems.len(),
{
    if filesystems.len() == 0 {
        0
    } else {
        1 + (filesystems[0].binary@.len() + payload - 1) / payload + filesystem_blocks(
            filesystems.drop_first(),
            payload,
        )
    }
}

/// How many blocks the whole table takes.
pub open spec fn table_blocks(req: Request) -> int {
    1 + req.specs.len() + filesystem_blocks(req.filesystems, req.geometry.block_size - 20)
}

/// How many blocks are reserved for it: as many as asked for, or else a cylinder,
/// or the blocks up to its end and 16 more, whichever is more.
pub open spec fn reserved_blocks(req: Request) -> int {
    let cyl = req.geometry.heads * req.geometry.sectors;
    let end = req.rdsk_block + table_blocks(req) + 16;
    match req.reserved_blocks {
        Some(n) => n as int,
        None => if cyl >= end {
            cyl
        } else {
            end
        },
    }
}

/// The number, as far as 32 bits go.
pub open spec fn capped32(n: int) -> int {
    if n > 0xFFFF_FFFF {
        0xFFFF_FFFF
    } else {
        n
    }
}

/// `c` is the first cylinder past the reserved blocks.
pub open spec fn is_first_past(req: Request, c: int) -> bool {
    let cyl = req.geometry.heads * req.geometry.sectors;
    (c - 1) * cyl < reserved_blocks(req) <= c * cyl
}

proof fn lemma_filesystem_blocks_back(filesystems: Seq<FileSystemSpec>, payload: int)
    requires
        filesystems.len() > 0,
    ensures
        filesystem_blocks(filesystems, payload) == filesystem_blocks(
            filesystems.drop_last(),
            payload,
        ) + 1 + (filesystems.last().binary@.len() + payload - 1) / payload,
    decreases filesystems.len(),
{
    let rest = filesystems.drop_first();
    if filesystems.len() > 1 {
        lemma_filesystem_blocks_back(rest, payload);
        assert(rest.drop_last() =~= filesystems.drop_last().drop_first());
        assert(rest.last() == filesystems.last());
        assert(filesystems.drop_last()[0] == filesystems[0]);
    } else {
        assert(rest =~= Seq::<FileSystemSpec>::empty());
        assert(filesystems.drop_last() =~= Seq::<FileSystemSpec>::empty());
        assert(filesystem_blocks(rest, payload) == 0);
        assert(filesystem_blocks(filesystems.drop_last(), payload) == 0);
        assert(filesystems.last() == filesystems[0]);
    }
}

proof fn lemma_fs_blocks(req: Request, n: nat)
    requires
        n <= req.filesystems.len(),
    ensures
        req.fs_blocks(n) == filesystem_blocks(
            req.filesystems.take(n as int),
            req.geometry.block_size - 20,
        ),
    decreases n,
{
    let payload = req.geometry.block_size - 20;
    let some = req.filesystems.take(n as int);
    if n > 0 {
        lemma_fs_blocks(req, (n - 1) as nat);
        lemma_filesystem_blocks_back(some, payload);
        assert(some.drop_last() =~= req.filesystems.take(n - 1));
        assert(some.last() == req.filesystems[n - 1]);
    } else {
        assert(some =~= Seq::<FileSystemSpec>::empty());
    }
}

proof fn lemma_quantities(req: Request)
    ensures
        req.needed() == table_blocks(req),
        req.reserved() == reserved_blocks(req),
        req.cyl() == req.geometry.heads * req.geometry.sectors,
        req.cyl() >= 0,
        req.cyl() > 0 ==> is_first_past(req, req.lo_cylinder()),
{
    lemma_fs_blocks(req, req.filesystems.len());
    assert(req.filesystems.take(req.filesystems.len() as int) =~= req.filesystems);
    let cyl = req.cyl();
    lemma_mul_nonnegative(req.geometry.heads as int, req.geometry.sectors as int);
    if cyl > 0 {
        let up = req.reserved() + cyl - 1;
        let q = up / cyl;
        lemma_fundamental_div_mod(up, cyl);
        lemma_mod_bound(up, cyl);
        assert((q - 1) * cyl < up - cyl + 1 <= q * cyl) by (nonlinear_arith)
            requires
                up == cyl * q + up % cyl,
                0 <= up % cyl < cyl,
        ;
    }
}

/// Spec `i` asks for this name.
pub open spec fn asks_for(specs: Seq<PartitionSpec>, i: int, name: Seq<char>) -> bool {
    &&& 0 <= i < specs.len()
    &&& specs[i].name matches Some(s) && s@ == name
}

/// Which name is refused.
proof fn lemma_name(specs: Seq<PartitionSpec>, n: nat)
    requires
        n <= specs.len(),
    ensures
        match layout::name_refusal(specs, n) {
            None => true,
            Some(Refusal::InvalidName { name, max }) => {
                &&& max == 31
                &&& name.len() == 0 || encode_utf8(name).len() > 31
                &&& exists|i: int| #[trigger] asks_for(specs, i, name)
            },
            Some(Refusal::DuplicateName { name }) => exists|i: int, j: int|
                i < j && #[trigger] asks_for(specs, i, name) && #[trigger] asks_for(specs, j, name),
            Some(_) => false,
        },
    decreases n,
{
    if n > 0 {
        lemma_name(specs, (n - 1) as nat);
        let j = n - 1;
        if layout::name_refusal(specs, (n - 1) as nat) is None {
            match layout::name_refusal_at(specs, j) {
                Some(Refusal::InvalidName { name, max }) => {
                    assert(asks_for(specs, j, name));
                },
                Some(Refusal::DuplicateName { name }) => {
                    let i = choose|i: int|
                        0 <= i < specs.take(j).len() && (
                        #[trigger] specs.take(j)[i]).explicit_name() == Some(name);
                    assert(specs.take(j)[i] == specs[i]);
                    assert(asks_for(specs, i, name));
                    assert(asks_for(specs, j, name));
                },
                _ => {},
            }
        }
    }
}

/// Which placement is refused.
proof fn lemma_placement(req: Request, n: nat) -> (i: int)
    requires
        n <= req.specs.len(),
        req.placement_refusal(n) is Some,
    ensures
        0 <= i < n,
        req.placement_refusal_at(i) == req.placement_refusal(n),
        req.placement_refusal(i as nat) is None,
    decreases n,
{
    if req.placement_refusal((n - 1) as nat) is Some {
        lemma_placement(req, (n - 1) as nat)
    } else {
        n - 1
    }
}

/// Which two partitions are refused.
proof fn lemma_overlap_row(req: Request, a: int, n: int) -> (b: int)
    requires
        0 <= a,
        req.overlap_refusal_row(a, n) is Some,
    ensures
        a < b < n,
        req.overlap_refusal_of(a, b) == req.overlap_refusal_row(a, n),
    decreases n - a,
{
    if req.overlap_refusal_row(a, n - 1) is Some {
        lemma_overlap_row(req, a, n - 1)
    } else {
        n - 1
    }
}

proof fn lemma_overlap(req: Request, n: nat) -> (ab: (int, int))
    requires
        n <= req.specs.len(),
        req.overlap_refusal(n) is Some,
    ensures
        0 <= ab.0 < ab.1 < req.specs.len(),
        req.overlap_refusal_of(ab.0, ab.1) == req.overlap_refusal(n),
    decreases n,
{
    if req.overlap_refusal((n - 1) as nat) is Some {
        lemma_overlap(req, (n - 1) as nat)
    } else {
        let b = lemma_overlap_row(req, n - 1, req.specs.len() as int);
        (n - 1, b)
    }
}

/// A placement that is not refused is in its bounds.
proof fn lemma_placed(req: Request, n: nat, i: int)
    requires
        n <= req.specs.len(),
        0 <= i < n,
        req.placement_refusal(n) is None,
    ensures
        req.placement_refusal_at(i) is None,
    decreases n,
{
    if i < n - 1 {
        lemma_placed(req, (n - 1) as nat, i);
    }
}

/// What the refusal of a placement says is so.
pub open spec fn is_misplaced(req: Request, i: int, r: Refusal) -> bool {
    let g = req.geometry;
    let cylinder_bytes = g.heads * g.sectors * g.block_size;
    &&& 0 <= i < req.specs.len()
    &&& match (r, req.specs[i].placement) {
        (
            Refusal::CylindersInverted { name, low_cyl, high_cyl },
            Placement::Cylinders { low, high },
        ) => low_cyl == low && high_cyl == high && high < low,
        (
            Refusal::PartitionTooSmall { name, bytes, cylinder_bytes: least },
            Placement::Size(asked),
        ) => bytes == asked && bytes < cylinder_bytes && (cylinder_bytes <= u64::MAX ==> least
            == cylinder_bytes),
        (
            Refusal::PartitionPastEndOfDisk { name, high_cyl, last_cylinder },
            Placement::Cylinders { low, high },
        ) => high_cyl == high && low <= high && last_cylinder == g.cylinders - 1 && high
            >= g.cylinders,
        (
            Refusal::PartitionPastEndOfDisk { name, high_cyl, last_cylinder },
            Placement::Size(bytes),
        ) => last_cylinder == g.cylinders - 1 && high_cyl >= g.cylinders && bytes
            >= cylinder_bytes,
        (
            Refusal::PartitionOverlapsRdbArea { name, low_cyl, lo_cylinder },
            Placement::Cylinders { low, high },
        ) => low_cyl == low && low <= high < g.cylinders && low < lo_cylinder && is_first_past(
            req,
            lo_cylinder as int,
        ),
        _ => false,
    }
}

proof fn lemma_misplaced(req: Request, i: int)
    requires
        req.early_refusal() is None,
        req.geometry.block_size >= 512,
        0 <= i < req.specs.len(),
        req.placement_refusal_at(i) is Some,
    ensures
        is_misplaced(req, i, req.placement_refusal_at(i)->Some_0),
{
    lemma_quantities(req);
    layout_laws::lemma_lo(req);
    layout_laws::lemma_cursor(req, i as nat);
    let cyl = req.cyl();
    lemma_mul_strictly_positive(cyl, req.geometry.block_size as int);
    assert(cyl * req.geometry.block_size == req.geometry.heads * req.geometry.sectors
        * req.geometry.block_size);
    if let Placement::Size(bytes) = req.specs[i].placement {
        if bytes >= req.cylinder_bytes() {
            layout_laws::lemma_whole_cylinders(
                bytes as int,
                req.cylinder_bytes(),
                bytes as int / req.cylinder_bytes(),
            );
        }
    }
}

/// What the refusal says is so.
pub open spec fn is_reason(
    req: Request,
    block_size: usize,
    sink_blocks: Option<u64>,
    r: Refusal,
) -> bool {
    let g = req.geometry;
    let cyl = g.heads * g.sectors;
    match r {
        Refusal::UnsupportedBlockSize { block_size: size } => size == block_size
            && !geometry_laws::is_block_size(block_size),
        Refusal::BlockSizeMismatch { geometry, sink } => geometry == g.block_size && sink
            == block_size && geometry != sink,
        Refusal::EmptyGeometry { geometry } => geometry == g && (g.cylinders == 0 || cyl == 0),
        Refusal::InvalidName { name, max } => max == 31 && (name.len() == 0 || encode_utf8(
            name,
        ).len() > 31) && exists|i: int| #[trigger] asks_for(req.specs, i, name),
        Refusal::DuplicateName { name } => exists|i: int, j: int|
            i < j && #[trigger] asks_for(req.specs, i, name) && #[trigger] asks_for(
                req.specs,
                j,
                name,
            ),
        Refusal::RdbAreaTooSmall { needed, available } => {
            let total = table_blocks(req);
            let reserved = reserved_blocks(req);
            &&& available == capped32(reserved)
            &&& if total > reserved || reserved > 0xFFFF_FFFF {
                needed == capped32(total)
            } else {
                needed == capped32(req.rdsk_block + total) && req.rdsk_block + total > reserved
            }
        },
        Refusal::PartitionOverlapsRdbArea { name, low_cyl, lo_cylinder } => {
            ||| leaves_no_cylinder(req, low_cyl, lo_cylinder)
            ||| exists|i: int| #[trigger] is_misplaced(req, i, r)
        },
        Refusal::PartitionsOverlap { a_name, b_name, low_cyl, high_cyl } => {
            &&& low_cyl <= high_cyl
            &&& exists|a: int, b: int|
                {
                    &&& 0 <= a < b < req.specs.len()
                    &&& #[trigger] is_within(req, a, low_cyl, high_cyl)
                    &&& #[trigger] is_within(req, b, low_cyl, high_cyl)
                }
        },
        Refusal::SinkTooSmall { needed, available } => sink_blocks == Some(available) && (
        reserved_blocks(req) > available || exists|i: int| #[trigger]
            ends_past(req, i, available)),
        _ => exists|i: int| #[trigger] is_misplaced(req, i, r),
    }
}

/// The reserved blocks reach into the last cylinder.
pub open spec fn leaves_no_cylinder(req: Request, low_cyl: u32, lo_cylinder: u32) -> bool {
    let g = req.geometry;
    &&& low_cyl == g.cylinders - 1
    &&& (g.cylinders - 1) * (g.heads * g.sectors) < reserved_blocks(req)
    &&& lo_cylinder == 0xFFFF_FFFF || is_first_past(req, lo_cylinder as int)
}

/// The area is refused for a reason.
proof fn lemma_area_reason(req: Request, block_size: usize, sink_blocks: Option<u64>)
    requires
        req.geometry.block_size >= 512,
        req.geometry.cylinders > 0,
        req.cyl() > 0,
        req.area_refusal() is Some,
    ensures
        is_reason(req, block_size, sink_blocks, req.area_refusal()->Some_0),
{
    lemma_quantities(req);
    layout_laws::lemma_needed(req);
    let cyl = req.cyl();
    let last = req.last_cylinder();
    let c = req.lo_cylinder();
    if c > last {
        assert(last * cyl <= (c - 1) * cyl) by (nonlinear_arith)
            requires
                last <= c - 1,
                cyl >= 0,
        ;
        assert(leaves_no_cylinder(req, last as u32, arith::saturated32(c)));
    }
}

/// Two partitions are refused for a reason.
proof fn lemma_overlap_reason(req: Request, block_size: usize, sink_blocks: Option<u64>)
    requires
        req.geometry.block_size >= 512,
        req.early_refusal() is None,
        req.placement_refusal(req.specs.len()) is None,
        req.overlap_refusal(req.specs.len()) is Some,
    ensures
        is_reason(req, block_size, sink_blocks, req.overlap_refusal(req.specs.len())->Some_0),
{
    let (a, b) = lemma_overlap(req, req.specs.len());
    lemma_placed(req, req.specs.len(), a);
    lemma_placed(req, req.specs.len(), b);
    lemma_quantities(req);
    layout_laws::lemma_lo(req);
    layout_laws::lemma_cursor(req, a as nat);
    layout_laws::lemma_cursor(req, b as nat);
    let low = layout::higher(req.extent(a).0, req.extent(b).0);
    let high = if req.extent(a).1 <= req.extent(b).1 {
        req.extent(a).1
    } else {
        req.extent(b).1
    };
    assert(0 <= low <= high <= req.last_cylinder());
    lemma_within(req, a, low as u32, high as u32);
    lemma_within(req, b, low as u32, high as u32);
    let r = req.overlap_refusal_of(a, b)->Some_0;
    assert(r->PartitionsOverlap_low_cyl == low as u32);
    assert(r->PartitionsOverlap_high_cyl == high as u32);
    assert(is_within(req, a, low as u32, high as u32));
    assert(is_within(req, b, low as u32, high as u32));
}

/// A build is refused for a reason, and says which: blocks of an unsupported
/// size, or of another size than the geometry's; a geometry with no blocks; a
/// name that does not fit or that two partitions ask for; an area too small for
/// the table, or so large that no cylinder is left; a partition that is
/// inverted, smaller than a cylinder, past the end of the disk or in the area;
/// two partitions that overlap; or a target with too few blocks.
pub proof fn law_request_is_refused_for_a_reason(
    req: Request,
    block_size: usize,
    sink_blocks: Option<u64>,
)
    ensures
        req.refusal(block_size, sink_blocks) matches Some(r) ==> is_reason(
            req,
            block_size,
            sink_blocks,
            r,
        ),
{
    if geometry_laws::is_block_size(block_size) && req.geometry.block_size == block_size {
        lemma_quantities(req);
        if !req.is_empty_geometry() {
            lemma_name(req.specs, req.specs.len());
            if layout::name_refusal(req.specs, req.specs.len()) is Some {
            } else if req.area_refusal() is Some {
                lemma_area_reason(req, block_size, sink_blocks);
            } else if req.placement_refusal(req.specs.len()) is Some {
                let i = lemma_placement(req, req.specs.len());
                lemma_misplaced(req, i);
            } else if req.overlap_refusal(req.specs.len()) is Some {
                lemma_overlap_reason(req, block_size, sink_blocks);
            } else if let Some(available) = sink_blocks {
                if req.blocks_needed(req.specs.len()) > available {
                    lemma_sink(req, available, req.specs.len());
                }
            }
        }
    }
}

/// Where partition `i` was to go covers these cylinders.
pub open spec fn is_within(req: Request, i: int, low_cyl: u32, high_cyl: u32) -> bool {
    match req.specs[i].placement {
        Placement::Cylinders { low, high } => low <= low_cyl && high_cyl <= high,
        Placement::Size(bytes) => (high_cyl - low_cyl + 1) * (req.geometry.heads
            * req.geometry.sectors * req.geometry.block_size) <= bytes,
    }
}

proof fn lemma_within(req: Request, i: int, low: u32, high: u32)
    requires
        0 <= i < req.specs.len(),
        req.cyl() > 0,
        req.geometry.block_size > 0,
        req.extent(i).0 <= low <= high <= req.extent(i).1,
    ensures
        is_within(req, i, low, high),
{
    if let Placement::Size(bytes) = req.specs[i].placement {
        let each = req.cylinder_bytes();
        lemma_mul_strictly_positive(req.cyl(), req.geometry.block_size as int);
        let q = bytes as int / each;
        layout_laws::lemma_whole_cylinders(bytes as int, each, q);
        lemma_mul_inequality(high - low + 1, q, each);
    }
}

/// Partition `i` was to end past the first `available` blocks.
pub open spec fn ends_past(req: Request, i: int, available: u64) -> bool {
    &&& 0 <= i < req.specs.len()
    &&& (req.extent(i).1 + 1) * (req.geometry.heads * req.geometry.sectors) > available
    &&& req.specs[i].placement matches Placement::Cylinders { low, high } ==> req.extent(i).1
        == high
}

proof fn lemma_sink(req: Request, available: u64, n: nat)
    requires
        n <= req.specs.len(),
        req.blocks_needed(n) > available,
    ensures
        reserved_blocks(req) > available || exists|i: int| #[trigger]
            ends_past(req, i, available),
    decreases n,
{
    lemma_quantities(req);
    if n > 0 {
        if req.blocks_needed((n - 1) as nat) > available {
            lemma_sink(req, available, (n - 1) as nat);
        } else {
            assert(ends_past(req, n - 1, available));
        }
    }
}

/// Building a table changes the blocks from its `RDSK` block to its high-water
/// mark, and no other block of the medium.
pub proof fn law_build_changes_its_own_blocks(
    req: Request,
    sink_blocks: Option<u64>,
    m: Medium,
    b: u64,
)
    requires
        bytes::supported_block_size(req.geometry.block_size as int),
        req.layout_refusal(sink_blocks) is None,
        b < req.rdsk_block || b > req.layout().high_rdsk_block,
    ensures
        media::after_writes(m, req.writes()).blocks[b] == m.blocks[b],
        media::after_writes(m, req.writes()).block_size == m.block_size,
        media::after_writes(m, req.writes()).block_count == m.block_count,
{
    let n = req.filesystems.len();
    let writes = req.writes();
    let parts = req.part_writes();
    let drivers = req.fs_writes(n);
    layout_laws::lemma_lo(req);
    builder::lemma_fs_blocks_grow(req, n, n);
    build_laws::lemma_fs_places(req, n);
    media::lemma_after_writes_frame(m, writes);
    assert forall|k: int| 0 <= k < writes.len() implies (#[trigger] writes[k]).0 != b by {
        if k < parts.len() {
            assert(writes[k] == parts[k]);
        } else if k < parts.len() + drivers.len() {
            assert(writes[k] == drivers[k - parts.len()]);
        } else {
            assert(writes[k] == (req.rdsk_block as u64, req.rdsk_image()));
        }
    }
}

/// What is not asked for is what every mounter knows: an international fast file
/// system, two reserved blocks, 30 buffers, and transfers anywhere in 31 bits of
/// memory. A new disk starts at block 0, on host 7, and is the last of its chain.
pub proof fn law_defaults(placement: Placement, geometry: Geometry)
    ensures
        ({
            let p = specs::default_partition(placement);
            &&& p.placement == placement
            &&& p.name is None
            &&& !p.bootable
            &&& !p.no_automount
            &&& p.boot_pri == 0
            &&& p.dos_type == 0x444F_5303
            &&& p.size_block_longs is None
            &&& p.sec_org == 0
            &&& p.sectors_per_block == 1
            &&& p.reserved == 2
            &&& p.pre_alloc == 0
            &&& p.interleave == 0
            &&& p.num_buffers == 30
            &&& p.buf_mem_type == 0
            &&& p.max_transfer == 0x00FF_FFFF
            &&& p.mask == 0x7FFF_FFFE
        }),
        ({
            let req = builder::fresh(geometry);
            &&& req.geometry == geometry
            &&& req.rdsk_block == 0
            &&& req.reserved_blocks is None
            &&& req.flags == 7
            &&& req.host_id == 7
            &&& req.specs.len() == 0
            &&& req.filesystems.len() == 0
        }),
        fshd_defaults::HOST_ID == 0,
        fshd_defaults::FLAGS == 0,
        fshd_defaults::GLOBAL_VEC == -1,
{
}

} // verus!
