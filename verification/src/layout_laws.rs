//! What a layout promises: which requests have one, and which it is.
use vstd::arithmetic::div_mod::*;
use vstd::arithmetic::mul::*;
use vstd::prelude::*;
use vstd::utf8::*;

use crate::layout::{Layout, Request};
use crate::specs::{PartitionSpec, Placement};
use crate::{build_laws, builder, geometry_laws, image, layout, names, text};

verus! {

/// The drive name with number `n`.
pub open spec fn numbered(n: int) -> Seq<char> {
    "DH"@ + text::decimal(n)
}

/// When partition `i` is named, the name with number `m` is taken by spec `j`:
/// it asks for that name, or it comes before `i` and has it.
pub open spec fn takes(
    specs: Seq<PartitionSpec>,
    l: Layout,
    i: int,
    j: int,
    m: int,
) -> bool {
    ||| specs[j].name matches Some(s) && s@ == numbered(m)
    ||| j < i && l.partitions[j].name == numbered(m)
}

/// When partition `i` is named, the name with number `m` is taken.
pub open spec fn is_taken(specs: Seq<PartitionSpec>, l: Layout, i: int, m: int) -> bool {
    exists|j: int| 0 <= j < specs.len() && #[trigger] takes(specs, l, i, j, m)
}

/// Partition `i` has the name with number `n`, the lowest that is not taken.
pub open spec fn has_number(specs: Seq<PartitionSpec>, l: Layout, i: int, n: int) -> bool {
    &&& 0 <= n
    &&& l.partitions[i].name == numbered(n)
    &&& !is_taken(specs, l, i, n)
    &&& forall|m: int| 0 <= m < n ==> #[trigger] is_taken(specs, l, i, m)
}

/// Partition `i` is named as it asked, with a name that fits and that no spec
/// before it asks for; or it asked for none, and has the lowest number that is
/// left.
pub open spec fn named(specs: Seq<PartitionSpec>, l: Layout, i: int) -> bool {
    match specs[i].name {
        Some(s) => {
            &&& l.partitions[i].name == s@
            &&& s@.len() > 0
            &&& encode_utf8(s@).len() <= 31
            &&& forall|j: int|
                0 <= j < i ==> ((#[trigger] specs[j]).name matches Some(t) ==> t@ != s@)
        },
        None => exists|n: int| #[trigger] has_number(specs, l, i, n),
    }
}

/// Partition `i` is on the cylinders it asked for, or on as many whole cylinders
/// as its size has, from the first one that is past the reserved area and past
/// every partition before it.
pub open spec fn placed(req: Request, l: Layout, i: int) -> bool {
    let p = l.partitions[i];
    let cyl = req.geometry.heads * req.geometry.sectors;
    let cylinder_bytes = cyl * req.geometry.block_size;
    &&& match req.specs[i].placement {
        Placement::Cylinders { low, high } => p.low_cyl == low && p.high_cyl == high,
        Placement::Size(bytes) => {
            &&& (p.high_cyl - p.low_cyl + 1) * cylinder_bytes <= bytes
            &&& bytes < (p.high_cyl - p.low_cyl + 2) * cylinder_bytes
            &&& forall|j: int| 0 <= j < i ==> (#[trigger] l.partitions[j]).high_cyl < p.low_cyl
            &&& p.low_cyl == l.lo_cylinder || exists|j: int|
                0 <= j < i && (#[trigger] l.partitions[j]).high_cyl + 1 == p.low_cyl
        },
    }
    &&& l.lo_cylinder <= p.low_cyl <= p.high_cyl < req.geometry.cylinders
    &&& p.start_lba == p.low_cyl * cyl
    &&& p.block_len == (p.high_cyl - p.low_cyl + 1) * cyl
    &&& p.part_block == req.rdsk_block + 1 + i
}

/// Filesystem `i` has as many `LSEG` blocks as its binary fills, straight after
/// its `FSHD` block, and that block comes straight after what is before it.
pub open spec fn carried(req: Request, l: Layout, i: int) -> bool {
    let f = l.filesystems[i];
    let len = req.filesystems[i].binary@.len();
    let payload = req.geometry.block_size - 20;
    &&& f.dos_type == req.filesystems[i].dos_type
    &&& len <= f.lseg_block_count * payload
    &&& f.lseg_block_count > 0 ==> (f.lseg_block_count - 1) * payload < len
    &&& f.seg_list_blocks == if len == 0 {
        0xFFFF_FFFF
    } else {
        f.fshd_block + 1
    }
    &&& f.fshd_block == if i == 0 {
        req.rdsk_block + 1 + req.specs.len()
    } else {
        l.filesystems[i - 1].fshd_block + 1 + l.filesystems[i - 1].lseg_block_count
    }
}

/// The last block the table uses.
pub open spec fn last_used(req: Request, l: Layout) -> int {
    if req.filesystems.len() == 0 {
        req.rdsk_block + req.specs.len()
    } else {
        let f = l.filesystems[req.filesystems.len() - 1];
        f.fshd_block + f.lseg_block_count
    }
}

/// The reserved area, from block 0: as large as asked for, or else one cylinder,
/// or what the table uses and 16 blocks more, whichever is larger; and no smaller
/// than what the table uses. The partitions start on the first cylinder past it.
pub open spec fn reserves(req: Request, l: Layout) -> bool {
    let cyl = req.geometry.heads * req.geometry.sectors;
    &&& l.rdb_blocks_lo == 0
    &&& l.high_rdsk_block == last_used(req, l)
    &&& l.high_rdsk_block <= l.rdb_blocks_hi < 0xFFFF_FFFF
    &&& match req.reserved_blocks {
        Some(n) => l.rdb_blocks_hi + 1 == n,
        None => {
            &&& l.rdb_blocks_hi + 1 >= cyl
            &&& l.rdb_blocks_hi >= l.high_rdsk_block + 16
            &&& l.rdb_blocks_hi + 1 == cyl || l.rdb_blocks_hi == l.high_rdsk_block + 16
        },
    }
    &&& l.rdb_blocks_hi < l.lo_cylinder * cyl
    &&& (l.lo_cylinder - 1) * cyl <= l.rdb_blocks_hi
    &&& l.lo_cylinder <= l.hi_cylinder
    &&& l.hi_cylinder == req.geometry.cylinders - 1
}

/// `l` is a layout of the request on a target of `sink_blocks` blocks: everything
/// that was asked for has a place, and nothing shares one.
pub open spec fn is_layout(req: Request, l: Layout, sink_blocks: Option<u64>) -> bool {
    &&& req.geometry.cylinders > 0
    &&& req.geometry.heads * req.geometry.sectors > 0
    &&& l.geometry == req.geometry
    &&& l.rdsk_block == req.rdsk_block
    &&& l.partitions.len() == req.specs.len()
    &&& l.filesystems.len() == req.filesystems.len()
    &&& reserves(req, l)
    &&& forall|i: int| 0 <= i < req.filesystems.len() ==> #[trigger] carried(req, l, i)
    &&& forall|i: int| 0 <= i < req.specs.len() ==> #[trigger] named(req.specs, l, i)
    &&& forall|i: int| 0 <= i < req.specs.len() ==> #[trigger] placed(req, l, i)
    &&& forall|i: int, j: int|
        0 <= i < j < req.specs.len() ==> (#[trigger] l.partitions[i]).high_cyl
            < (#[trigger] l.partitions[j]).low_cyl || l.partitions[j].high_cyl
            < l.partitions[i].low_cyl
    &&& sink_blocks matches Some(n) ==> l.rdb_blocks_hi < n
    &&& sink_blocks matches Some(n) ==> forall|i: int|
        0 <= i < req.specs.len() ==> (#[trigger] l.partitions[i]).start_lba
            + l.partitions[i].block_len <= n
}

/// The number of pieces is the one there is.
proof fn lemma_count(len: nat, size: int, n: int)
    requires
        size > 0,
        n >= 0,
        len <= n * size,
        n > 0 ==> (n - 1) * size < len,
    ensures
        n == image::piece_count(len, size),
{
    let c = image::piece_count(len, size);
    lemma_fundamental_div_mod(len + size - 1, size);
    lemma_mod_bound(len + size - 1, size);
    assert(n == c) by (nonlinear_arith)
        requires
            len + size - 1 == size * c + (len + size - 1) % size,
            0 <= (len + size - 1) % size < size,
            len <= n * size,
            n > 0 ==> (n - 1) * size < len,
            n >= 0,
            size > 0,
            len >= 0,
    ;
}

/// And it is such a number.
pub proof fn lemma_is_count(len: nat, size: int)
    requires
        size > 0,
    ensures
        ({
            let n = image::piece_count(len, size);
            &&& n >= 0
            &&& len <= n * size
            &&& n > 0 ==> (n - 1) * size < len
            &&& n == 0 <==> len == 0
        }),
{
    let n = image::piece_count(len, size);
    lemma_fundamental_div_mod(len + size - 1, size);
    lemma_mod_bound(len + size - 1, size);
    lemma_div_pos_is_pos(len + size - 1, size);
    assert(len <= n * size && (n > 0 ==> (n - 1) * size < len) && (n == 0 <==> len == 0)) by (
    nonlinear_arith)
        requires
            len + size - 1 == size * n + (len + size - 1) % size,
            0 <= (len + size - 1) % size < size,
            n >= 0,
            size > 0,
            len >= 0,
    ;
}

/// A number below the cursor has been taken.
proof fn lemma_below_cursor(req: Request, i: nat, m: int)
    requires
        i <= req.specs.len(),
        0 <= m < layout::number_cursor(req.specs, i),
    ensures
        is_taken(req.specs, req.layout(), i as int, m),
    decreases i,
{
    let specs = req.specs;
    let l = req.layout();
    let j = i - 1;
    if specs[j].name is Some {
        lemma_below_cursor(req, j as nat, m);
        let k = choose|k: int| 0 <= k < specs.len() && #[trigger] takes(specs, l, j, k, m);
        assert(takes(specs, l, i as int, k, m));
    } else {
        builder::lemma_number_is_free(specs, j);
        let from = layout::number_cursor(specs, j as nat);
        let n = names::first_free(layout::explicit_names(specs), from);
        if m == n {
            assert(l.partitions[j].name == numbered(m));
            assert(takes(specs, l, i as int, j, m));
        } else if m >= from {
            lemma_asked(req, i as int, m);
        } else {
            lemma_below_cursor(req, j as nat, m);
            let k = choose|k: int| 0 <= k < specs.len() && #[trigger] takes(specs, l, j, k, m);
            assert(takes(specs, l, i as int, k, m));
        }
    }
}

/// A name that is asked for is taken.
proof fn lemma_asked(req: Request, i: int, m: int)
    requires
        layout::explicit_names(req.specs).contains(names::dh(m)),
    ensures
        is_taken(req.specs, req.layout(), i, m),
{
    let specs = req.specs;
    let k = choose|k: int|
        0 <= k < specs.len() && (#[trigger] specs[k]).explicit_name() == Some(names::dh(m));
    assert(takes(specs, req.layout(), i, k, m));
}

/// The names of the layout are as promised.
proof fn lemma_named(req: Request, i: int)
    requires
        layout::name_refusal(req.specs, req.specs.len()) is None,
        0 <= i < req.specs.len(),
    ensures
        named(req.specs, req.layout(), i),
{
    let specs = req.specs;
    let l = req.layout();
    builder::lemma_no_name_refusal(specs, specs.len(), i);
    match specs[i].name {
        Some(s) => {
            assert forall|j: int| 0 <= j < i implies ((
            #[trigger] specs[j]).name matches Some(t) ==> t@ != s@) by {
                assert(specs.take(i)[j] == specs[j]);
            }
        },
        None => {
            builder::lemma_number_is_free(specs, i);
            let from = layout::number_cursor(specs, i as nat);
            let n = names::first_free(layout::explicit_names(specs), from);
            if is_taken(specs, l, i, n) {
                let j = choose|j: int| 0 <= j < specs.len() && #[trigger] takes(specs, l, i, j, n);
                assert(layout::explicit_names(specs).contains(names::dh(n)) || j < i);
                lemma_earlier_number(specs, j, i, n);
            }
            assert forall|m: int| 0 <= m < n implies #[trigger] is_taken(specs, l, i, m) by {
                if m >= from {
                    lemma_asked(req, i, m);
                } else {
                    lemma_below_cursor(req, i as nat, m);
                }
            }
            assert(has_number(specs, l, i, n));
        },
    }
}

/// A number that a partition is given is not that of one before it.
proof fn lemma_earlier_number(specs: Seq<PartitionSpec>, j: int, i: int, n: int)
    requires
        0 <= j < specs.len(),
        0 <= i < specs.len(),
        specs[i].name is None,
        n == names::first_free(
            layout::explicit_names(specs),
            layout::number_cursor(specs, i as nat),
        ),
    ensures
        specs[j].explicit_name() != Some(names::dh(n)),
        j < i ==> layout::name_of(specs, j) != names::dh(n),
{
    builder::lemma_number_is_free(specs, i);
    if specs[j].explicit_name() == Some(names::dh(n)) {
        assert(layout::explicit_names(specs).contains(names::dh(n)));
    }
    if j < i && specs[j].name is None {
        builder::lemma_number_is_free(specs, j);
        lemma_cursor_grows(specs, j as nat, i as nat);
        let k = names::first_free(
            layout::explicit_names(specs),
            layout::number_cursor(specs, j as nat),
        );
        if names::dh(k) == names::dh(n) {
            names::lemma_dh_injective(k, n);
        }
    }
}

/// The cursor passes every number that is given.
proof fn lemma_cursor_grows(specs: Seq<PartitionSpec>, j: nat, i: nat)
    requires
        j < i <= specs.len(),
        specs[j as int].name is None,
    ensures
        names::first_free(layout::explicit_names(specs), layout::number_cursor(specs, j))
            < layout::number_cursor(specs, i),
    decreases i,
{
    if j + 1 < i {
        lemma_cursor_grows(specs, j, (i - 1) as nat);
        if specs[i - 1].name is None {
            builder::lemma_number_is_free(specs, i - 1);
        }
    }
}

/// The cursor is the first cylinder past the area and past every partition
/// before it.
pub proof fn lemma_cursor(req: Request, i: nat)
    requires
        i <= req.specs.len(),
    ensures
        req.cursor(i) >= req.lo_cylinder(),
        forall|j: int| 0 <= j < i ==> (#[trigger] req.extent(j)).1 < req.cursor(i),
        req.cursor(i) == req.lo_cylinder() || exists|j: int|
            0 <= j < i && (#[trigger] req.extent(j)).1 + 1 == req.cursor(i),
    decreases i,
{
    if i > 0 {
        let k = (i - 1) as nat;
        lemma_cursor(req, k);
        assert(req.extent(k as int) == req.extent_from(k as int, req.cursor(k)));
        if req.cursor(i) == req.cursor(k) {
            if req.cursor(k) != req.lo_cylinder() {
                let j = choose|j: int| 0 <= j < k && (#[trigger] req.extent(j)).1 + 1
                    == req.cursor(k);
                assert(req.extent(j).1 + 1 == req.cursor(i));
            }
        } else {
            assert(req.extent(k as int).1 + 1 == req.cursor(i));
        }
    }
}

/// As many whole cylinders as a size has.
pub proof fn lemma_whole_cylinders(bytes: int, each: int, n: int)
    requires
        each > 0,
        bytes >= 0,
    ensures
        n == bytes / each <==> n * each <= bytes < (n + 1) * each,
{
    let q = bytes / each;
    lemma_fundamental_div_mod(bytes, each);
    lemma_mod_bound(bytes, each);
    assert(n == q <==> n * each <= bytes < (n + 1) * each) by (nonlinear_arith)
        requires
            bytes == each * q + bytes % each,
            0 <= bytes % each < each,
            each > 0,
    ;
}

/// Every partition of the layout is on the disk, past the area.
proof fn lemma_bounds(req: Request, sink_blocks: Option<u64>, i: int)
    requires
        req.layout_refusal(sink_blocks) is None,
        req.geometry.block_size >= 512,
        0 <= i < req.specs.len(),
    ensures
        req.lo_cylinder() <= req.extent(i).0 <= req.extent(i).1 <= req.last_cylinder(),
        req.cyl() > 0,
        req.cylinder_bytes() > 0,
        req.placement_refusal(i as nat) is None,
        req.placement_refusal_at(i) is None,
        0 <= req.lo_cylinder(),
        req.layout().partitions[i].low_cyl == req.extent(i).0,
        req.layout().partitions[i].high_cyl == req.extent(i).1,
        req.layout().lo_cylinder == req.lo_cylinder(),
{
    lemma_mul_nonnegative(req.geometry.heads as int, req.geometry.sectors as int);
    lemma_mul_strictly_positive(req.cyl(), req.geometry.block_size as int);
    builder::lemma_placed_in_bounds(req, req.specs.len(), i);
    lemma_lo(req);
}

/// A partition of a size starts where the ones before it end, and has as many
/// cylinders as its size has.
proof fn lemma_packed(req: Request, sink_blocks: Option<u64>, i: int, bytes: u64)
    requires
        req.layout_refusal(sink_blocks) is None,
        req.geometry.block_size >= 512,
        0 <= i < req.specs.len(),
        req.specs[i].placement == Placement::Size(bytes),
    ensures
        ({
            let l = req.layout();
            let p = l.partitions[i];
            &&& (p.high_cyl - p.low_cyl + 1) * req.cylinder_bytes() <= bytes
            &&& bytes < (p.high_cyl - p.low_cyl + 2) * req.cylinder_bytes()
            &&& forall|j: int| 0 <= j < i ==> (#[trigger] l.partitions[j]).high_cyl < p.low_cyl
            &&& p.low_cyl == l.lo_cylinder || exists|j: int|
                0 <= j < i && (#[trigger] l.partitions[j]).high_cyl + 1 == p.low_cyl
        }),
{
    let l = req.layout();
    let (low, high) = req.extent(i);
    lemma_bounds(req, sink_blocks, i);
    lemma_cursor(req, i as nat);
    lemma_whole_cylinders(bytes as int, req.cylinder_bytes(), high - low + 1);
    assert forall|j: int| 0 <= j < i implies (#[trigger] l.partitions[j]).high_cyl < low by {
        lemma_bounds(req, sink_blocks, j);
        assert(req.extent(j).1 < req.cursor(i as nat));
    }
    if low != req.lo_cylinder() {
        let j = choose|j: int| 0 <= j < i && (#[trigger] req.extent(j)).1 + 1 == req.cursor(
            i as nat,
        );
        lemma_bounds(req, sink_blocks, j);
        assert(l.partitions[j].high_cyl + 1 == low);
    }
}

/// Every partition of the layout is placed.
proof fn lemma_placed(req: Request, sink_blocks: Option<u64>, i: int)
    requires
        req.layout_refusal(sink_blocks) is None,
        req.addresses_fit(),
        req.geometry.block_size >= 512,
        0 <= i < req.specs.len(),
    ensures
        placed(req, req.layout(), i),
        (req.extent(i).1 + 1) * req.cyl() <= u64::MAX,
{
    let cyl = req.cyl();
    let (low, high) = req.extent(i);
    lemma_bounds(req, sink_blocks, i);
    assert(req.placement_refusal_at(i) is None);
    assert((high + 1) * cyl <= u64::MAX);
    if let Placement::Size(bytes) = req.specs[i].placement {
        lemma_packed(req, sink_blocks, i, bytes);
    }
    assert(0 <= low * cyl <= (high + 1) * cyl && 0 <= (high - low + 1) * cyl <= (high + 1) * cyl)
        by (nonlinear_arith)
        requires
            0 <= low <= high,
            cyl > 0,
    ;
    lemma_lo(req);
    lemma_needed(req);
}

/// The first cylinder past the area.
pub proof fn lemma_lo(req: Request)
    requires
        req.early_refusal() is None,
        req.geometry.block_size >= 512,
    ensures
        req.cyl() > 0,
        0 <= req.lo_cylinder() <= req.last_cylinder(),
        req.reserved() <= req.lo_cylinder() * req.cyl(),
        (req.lo_cylinder() - 1) * req.cyl() < req.reserved(),
        0 < req.needed() <= req.reserved() <= u32::MAX,
        req.rdsk_block + req.needed() <= req.reserved(),
{
    let cyl = req.cyl();
    lemma_mul_nonnegative(req.geometry.heads as int, req.geometry.sectors as int);
    let r = req.reserved();
    lemma_fundamental_div_mod(r + cyl - 1, cyl);
    lemma_mod_bound(r + cyl - 1, cyl);
    let q = req.lo_cylinder();
    if r >= 0 {
        lemma_div_pos_is_pos(r + cyl - 1, cyl);
    }
    assert(r <= q * cyl && (q - 1) * cyl < r) by (nonlinear_arith)
        requires
            r + cyl - 1 == cyl * q + (r + cyl - 1) % cyl,
            0 <= (r + cyl - 1) % cyl < cyl,
            cyl > 0,
    ;
    lemma_needed(req);
}

/// A table needs at least its `RDSK` block.
pub proof fn lemma_needed(req: Request)
    requires
        req.geometry.block_size >= 512,
    ensures
        req.needed() > req.specs.len(),
{
    builder::lemma_fs_blocks_grow(req, 0, req.filesystems.len());
}

/// Every filesystem of the layout is carried.
proof fn lemma_carried(req: Request, i: int)
    requires
        req.early_refusal() is None,
        req.geometry.block_size >= 512,
        0 <= i < req.filesystems.len(),
    ensures
        carried(req, req.layout(), i),
        req.fshd_block(i) + req.lseg_count(i) < req.rdsk_block + req.needed(),
        0 <= req.lseg_count(i),
        0 <= req.fshd_block(i),
{
    let n = req.filesystems.len();
    lemma_lo(req);
    lemma_is_count(req.filesystems[i].binary@.len(), req.payload());
    builder::lemma_fs_blocks_grow(req, i as nat, n);
    if i > 0 {
        lemma_is_count(req.filesystems[i - 1].binary@.len(), req.payload());
        builder::lemma_fs_blocks_grow(req, (i - 1) as nat, n);
        assert(req.fs_blocks(i as nat) == req.fs_blocks((i - 1) as nat) + 1 + req.lseg_count(
            i - 1,
        ));
    }
}

/// A target that is large enough holds the area and every partition.
proof fn lemma_sink_holds(req: Request, n: nat, i: int)
    requires
        0 <= i < n,
    ensures
        req.reserved() <= req.blocks_needed(n),
        (req.extent(i).1 + 1) * req.cyl() <= req.blocks_needed(n),
    decreases n,
{
    lemma_area_held(req, n);
    if i < n - 1 {
        lemma_sink_holds(req, (n - 1) as nat, i);
    }
}

/// A target that is large enough holds the area.
proof fn lemma_area_held(req: Request, n: nat)
    ensures
        req.reserved() <= req.blocks_needed(n),
    decreases n,
{
    if n > 0 {
        lemma_area_held(req, (n - 1) as nat);
    }
}

/// A request that is not refused has a layout: everything it asks for gets a
/// place, each partition of a size as many whole cylinders as the size has and
/// no fewer, and nothing shares a place.
pub proof fn law_accepted_request_is_laid_out(
    req: Request,
    block_size: usize,
    sink_blocks: Option<u64>,
)
    requires
        req.refusal(block_size, sink_blocks) is None,
        req.addresses_fit(),
    ensures
        geometry_laws::is_block_size(block_size),
        req.geometry.block_size == block_size,
        is_layout(req, req.layout(), sink_blocks),
{
    let l = req.layout();
    let n = req.specs.len();
    let fs = req.filesystems.len();
    lemma_reserves(req);
    assert forall|i: int| 0 <= i < fs implies #[trigger] carried(req, l, i) by {
        lemma_carried(req, i);
    }
    assert forall|i: int| 0 <= i < n implies #[trigger] named(req.specs, l, i) by {
        lemma_named(req, i);
    }
    assert forall|i: int| 0 <= i < n implies #[trigger] placed(req, l, i) by {
        lemma_placed(req, sink_blocks, i);
    }
    assert forall|i: int, j: int| 0 <= i < j < n implies (#[trigger] l.partitions[i]).high_cyl < (
    #[trigger] l.partitions[j]).low_cyl || l.partitions[j].high_cyl < l.partitions[i].low_cyl by {
        lemma_apart(req, sink_blocks, i, j);
    }
    lemma_area_held(req, n);
    if let Some(b) = sink_blocks {
        assert(req.blocks_needed(n) <= b);
        assert forall|i: int| 0 <= i < n implies (#[trigger] l.partitions[i]).start_lba
            + l.partitions[i].block_len <= b by {
            lemma_on_sink(req, b, i);
        }
    }
}

/// No two partitions of the layout share a cylinder.
proof fn lemma_apart(req: Request, sink_blocks: Option<u64>, i: int, j: int)
    requires
        req.layout_refusal(sink_blocks) is None,
        req.geometry.block_size >= 512,
        0 <= i < j < req.specs.len(),
    ensures
        req.layout().partitions[i].high_cyl < req.layout().partitions[j].low_cyl
            || req.layout().partitions[j].high_cyl < req.layout().partitions[i].low_cyl,
{
    build_laws::law_partitions_lie_apart(req, sink_blocks, i, j);
    lemma_bounds(req, sink_blocks, i);
    lemma_bounds(req, sink_blocks, j);
}

/// A partition of the layout lies on the target.
proof fn lemma_on_sink(req: Request, blocks: u64, i: int)
    requires
        req.layout_refusal(Some(blocks)) is None,
        req.addresses_fit(),
        req.geometry.block_size >= 512,
        0 <= i < req.specs.len(),
    ensures
        req.layout().partitions[i].start_lba + req.layout().partitions[i].block_len <= blocks,
{
    lemma_placed(req, Some(blocks), i);
    lemma_bounds(req, Some(blocks), i);
    lemma_sink_holds(req, req.specs.len(), i);
    let p = req.layout().partitions[i];
    lemma_mul_is_distributive_add_other_way(
        req.cyl(),
        p.low_cyl as int,
        p.high_cyl - p.low_cyl + 1,
    );
}

/// The area of the layout is as promised.
proof fn lemma_reserves(req: Request)
    requires
        req.early_refusal() is None,
        req.geometry.block_size >= 512,
    ensures
        reserves(req, req.layout()),
        req.cyl() > 0,
        req.layout().rdb_blocks_hi + 1 == req.reserved(),
{
    let fs = req.filesystems.len();
    lemma_lo(req);
    lemma_needed(req);
    if fs > 0 {
        lemma_carried(req, fs - 1);
        assert(req.fs_blocks(fs) == req.fs_blocks((fs - 1) as nat) + 1 + req.lseg_count(fs - 1));
    }
}

/// Where the filesystems of a layout are.
proof fn lemma_fs_match(req: Request, l: Layout, sink_blocks: Option<u64>, i: int)
    requires
        is_layout(req, l, sink_blocks),
        req.geometry.block_size >= 512,
        0 <= i < req.filesystems.len(),
    ensures
        l.filesystems[i].fshd_block == req.fshd_block(i),
        l.filesystems[i].lseg_block_count == req.lseg_count(i),
        l.filesystems[i].seg_list_blocks == req.seg_list(i),
    decreases i,
{
    assert(carried(req, l, i));
    let f = l.filesystems[i];
    lemma_count(
        req.filesystems[i].binary@.len(),
        req.payload(),
        f.lseg_block_count as int,
    );
    lemma_is_count(req.filesystems[i].binary@.len(), req.payload());
    if i > 0 {
        lemma_fs_match(req, l, sink_blocks, i - 1);
        assert(req.fs_blocks(i as nat) == req.fs_blocks((i - 1) as nat) + 1 + req.lseg_count(
            i - 1,
        ));
    }
}

/// The area of a layout.
proof fn lemma_area_match(req: Request, l: Layout, sink_blocks: Option<u64>)
    requires
        is_layout(req, l, sink_blocks),
        req.geometry.block_size >= 512,
    ensures
        l.high_rdsk_block == req.rdsk_block + req.needed() - 1,
        l.rdb_blocks_hi == req.reserved() - 1,
        l.lo_cylinder == req.lo_cylinder(),
        req.cyl() > 0,
        req.area_refusal() is None,
{
    let fs = req.filesystems.len();
    let cyl = req.cyl();
    if fs > 0 {
        lemma_fs_match(req, l, sink_blocks, fs - 1);
        assert(req.fs_blocks(fs) == req.fs_blocks((fs - 1) as nat) + 1 + req.lseg_count(fs - 1));
    }
    lemma_needed(req);
    let r = req.reserved();
    let q = req.lo_cylinder();
    let c = l.lo_cylinder as int;
    lemma_fundamental_div_mod(r + cyl - 1, cyl);
    lemma_mod_bound(r + cyl - 1, cyl);
    assert(c == q) by (nonlinear_arith)
        requires
            r + cyl - 1 == cyl * q + (r + cyl - 1) % cyl,
            0 <= (r + cyl - 1) % cyl < cyl,
            cyl > 0,
            r - 1 < c * cyl,
            (c - 1) * cyl <= r - 1,
    ;
}

/// Where the partitions of a layout are.
proof fn lemma_extent_match(req: Request, l: Layout, sink_blocks: Option<u64>, i: int)
    requires
        is_layout(req, l, sink_blocks),
        req.geometry.block_size >= 512,
        0 <= i < req.specs.len(),
    ensures
        req.extent(i) == (l.partitions[i].low_cyl as int, l.partitions[i].high_cyl as int),
    decreases i,
{
    assert(placed(req, l, i));
    lemma_area_match(req, l, sink_blocks);
    lemma_cursor(req, i as nat);
    let p = l.partitions[i];
    let each = req.cylinder_bytes();
    if let Placement::Size(bytes) = req.specs[i].placement {
        lemma_mul_strictly_positive(req.cyl(), req.geometry.block_size as int);
        lemma_whole_cylinders(bytes as int, each, p.high_cyl - p.low_cyl + 1);
        let at = req.cursor(i as nat);
        assert forall|j: int| 0 <= j < i implies (#[trigger] req.extent(j)).1
            == l.partitions[j].high_cyl by {
            lemma_extent_match(req, l, sink_blocks, j);
        }
        if at != req.lo_cylinder() {
            let j = choose|j: int| 0 <= j < i && (#[trigger] req.extent(j)).1 + 1 == at;
            assert(l.partitions[j].high_cyl < p.low_cyl);
        }
        if p.low_cyl != l.lo_cylinder {
            let j = choose|j: int| 0 <= j < i && (#[trigger] l.partitions[j]).high_cyl + 1
                == p.low_cyl;
            assert(req.extent(j).1 < at);
        }
    }
}

/// No partition of a layout is refused its place.
proof fn lemma_placements_match(req: Request, l: Layout, sink_blocks: Option<u64>, n: nat)
    requires
        is_layout(req, l, sink_blocks),
        req.geometry.block_size >= 512,
        n <= req.specs.len(),
    ensures
        req.placement_refusal(n) is None,
    decreases n,
{
    if n > 0 {
        let i = n - 1;
        lemma_placements_match(req, l, sink_blocks, i as nat);
        lemma_extent_match(req, l, sink_blocks, i);
        lemma_area_match(req, l, sink_blocks);
        assert(placed(req, l, i));
        if let Placement::Size(bytes) = req.specs[i].placement {
            let each = req.cylinder_bytes();
            lemma_mul_strictly_positive(req.cyl(), req.geometry.block_size as int);
            let p = l.partitions[i];
            assert(each <= bytes) by (nonlinear_arith)
                requires
                    (p.high_cyl - p.low_cyl + 1) * each <= bytes,
                    p.high_cyl >= p.low_cyl,
                    each > 0,
            ;
        }
    }
}

/// No two partitions of a layout are refused for each other's sake.
proof fn lemma_row_match(req: Request, l: Layout, sink_blocks: Option<u64>, a: int, n: int)
    requires
        is_layout(req, l, sink_blocks),
        req.geometry.block_size >= 512,
        0 <= a < n <= req.specs.len(),
    ensures
        req.overlap_refusal_row(a, n) is None,
    decreases n - a,
{
    if n > a + 1 {
        lemma_row_match(req, l, sink_blocks, a, n - 1);
        lemma_extent_match(req, l, sink_blocks, a);
        lemma_extent_match(req, l, sink_blocks, n - 1);
        assert(l.partitions[a].high_cyl < l.partitions[n - 1].low_cyl || l.partitions[n
            - 1].high_cyl < l.partitions[a].low_cyl);
    }
}

/// The same of all of them.
proof fn lemma_rows_match(req: Request, l: Layout, sink_blocks: Option<u64>, n: nat)
    requires
        is_layout(req, l, sink_blocks),
        req.geometry.block_size >= 512,
        n <= req.specs.len(),
    ensures
        req.overlap_refusal(n) is None,
    decreases n,
{
    if n > 0 {
        lemma_rows_match(req, l, sink_blocks, (n - 1) as nat);
        lemma_row_match(req, l, sink_blocks, n - 1, req.specs.len() as int);
    }
}

/// A target that holds a layout is large enough.
proof fn lemma_sink_match(req: Request, l: Layout, blocks: u64, n: nat)
    requires
        is_layout(req, l, Some(blocks)),
        req.geometry.block_size >= 512,
        n <= req.specs.len(),
    ensures
        req.blocks_needed(n) <= blocks,
    decreases n,
{
    lemma_area_match(req, l, Some(blocks));
    if n > 0 {
        lemma_sink_match(req, l, blocks, (n - 1) as nat);
        lemma_extent_match(req, l, Some(blocks), n - 1);
        let p = l.partitions[n - 1];
        assert(placed(req, l, n - 1));
        assert(p.start_lba + p.block_len <= blocks);
        lemma_mul_is_distributive_add_other_way(
            req.cyl(),
            p.low_cyl as int,
            p.high_cyl - p.low_cyl + 1,
        );
    }
}

/// No name of a layout is refused.
proof fn lemma_names_match(req: Request, l: Layout, n: nat)
    requires
        forall|i: int| 0 <= i < req.specs.len() ==> #[trigger] named(req.specs, l, i),
        n <= req.specs.len(),
    ensures
        layout::name_refusal(req.specs, n) is None,
    decreases n,
{
    if n > 0 {
        let i = n - 1;
        let specs = req.specs;
        lemma_names_match(req, l, i as nat);
        assert(named(specs, l, i));
        if let Some(s) = specs[i].name {
            if layout::explicit_names(specs.take(i)).contains(s@) {
                let j = choose|j: int|
                    0 <= j < i && (#[trigger] specs.take(i)[j]).explicit_name() == Some(s@);
                assert(specs[j] == specs.take(i)[j]);
            }
        }
    }
}

/// The names of a layout.
proof fn lemma_name_match(req: Request, l: Layout, i: int)
    requires
        forall|i: int| 0 <= i < req.specs.len() ==> #[trigger] named(req.specs, l, i),
        0 <= i < req.specs.len(),
    ensures
        l.partitions[i].name == layout::name_of(req.specs, i),
    decreases i,
{
    let specs = req.specs;
    let k = req.layout();
    lemma_names_match(req, l, specs.len());
    assert(named(specs, l, i));
    lemma_named(req, i);
    if specs[i].name is None {
        assert forall|j: int, m: int| 0 <= j < specs.len() implies #[trigger] takes(
            specs,
            l,
            i,
            j,
            m,
        ) == takes(specs, k, i, j, m) by {
            if j < i {
                lemma_name_match(req, l, j);
            }
        }
        let a = choose|n: int| #[trigger] has_number(specs, l, i, n);
        let b = choose|n: int| #[trigger] has_number(specs, k, i, n);
        lemma_same_taken(specs, l, k, i, a);
        lemma_same_taken(specs, l, k, i, b);
        assert(a == b);
    }
}

/// What is taken depends on the names before.
proof fn lemma_same_taken(specs: Seq<PartitionSpec>, l: Layout, k: Layout, i: int, m: int)
    requires
        forall|j: int, m: int|
            0 <= j < specs.len() ==> #[trigger] takes(specs, l, i, j, m) == takes(
                specs,
                k,
                i,
                j,
                m,
            ),
    ensures
        is_taken(specs, l, i, m) == is_taken(specs, k, i, m),
{
    if is_taken(specs, l, i, m) {
        let j = choose|j: int| 0 <= j < specs.len() && #[trigger] takes(specs, l, i, j, m);
        assert(takes(specs, k, i, j, m));
    }
    if is_taken(specs, k, i, m) {
        let j = choose|j: int| 0 <= j < specs.len() && #[trigger] takes(specs, k, i, j, m);
        assert(takes(specs, l, i, j, m));
    }
}

/// A request that has a layout is not refused, and the layout it gets is that
/// one: there is no other.
pub proof fn law_request_with_a_layout_is_accepted(
    req: Request,
    block_size: usize,
    sink_blocks: Option<u64>,
    l: Layout,
)
    requires
        geometry_laws::is_block_size(block_size),
        req.geometry.block_size == block_size,
        is_layout(req, l, sink_blocks),
    ensures
        req.refusal(block_size, sink_blocks) is None,
        req.layout() == l,
{
    let k = req.layout();
    let n = req.specs.len();
    lemma_area_match(req, l, sink_blocks);
    lemma_names_match(req, l, n);
    lemma_placements_match(req, l, sink_blocks, n);
    lemma_rows_match(req, l, sink_blocks, n);
    if let Some(b) = sink_blocks {
        lemma_sink_match(req, l, b, n);
    }
    assert forall|i: int| 0 <= i < n implies k.partitions[i] == l.partitions[i] by {
        lemma_extent_match(req, l, sink_blocks, i);
        lemma_name_match(req, l, i);
        assert(placed(req, l, i));
    }
    assert(k.partitions =~= l.partitions);
    assert forall|i: int| 0 <= i < req.filesystems.len() implies k.filesystems[i]
        == l.filesystems[i] by {
        lemma_fs_match(req, l, sink_blocks, i);
        assert(carried(req, l, i));
    }
    assert(k.filesystems =~= l.filesystems);
}

} // verus!
