//! Building a fresh table on an empty target.
use vstd::arithmetic::div_mod::*;
use vstd::arithmetic::mul::*;
use vstd::prelude::*;
use vstd::string::*;

use crate::arith::{clamp32, max64, sat_add};
use crate::bytes::{block_size_ok, put_be32, CHAIN_END};
use crate::checksum::seal_checksum;
use crate::geometry::{synthesize_geometry, Geometry, GeometryError};
use crate::image::{
    fill_fshd_fields, fill_lseg_fields, fill_part_fields, lseg_payload_bytes, PartContext,
    HEADER_SUMMED_LONGS, MAX_DRIVE_NAME,
};
use crate::layout::{
    BuildError, PlacedFileSystem, PlacedPartition, RdbLayout, Request, RDB_HEADROOM_BLOCKS,
};
use crate::media::{write_next, BlockSink};
use crate::names::{contains_name, dh_name, drive_name_fits, find_free};
use crate::specs::{FileSystemSpec, PartitionSpec, Placement};
use crate::{arith, bytes, geometry, hdr, id, image, layout, media, names, rdsk, rdsk_defaults};

verus! {

broadcast use crate::bytes::group_long_axioms;

/// Builds a fresh RDB on an empty target.
///
/// [`build`](Self::build) computes the complete block layout, validates every
/// part of it, and only then writes. The `RDSK` block goes out last, so an
/// interrupted build leaves no valid `RDSK`: an unpartitioned disk rather than
/// a table pointing at blocks that were never written.
#[derive(Debug, Clone, PartialEq, Eq)]
pub struct RdbBuilder {
    geometry: Geometry,
    rdsk_block: u32,
    reserved_blocks: Option<u32>,
    flags: u32,
    host_id: u32,
    specs: Vec<PartitionSpec>,
    filesystems: Vec<FileSystemSpec>,
}

impl View for RdbBuilder {
    type V = Request;

    closed spec fn view(&self) -> Request {
        Request {
            geometry: self.geometry,
            rdsk_block: self.rdsk_block,
            reserved_blocks: self.reserved_blocks,
            flags: self.flags,
            host_id: self.host_id,
            specs: self.specs@,
            filesystems: self.filesystems@,
        }
    }
}

/// A request with nothing in it but the geometry.
pub open spec fn fresh(geometry: Geometry) -> Request {
    Request {
        geometry,
        rdsk_block: 0,
        reserved_blocks: None,
        flags: rdsk_defaults::FLAGS,
        host_id: rdsk_defaults::HOST_ID,
        specs: Seq::empty(),
        filesystems: Seq::empty(),
    }
}

/// The names asked for, place by place.
spec fn asked(specs: Seq<PartitionSpec>) -> Seq<Option<Seq<char>>> {
    specs.map_values(|s: PartitionSpec| s.explicit_name())
}

/// Every number handed out is accounted for, so none is above the number of
/// specs.
proof fn lemma_numbers_accounted(specs: Seq<PartitionSpec>, i: nat) -> (places: Seq<int>)
    requires
        i <= specs.len(),
    ensures
        names::accounted(asked(specs), places, layout::number_cursor(specs, i), i as int),
        0 <= layout::number_cursor(specs, i) <= specs.len(),
        i < specs.len() && specs[i as int].name is None ==> {
            let free = names::first_free(
                layout::explicit_names(specs),
                layout::number_cursor(specs, i),
            );
            &&& names::is_first_free(
                layout::explicit_names(specs),
                layout::number_cursor(specs, i),
                free,
            )
            &&& 0 <= free < specs.len()
        },
    decreases i,
{
    let named = asked(specs);
    assert(names::names_in(named) =~= layout::explicit_names(specs)) by {
        assert forall|n: Seq<char>|
            names::names_in(named).contains(n) <==> layout::explicit_names(specs).contains(n) by {
            if names::names_in(named).contains(n) {
                let j = choose|j: int| 0 <= j < named.len() && named[j] == Some(n);
                assert(specs[j].explicit_name() == Some(n));
            }
            if layout::explicit_names(specs).contains(n) {
                let j = choose|j: int|
                    0 <= j < specs.len() && (#[trigger] specs[j]).explicit_name() == Some(n);
                assert(named[j] == Some(n));
            }
        }
    }
    let places = if i == 0 {
        Seq::empty()
    } else {
        let p = (i - 1) as nat;
        let before = lemma_numbers_accounted(specs, p);
        let from = layout::number_cursor(specs, p);
        if specs[p as int].name is Some {
            assert forall|k: int| 0 <= k < before.len() implies names::accounts(
                named,
                #[trigger] before[k],
                from,
                i as int,
            ) by {
                assert(names::accounts(named, before[k], from, p as int));
            }
            before
        } else {
            let (n, all) = names::lemma_next_free(named, before, from, p as int);
            names::lemma_first_free(layout::explicit_names(specs), from, n);
            names::lemma_accounted_push(named, all, n, p as int, p as int, i as int);
            all.push(p as int)
        }
    };
    let here = layout::number_cursor(specs, i);
    names::lemma_accounted_bound(named, places, here, i as int);
    if i < specs.len() && specs[i as int].name is None {
        let (n, all) = names::lemma_next_free(named, places, here, i as int);
        names::lemma_first_free(layout::explicit_names(specs), here, n);
        names::lemma_accounted_push(named, all, n, i as int, i as int, (i + 1) as int);
        names::lemma_accounted_bound(named, all.push(i as int), n + 1, (i + 1) as int);
    }
    places
}

/// An error among the first names is the error of the whole list.
proof fn lemma_name_refusal_first(specs: Seq<PartitionSpec>, i: nat, n: nat)
    requires
        i <= n,
        layout::name_refusal(specs, i) is Some,
    ensures
        layout::name_refusal(specs, n) == layout::name_refusal(specs, i),
    decreases n,
{
    if i < n {
        lemma_name_refusal_first(specs, i, (n - 1) as nat);
    }
}

/// An error among the first placements is the error of them all.
proof fn lemma_placement_refusal_first(req: Request, i: nat, n: nat)
    requires
        i <= n,
        req.placement_refusal(i) is Some,
    ensures
        req.placement_refusal(n) == req.placement_refusal(i),
    decreases n,
{
    if i < n {
        lemma_placement_refusal_first(req, i, (n - 1) as nat);
    }
}

/// An error in the first part of a row is the error of the row.
proof fn lemma_overlap_row_first(req: Request, a: int, i: int, n: int)
    requires
        a < i <= n,
        req.overlap_refusal_row(a, i) is Some,
    ensures
        req.overlap_refusal_row(a, n) == req.overlap_refusal_row(a, i),
    decreases n - i,
{
    if i < n {
        lemma_overlap_row_first(req, a, i, n - 1);
    }
}

/// An error in the first rows is the error of them all.
proof fn lemma_overlap_refusal_first(req: Request, i: nat, n: nat)
    requires
        i <= n,
        req.overlap_refusal(i) is Some,
    ensures
        req.overlap_refusal(n) == req.overlap_refusal(i),
    decreases n,
{
    if i < n {
        lemma_overlap_refusal_first(req, i, (n - 1) as nat);
    }
}

/// Counts of blocks are not negative, and grow with what they count.
pub proof fn lemma_fs_blocks_grow(req: Request, i: nat, n: nat)
    requires
        i <= n,
        req.payload() > 0,
    ensures
        i <= req.fs_blocks(i) <= req.fs_blocks(n),
        i < n ==> req.fs_blocks(i) + 1 + req.lseg_count(i as int) <= req.fs_blocks(n),
    decreases n,
{
    if n > 0 {
        let f = n - 1;
        assert(req.lseg_count(f) >= 0) by {
            lemma_div_pos_is_pos(
                req.filesystems[f].binary@.len() + req.payload() - 1,
                req.payload(),
            );
        }
        if i < n {
            lemma_fs_blocks_grow(req, i, (n - 1) as nat);
        } else {
            lemma_fs_blocks_grow(req, (n - 1) as nat, (n - 1) as nat);
        }
    }
}

/// Sized partitions start past the RDB area.
proof fn lemma_cursor_past_area(req: Request, i: nat)
    ensures
        req.cursor(i) >= req.lo_cylinder(),
    decreases i,
{
    if i > 0 {
        lemma_cursor_past_area(req, (i - 1) as nat);
    }
}

/// A partition that is placed lies between the RDB area and the end of the
/// disk.
pub proof fn lemma_placed_in_bounds(req: Request, n: nat, i: int)
    requires
        0 <= i < n,
        req.placement_refusal(n) is None,
        req.cylinder_bytes() > 0,
    ensures
        req.placement_refusal(i as nat) is None,
        req.placement_refusal_at(i) is None,
        req.lo_cylinder() <= req.extent(i).0 <= req.extent(i).1 <= req.last_cylinder(),
    decreases n,
{
    if i < n - 1 {
        lemma_placed_in_bounds(req, (n - 1) as nat, i);
    } else {
        lemma_cursor_past_area(req, i as nat);
        if let Placement::Size(bytes) = req.specs[i].placement {
            assert(bytes >= req.cylinder_bytes());
            lemma_div_is_ordered(req.cylinder_bytes(), bytes as int, req.cylinder_bytes());
            lemma_div_by_self(req.cylinder_bytes());
        }
    }
}

/// The blocks up to a cylinder are no fewer than those up to a lower one.
pub proof fn lemma_blocks_ordered(a: int, b: int, cyl: int)
    requires
        a <= b,
        0 <= cyl,
    ensures
        a * cyl <= b * cyl,
        a >= 0 ==> a * cyl >= 0,
{
    lemma_mul_inequality(a, b, cyl);
    if a >= 0 {
        lemma_mul_nonnegative(a, cyl);
    }
}

/// Where the blocks of each filesystem stand among the writes.
pub proof fn lemma_fs_writes(req: Request, i: nat, n: nat)
    requires
        i <= n,
        req.payload() > 0,
    ensures
        req.fs_writes(i).len() == req.fs_blocks(i),
        i < n ==> {
            &&& forall|c: int|
                0 <= c < req.lseg_count(i as int) ==> #[trigger] req.fs_writes(n)[req.fs_blocks(i)
                    + c] == req.lseg_writes(i as int)[c]
            &&& req.fs_writes(n)[req.fs_blocks(i) + req.lseg_count(i as int)] == (
                req.fshd_block(i as int) as u64,
                req.fshd_image(i as int),
            )
        },
    decreases n, i,
{
    lemma_fs_blocks_grow(req, i, n);
    if i > 0 {
        lemma_fs_writes(req, (i - 1) as nat, (i - 1) as nat);
        lemma_fs_blocks_grow(req, (i - 1) as nat, i);
    }
    if i < n {
        let m = (n - 1) as nat;
        lemma_fs_writes(req, m, m);
        lemma_fs_blocks_grow(req, m, n);
        lemma_fs_blocks_grow(req, i, m);
        lemma_fs_writes(req, i, m);
        lemma_fs_blocks_grow(req, i, i + 1);
        let whole = req.fs_writes(n);
        let head = req.fs_writes(m);
        assert(forall|k: int| 0 <= k < head.len() ==> #[trigger] whole[k] == head[k]);
        if i < m {
            assert forall|c: int| 0 <= c < req.lseg_count(i as int) implies #[trigger] whole[
                req.fs_blocks(i) + c] == req.lseg_writes(i as int)[c] by {
                assert(head[req.fs_blocks(i) + c] == req.lseg_writes(i as int)[c]);
            }
            assert(head[req.fs_blocks(i) + req.lseg_count(i as int)] == whole[req.fs_blocks(i)
                + req.lseg_count(i as int)]);
        }
    }
}

/// A chunk of a driver starts before the driver's end and is no longer than the
/// payload of a block.
pub proof fn lemma_chunk(req: Request, i: int, c: int)
    requires
        req.payload() > 0,
        0 <= c < req.lseg_count(i),
    ensures
        0 <= c * req.payload() < req.filesystems[i].binary@.len(),
        (c + 1) * req.payload() == c * req.payload() + req.payload(),
        1 <= req.chunk(i, c).len() <= req.payload(),
{
    image::lemma_piece(req.filesystems[i].binary@, req.payload(), c);
}

/// The partitions are where they belong, on cylinders that can be written.
spec fn all_placed(req: Request, partitions: Seq<PlacedPartition>) -> bool {
    forall|i: int|
        0 <= i < partitions.len() ==> {
            &&& (#[trigger] partitions[i])@ == req.placed(i)
            &&& 0 <= req.extent(i).0 <= req.extent(i).1 <= u32::MAX
        }
}

/// How many pieces of `payload` bytes `len` bytes take.
fn piece_count(len: u64, payload: u64) -> (n: u64)
    requires
        payload > 0,
    ensures
        n == (len + payload - 1) / payload as int,
{
    if len == 0 {
        assert((payload - 1) / payload as int == 0) by {
            lemma_basic_div(payload - 1, payload as int);
        }
        0
    } else {
        proof {
            lemma_div_plus_one(len - 1, payload as int);
            lemma_div_is_ordered_by_denominator(len - 1, 1, payload as int);
            lemma_div_basics(len - 1);
        }
        (len - 1) / payload + 1
    }
}

impl RdbBuilder {
    /// A builder for a disk of exactly this geometry.
    pub fn new(geometry: Geometry) -> (r: Self)
        ensures
            r@ == fresh(geometry),
    {
        RdbBuilder {
            geometry,
            rdsk_block: 0,
            reserved_blocks: None,
            flags: rdsk_defaults::FLAGS,
            host_id: rdsk_defaults::HOST_ID,
            specs: Vec::new(),
            filesystems: Vec::new(),
        }
    }

    /// A builder for a disk of `total_bytes` in `block_size`-byte blocks, with
    /// the geometry [`synthesize_geometry`] chooses.
    pub fn for_size(total_bytes: u64, block_size: usize) -> (r: Result<Self, GeometryError>)
        ensures
            match (r, geometry::geometry_of(total_bytes, block_size)) {
                (Ok(b), Ok(g)) => b@ == fresh(g),
                (Err(e), Err(why)) => e == why,
                _ => false,
            },
    {
        match synthesize_geometry(total_bytes, block_size) {
            Ok(g) => Ok(RdbBuilder::new(g)),
            Err(e) => Err(e),
        }
    }

    /// Add a partition. Sized partitions are laid out in the order added, and
    /// the `PART` chain follows it.
    pub fn partition(self, spec: PartitionSpec) -> (r: Self)
        ensures
            r@ == (Request { specs: self@.specs.push(spec), ..self@ }),
    {
        let mut b = self;
        b.specs.push(spec);
        b
    }

    /// Add a loadable filesystem driver. The `FSHD` chain follows the order
    /// added.
    pub fn filesystem(self, spec: FileSystemSpec) -> (r: Self)
        ensures
            r@ == (Request { filesystems: self@.filesystems.push(spec), ..self@ }),
    {
        let mut b = self;
        b.filesystems.push(spec);
        b
    }

    /// Put the `RDSK` block somewhere other than block 0.
    pub fn rdsk_block(self, lba: u32) -> (r: Self)
        ensures
            r@ == (Request { rdsk_block: lba, ..self@ }),
    {
        RdbBuilder { rdsk_block: lba, ..self }
    }

    /// Reserve exactly this many blocks, from block 0, for the RDB area.
    pub fn reserved_blocks(self, blocks: u32) -> (r: Self)
        ensures
            r@ == (Request { reserved_blocks: Some(blocks), ..self@ }),
    {
        RdbBuilder { reserved_blocks: Some(blocks), ..self }
    }

    /// Set `rdb_Flags`.
    pub fn flags(self, flags: u32) -> (r: Self)
        ensures
            r@ == (Request { flags, ..self@ }),
    {
        RdbBuilder { flags, ..self }
    }

    /// Set `rdb_HostID`.
    pub fn host_id(self, host_id: u32) -> (r: Self)
        ensures
            r@ == (Request { host_id, ..self@ }),
    {
        RdbBuilder { host_id, ..self }
    }

    /// The names asked for, each of them acceptable and none of them twice, or
    /// the first that is not.
    fn explicit_names<E>(&self) -> (r: Result<Vec<String>, BuildError<E>>)
        ensures
            match r {
                Ok(explicit) => {
                    &&& layout::name_refusal(self@.specs, self@.specs.len()) is None
                    &&& names::set_of(explicit@) == layout::explicit_names(self@.specs)
                },
                Err(e) => {
                    &&& e.refusal() is Some
                    &&& layout::name_refusal(self@.specs, self@.specs.len()) == e.refusal()
                },
            },
    {
        let ghost specs = self.specs@;
        let mut explicit: Vec<String> = Vec::new();
        assert(names::set_of(explicit@) =~= layout::explicit_names(specs.take(0)));
        let mut i: usize = 0;
        while i < self.specs.len()
            invariant
                i <= self.specs.len(),
                specs == self.specs@,
                layout::name_refusal(specs, i as nat) is None,
                names::set_of(explicit@) == layout::explicit_names(specs.take(i as int)),
            decreases self.specs.len() - i,
        {
            let ghost before = specs.take(i as int);
            let ghost after = specs.take(i + 1);
            proof {
                assert(after =~= before.push(specs[i as int]));
                assert(after[i as int] == specs[i as int]);
                assert forall|j: int| 0 <= j < i implies after[j] == before[j] by {}
                assert forall|n: Seq<char>| #[trigger]
                    layout::explicit_names(after).contains(n) <==> layout::explicit_names(
                        before,
                    ).contains(n) || specs[i as int].explicit_name() == Some(n) by {
                    if layout::explicit_names(before).contains(n) {
                        let j = choose|j: int|
                            0 <= j < before.len() && (#[trigger] before[j]).explicit_name() == Some(
                                n,
                            );
                        assert(after[j].explicit_name() == Some(n));
                    }
                    if specs[i as int].explicit_name() == Some(n) {
                        assert(after[i as int].explicit_name() == Some(n));
                    }
                    if layout::explicit_names(after).contains(n) {
                        let j = choose|j: int|
                            0 <= j < after.len() && (#[trigger] after[j]).explicit_name() == Some(
                                n,
                            );
                        if j < i {
                            assert(before[j].explicit_name() == Some(n));
                        }
                    }
                }
            }
            if let Some(n) = &self.specs[i].name {
                let fits: bool = drive_name_fits(n.as_str());
                if !fits || contains_name(&explicit, n) {
                    proof {
                        lemma_name_refusal_first(specs, (i + 1) as nat, specs.len());
                    }
                    if !fits {
                        return Err(
                            BuildError::InvalidName { name: n.clone(), max: MAX_DRIVE_NAME },
                        );
                    }
                    return Err(BuildError::DuplicateName { name: n.clone() });
                }
                let ghost old_list = explicit@;
                explicit.push(n.clone());
                proof {
                    assert forall|m: Seq<char>| #[trigger]
                        names::set_of(explicit@).contains(m) <==> names::set_of(old_list).contains(
                            m,
                        ) || m == n@ by {
                        if names::set_of(old_list).contains(m) {
                            let j = choose|j: int|
                                0 <= j < old_list.len() && (#[trigger] old_list[j])@ == m;
                            assert(explicit@[j]@ == m);
                        }
                        if m == n@ {
                            assert(explicit@[explicit@.len() - 1]@ == m);
                        }
                        if names::set_of(explicit@).contains(m) {
                            let j = choose|j: int|
                                0 <= j < explicit@.len() && (#[trigger] explicit@[j])@ == m;
                            if j < old_list.len() {
                                assert(old_list[j]@ == m);
                            }
                        }
                    }
                    assert(names::set_of(explicit@) =~= layout::explicit_names(after));
                }
            } else {
                assert(names::set_of(explicit@) =~= layout::explicit_names(after));
            }
            i += 1;
        }
        assert(specs.take(specs.len() as int) =~= specs);
        Ok(explicit)
    }

    /// The drive name for every spec: explicit ones as given, the rest the
    /// first `DH`*n* not claimed by an explicit name anywhere in the build.
    fn assign_names<E>(&self) -> (r: Result<Vec<String>, BuildError<E>>)
        ensures
            match r {
                Ok(assigned) => {
                    &&& layout::name_refusal(self@.specs, self@.specs.len()) is None
                    &&& assigned@.len() == self@.specs.len()
                    &&& forall|i: int|
                        0 <= i < assigned@.len() ==> (#[trigger] assigned@[i])@ == layout::name_of(
                            self@.specs,
                            i,
                        )
                },
                Err(e) => {
                    &&& e.refusal() is Some
                    &&& layout::name_refusal(self@.specs, self@.specs.len()) == e.refusal()
                },
            },
    {
        let ghost specs = self.specs@;
        let explicit = match self.explicit_names() {
            Ok(explicit) => explicit,
            Err(e) => {
                return Err(e);
            },
        };
        let mut out: Vec<String> = Vec::new();
        let mut next: u64 = 0;
        let mut i: usize = 0;
        while i < self.specs.len()
            invariant
                i <= self.specs.len(),
                specs == self.specs@,
                names::set_of(explicit@) == layout::explicit_names(specs),
                next == layout::number_cursor(specs, i as nat),
                out@.len() == i,
                forall|j: int|
                    0 <= j < i ==> (#[trigger] out@[j])@ == layout::name_of(specs, j),
            decreases self.specs.len() - i,
        {
            match &self.specs[i].name {
                Some(n) => {
                    out.push(n.clone());
                },
                None => {
                    let ghost free = names::first_free(
                        layout::explicit_names(specs),
                        next as int,
                    );
                    proof {
                        lemma_numbers_accounted(specs, i as nat);
                        assert(specs.len() == self.specs.len());
                    }
                    let n: u64 = find_free(&explicit, next, Ghost(free));
                    out.push(dh_name(n));
                    next = n + 1;
                },
            }
            i += 1;
        }
        Ok(out)
    }

    /// How many blocks the whole table takes, saturating.
    fn blocks_needed(&self) -> (needed: u64)
        requires
            bytes::supported_block_size(self@.geometry.block_size as int),
        ensures
            needed == arith::saturated(self@.needed()),
    {
        let payload: u64 = lseg_payload_bytes(self.geometry.block_size) as u64;
        let ghost req = self@;
        let mut needed: u64 = sat_add(1, self.specs.len() as u64);
        let mut i: usize = 0;
        while i < self.filesystems.len()
            invariant
                i <= self.filesystems.len(),
                req == self@,
                payload == req.payload(),
                payload > 0,
                needed == arith::saturated(1 + req.specs.len() + req.fs_blocks(i as nat)),
            decreases self.filesystems.len() - i,
        {
            let lsegs: u64 = piece_count(self.filesystems[i].binary.len() as u64, payload);
            proof {
                lemma_fs_blocks_grow(req, i as nat, i as nat);
                assert(lsegs == req.lseg_count(i as int));
            }
            needed = sat_add(sat_add(needed, 1), lsegs);
            i += 1;
        }
        needed
    }

    /// How many blocks to reserve, saturating: what the caller said, or the
    /// first cylinder, or what is needed plus headroom, whichever is more.
    fn blocks_reserved(&self, cyl_blocks: u64, needed: u64) -> (reserved: u64)
        requires
            bytes::supported_block_size(self@.geometry.block_size as int),
            cyl_blocks == self@.cyl(),
            needed == arith::saturated(self@.needed()),
        ensures
            reserved == arith::saturated(self@.reserved()),
    {
        proof {
            lemma_fs_blocks_grow(
                self@,
                self@.filesystems.len(),
                self@.filesystems.len(),
            );
        }
        match self.reserved_blocks {
            Some(n) => n as u64,
            None => max64(
                cyl_blocks,
                sat_add(sat_add(self.rdsk_block as u64, needed), RDB_HEADROOM_BLOCKS),
            ),
        }
    }

    /// The reserved area, in blocks, how many of them the table takes, and the
    /// first cylinder past it.
    fn reserve_area<E>(&self) -> (r: Result<(u64, u64, u32), BuildError<E>>)
        requires
            bytes::supported_block_size(self@.geometry.block_size as int),
            !self@.is_empty_geometry(),
        ensures
            match r {
                Ok((reserved, needed, lo_cylinder)) => {
                    &&& self@.area_refusal() is None
                    &&& reserved == self@.reserved()
                    &&& needed == self@.needed()
                    &&& lo_cylinder == self@.lo_cylinder()
                },
                Err(e) => e.refusal() is Some && self@.area_refusal() == e.refusal(),
            },
    {
        let g = self.geometry;
        let cyl_blocks: u64 = g.cylinder_blocks();
        let last_cylinder: u32 = g.cylinders - 1;
        let needed: u64 = self.blocks_needed();
        let reserved: u64 = self.blocks_reserved(cyl_blocks, needed);
        proof {
            lemma_fs_blocks_grow(
                self@,
                self@.filesystems.len(),
                self@.filesystems.len(),
            );
            lemma_mul_nonnegative(g.heads as int, g.sectors as int);
            lemma_mul_upper_bound(g.heads as int, 0xFFFF_FFFF, g.sectors as int, 0xFFFF_FFFF);
        }
        if reserved < needed || reserved > u32::MAX as u64 {
            return Err(
                BuildError::RdbAreaTooSmall {
                    needed: clamp32(needed),
                    available: clamp32(reserved),
                },
            );
        }
        let used: u64 = self.rdsk_block as u64 + needed;
        if used > reserved {
            return Err(
                BuildError::RdbAreaTooSmall { needed: clamp32(used), available: reserved as u32 },
            );
        }
        let lo_cylinder: u64 = (reserved + cyl_blocks - 1) / cyl_blocks;
        if lo_cylinder > last_cylinder as u64 {
            return Err(
                BuildError::PartitionOverlapsRdbArea {
                    name: String::from_str("<the disk>"),
                    low_cyl: last_cylinder,
                    lo_cylinder: clamp32(lo_cylinder),
                },
            );
        }
        Ok((reserved, needed, lo_cylinder as u32))
    }

    /// The cylinders of partition `i`, or why it has none.
    fn place_one<E>(&self, i: usize, name: &String, next_cyl: u32, lo_cylinder: u32) -> (r: Result<
        (u32, u32),
        BuildError<E>,
    >)
        requires
            bytes::supported_block_size(self@.geometry.block_size as int),
            self@.early_refusal() is None,
            self@.addresses_fit(),
            i < self@.specs.len(),
            self@.placement_refusal(i as nat) is None,
            name@ == layout::name_of(self@.specs, i as int),
            next_cyl == self@.cursor(i as nat),
            lo_cylinder == self@.lo_cylinder(),
        ensures
            match r {
                Ok((low, high)) => {
                    &&& self@.placement_refusal_at(i as int) is None
                    &&& (low as int, high as int) == self@.extent(i as int)
                    &&& low <= high <= self@.last_cylinder()
                },
                Err(e) => e.refusal() is Some && self@.placement_refusal_at(i as int)
                    == e.refusal(),
            },
    {
        let ghost req = self@;
        let last_cylinder: u32 = self.geometry.cylinders - 1;
        proof {
            lemma_mul_nonnegative(self.geometry.heads as int, self.geometry.sectors as int);
            lemma_mul_strictly_positive(req.cyl(), self.geometry.block_size as int);
            lemma_cursor_past_area(req, i as nat);
        }
        let (low, high): (u64, u64) = match self.specs[i].placement {
            Placement::Cylinders { low, high } => {
                if high < low {
                    return Err(
                        BuildError::CylindersInverted {
                            name: name.clone(),
                            low_cyl: low,
                            high_cyl: high,
                        },
                    );
                }
                (low as u64, high as u64)
            },
            Placement::Size(bytes) => {
                let cylinder_bytes: u64 = self.geometry.cylinder_blocks()
                    * self.geometry.block_size as u64;
                if bytes < cylinder_bytes {
                    return Err(
                        BuildError::PartitionTooSmall { name: name.clone(), bytes, cylinder_bytes },
                    );
                }
                let want: u64 = bytes / cylinder_bytes;
                proof {
                    let b = bytes as int;
                    let cb = cylinder_bytes as int;
                    lemma_div_is_ordered(cb, b, cb);
                    lemma_div_by_self(cb);
                    lemma_fundamental_div_mod(b, cb);
                    lemma_mod_bound(b, cb);
                    assert(cb >= 512) by {
                        lemma_mul_inequality(1, req.cyl(), self.geometry.block_size as int);
                    }
                    assert(want * 512 <= b) by {
                        lemma_mul_inequality(512, cb, want as int);
                        lemma_mul_is_commutative(want as int, 512);
                    }
                }
                (next_cyl as u64, next_cyl as u64 + (want - 1))
            },
        };
        if high > last_cylinder as u64 {
            return Err(
                BuildError::PartitionPastEndOfDisk {
                    name: name.clone(),
                    high_cyl: clamp32(high),
                    last_cylinder,
                },
            );
        }
        if low < lo_cylinder as u64 {
            return Err(
                BuildError::PartitionOverlapsRdbArea {
                    name: name.clone(),
                    low_cyl: low as u32,
                    lo_cylinder,
                },
            );
        }
        Ok((low as u32, high as u32))
    }

    /// Every partition in its place, or the first that has none.
    fn place_partitions<E>(&self, names: &Vec<String>, lo_cylinder: u32) -> (r: Result<
        Vec<PlacedPartition>,
        BuildError<E>,
    >)
        requires
            bytes::supported_block_size(self@.geometry.block_size as int),
            self@.early_refusal() is None,
            self@.addresses_fit(),
            names@.len() == self@.specs.len(),
            forall|i: int|
                0 <= i < names@.len() ==> (#[trigger] names@[i])@ == layout::name_of(
                    self@.specs,
                    i,
                ),
            lo_cylinder == self@.lo_cylinder(),
        ensures
            match r {
                Ok(placed) => {
                    &&& self@.placement_refusal(self@.specs.len()) is None
                    &&& placed@.len() == self@.specs.len()
                    &&& forall|i: int|
                        0 <= i < placed@.len() ==> (#[trigger] placed@[i])@ == self@.placed(i)
                },
                Err(e) => e.refusal() is Some && self@.placement_refusal(self@.specs.len())
                    == e.refusal(),
            },
    {
        let ghost req = self@;
        let cyl_blocks: u64 = self.geometry.cylinder_blocks();
        let mut next_cyl: u32 = lo_cylinder;
        let mut partitions: Vec<PlacedPartition> = Vec::new();
        proof {
            lemma_mul_nonnegative(self.geometry.heads as int, self.geometry.sectors as int);
            lemma_mul_strictly_positive(req.cyl(), self.geometry.block_size as int);
        }
        let mut i: usize = 0;
        while i < self.specs.len()
            invariant
                i <= self.specs.len(),
                req == self@,
                req.cyl() > 0,
                bytes::supported_block_size(req.geometry.block_size as int),
                req.early_refusal() is None,
                req.addresses_fit(),
                names@.len() == req.specs.len(),
                forall|i: int|
                    0 <= i < names@.len() ==> (#[trigger] names@[i])@ == layout::name_of(
                        req.specs,
                        i,
                    ),
                lo_cylinder == req.lo_cylinder(),
                cyl_blocks == req.cyl(),
                next_cyl == req.cursor(i as nat),
                req.placement_refusal(i as nat) is None,
                partitions@.len() == i,
                forall|j: int| 0 <= j < i ==> (#[trigger] partitions@[j])@ == req.placed(j),
            decreases self.specs.len() - i,
        {
            let (low_cyl, high_cyl) = match self.place_one(i, &names[i], next_cyl, lo_cylinder) {
                Ok(range) => range,
                Err(e) => {
                    proof {
                        lemma_placement_refusal_first(req, (i + 1) as nat, req.specs.len());
                    }
                    return Err(e);
                },
            };
            proof {
                let (low, high) = req.extent(i as int);
                assert((high + 1) * req.cyl() <= u64::MAX);
                lemma_blocks_ordered(low, high + 1, req.cyl());
                lemma_blocks_ordered(high - low + 1, high + 1, req.cyl());
                assert(req.area_refusal() is None);
                lemma_fs_blocks_grow(req, 0, req.filesystems.len());
            }
            if high_cyl >= next_cyl {
                next_cyl = high_cyl + 1;
            }
            partitions.push(
                PlacedPartition {
                    part_block: self.rdsk_block as u64 + 1 + i as u64,
                    name: names[i].clone(),
                    low_cyl,
                    high_cyl,
                    start_lba: low_cyl as u64 * cyl_blocks,
                    block_len: (high_cyl as u64 - low_cyl as u64 + 1) * cyl_blocks,
                },
            );
            i += 1;
        }
        Ok(partitions)
    }

    /// Whether no two partitions claim the same cylinders.
    fn check_overlaps<E>(&self, partitions: &Vec<PlacedPartition>) -> (r: Result<
        (),
        BuildError<E>,
    >)
        requires
            partitions@.len() == self@.specs.len(),
            all_placed(self@, partitions@),
        ensures
            match r {
                Ok(_) => self@.overlap_refusal(self@.specs.len()) is None,
                Err(e) => e.refusal() is Some && self@.overlap_refusal(self@.specs.len())
                    == e.refusal(),
            },
    {
        let ghost req = self@;
        let mut a: usize = 0;
        while a < partitions.len()
            invariant
                a <= partitions.len(),
                req == self@,
                partitions@.len() == req.specs.len(),
                all_placed(req, partitions@),
                req.overlap_refusal(a as nat) is None,
            decreases partitions.len() - a,
        {
            let mut b: usize = a + 1;
            while b < partitions.len()
                invariant
                    a < b <= partitions.len(),
                    req == self@,
                    partitions@.len() == req.specs.len(),
                    all_placed(req, partitions@),
                    req.overlap_refusal(a as nat) is None,
                    req.overlap_refusal_row(a as int, b as int) is None,
                decreases partitions.len() - b,
            {
                let pa = &partitions[a];
                let pb = &partitions[b];
                assert(partitions@[a as int]@ == req.placed(a as int));
                assert(partitions@[b as int]@ == req.placed(b as int));
                let low: u32 = if pa.low_cyl >= pb.low_cyl {
                    pa.low_cyl
                } else {
                    pb.low_cyl
                };
                let high: u32 = if pa.high_cyl <= pb.high_cyl {
                    pa.high_cyl
                } else {
                    pb.high_cyl
                };
                if low <= high {
                    proof {
                        lemma_overlap_row_first(req, a as int, b + 1, req.specs.len() as int);
                        lemma_overlap_refusal_first(req, (a + 1) as nat, req.specs.len());
                    }
                    return Err(
                        BuildError::PartitionsOverlap {
                            a_name: pa.name.clone(),
                            b_name: pb.name.clone(),
                            low_cyl: low,
                            high_cyl: high,
                        },
                    );
                }
                b += 1;
            }
            a += 1;
        }
        Ok(())
    }

    /// Every filesystem in its place.
    fn place_filesystems(&self) -> (placed: Vec<PlacedFileSystem>)
        requires
            bytes::supported_block_size(self@.geometry.block_size as int),
            self@.early_refusal() is None,
        ensures
            placed@ == self@.layout().filesystems,
    {
        let ghost req = self@;
        proof {
            lemma_fs_blocks_grow(req, 0, req.filesystems.len());
        }
        let payload: u64 = lseg_payload_bytes(self.geometry.block_size) as u64;
        let mut next_block: u64 = self.rdsk_block as u64 + 1 + self.specs.len() as u64;
        let mut filesystems: Vec<PlacedFileSystem> = Vec::new();
        let mut i: usize = 0;
        while i < self.filesystems.len()
            invariant
                i <= self.filesystems.len(),
                req == self@,
                payload == req.payload(),
                payload > 0,
                req.rdsk_block + req.needed() <= u32::MAX,
                next_block == req.fshd_block(i as int),
                filesystems@ =~= Seq::new(i as nat, |j: int| req.placed_fs(j)),
            decreases self.filesystems.len() - i,
        {
            let lsegs: u64 = piece_count(self.filesystems[i].binary.len() as u64, payload);
            proof {
                lemma_fs_blocks_grow(req, i as nat, req.filesystems.len());
                lemma_fs_blocks_grow(req, i as nat, (i + 1) as nat);
                assert(lsegs == req.lseg_count(i as int));
            }
            let fshd_block: u64 = next_block;
            let seg_list_blocks: u32 = if lsegs == 0 {
                CHAIN_END
            } else {
                (next_block + 1) as u32
            };
            next_block = next_block + 1 + lsegs;
            filesystems.push(
                PlacedFileSystem {
                    fshd_block,
                    dos_type: self.filesystems[i].dos_type,
                    seg_list_blocks,
                    lseg_block_count: lsegs as u32,
                },
            );
            i += 1;
        }
        filesystems
    }

    /// The whole layout, or the first reason it cannot exist. There is no sink
    /// here, so nothing is written.
    fn layout<E>(&self, sink_blocks: Option<u64>) -> (r: Result<RdbLayout, BuildError<E>>)
        requires
            bytes::supported_block_size(self@.geometry.block_size as int),
            self@.addresses_fit(),
        ensures
            match r {
                Ok(l) => self@.layout_refusal(sink_blocks) is None && l@ == self@.layout(),
                Err(e) => e.refusal() is Some && self@.layout_refusal(sink_blocks) == e.refusal(),
            },
    {
        let ghost req = self@;
        let g = self.geometry;
        let cyl_blocks: u64 = g.cylinder_blocks();
        if g.cylinders == 0 || cyl_blocks == 0 {
            return Err(BuildError::EmptyGeometry { geometry: g });
        }
        let last_cylinder: u32 = g.cylinders - 1;
        let names = match self.assign_names() {
            Ok(names) => names,
            Err(e) => {
                return Err(e);
            },
        };
        let (reserved, needed, lo_cylinder) = match self.reserve_area() {
            Ok(area) => area,
            Err(e) => {
                return Err(e);
            },
        };
        let partitions = match self.place_partitions(&names, lo_cylinder) {
            Ok(partitions) => partitions,
            Err(e) => {
                return Err(e);
            },
        };
        proof {
            lemma_mul_nonnegative(g.heads as int, g.sectors as int);
            lemma_mul_strictly_positive(req.cyl(), g.block_size as int);
            lemma_fs_blocks_grow(req, 0, req.filesystems.len());
            assert(req.lo_cylinder() >= 0) by {
                lemma_div_pos_is_pos(req.reserved() + req.cyl() - 1, req.cyl());
            }
            assert forall|i: int| 0 <= i < partitions@.len() implies {
                &&& (#[trigger] partitions@[i])@ == req.placed(i)
                &&& 0 <= req.extent(i).0 <= req.extent(i).1 <= u32::MAX
                &&& (req.extent(i).1 + 1) * req.cyl() <= u64::MAX
            } by {
                lemma_placed_in_bounds(req, req.specs.len(), i);
            }
        }
        match self.check_overlaps(&partitions) {
            Ok(_) => {},
            Err(e) => {
                return Err(e);
            },
        }
        let filesystems = self.place_filesystems();

        let mut needed_blocks: u64 = reserved;
        let mut i: usize = 0;
        while i < partitions.len()
            invariant
                i <= partitions.len(),
                partitions@.len() == req.specs.len(),
                req.cyl() > 0,
                forall|i: int|
                    0 <= i < partitions@.len() ==> {
                        &&& (#[trigger] partitions@[i])@ == req.placed(i)
                        &&& 0 <= req.extent(i).0 <= req.extent(i).1 <= u32::MAX
                        &&& (req.extent(i).1 + 1) * req.cyl() <= u64::MAX
                    },
                needed_blocks == req.blocks_needed(i as nat),
            decreases partitions.len() - i,
        {
            proof {
                let (low, high) = req.extent(i as int);
                assert(partitions@[i as int]@ == req.placed(i as int));
                lemma_blocks_ordered(low, high + 1, req.cyl());
                lemma_blocks_ordered(high - low + 1, high + 1, req.cyl());
                lemma_mul_is_distributive_add_other_way(req.cyl(), low, high - low + 1);
            }
            needed_blocks = max64(
                needed_blocks,
                partitions[i].start_lba + partitions[i].block_len,
            );
            i += 1;
        }
        if let Some(available) = sink_blocks {
            if needed_blocks > available {
                return Err(BuildError::SinkTooSmall { needed: needed_blocks, available });
            }
        }
        let l = RdbLayout {
            rdsk_block: self.rdsk_block as u64,
            rdb_blocks_lo: 0,
            rdb_blocks_hi: (reserved - 1) as u32,
            high_rdsk_block: (self.rdsk_block as u64 + needed - 1) as u32,
            lo_cylinder,
            hi_cylinder: last_cylinder,
            geometry: g,
            partitions,
            filesystems,
        };
        assert(l@.partitions =~= req.layout().partitions);
        assert(l@ =~= req.layout());
        Ok(l)
    }

    /// The `RDSK` block, sealed.
    #[verifier::rlimit(100)]
    fn fill_rdsk<E>(&self, buf: &mut [u8], l: &RdbLayout) -> (r: Result<(), BuildError<E>>)
        requires
            bytes::supported_block_size(self@.geometry.block_size as int),
            self@.early_refusal() is None,
            old(buf)@ == image::zeros(self@.geometry.block_size as nat),
            l@ == self@.layout(),
        ensures
            r is Ok,
            final(buf)@ == self@.rdsk_image(),
    {
        let ghost req = self@;
        proof {
            lemma_fs_blocks_grow(req, 0, req.filesystems.len());
        }
        let g = l.geometry;
        let cyl_blocks: u32 = g.cylinder_blocks() as u32;
        assert(l@.partitions.len() == req.specs.len());
        let first_part: u32 = if l.partitions.len() > 0 {
            assert(l.partitions@[0]@ == l@.partitions[0]);
            assert(l@.partitions[0] == req.placed(0));
            l.partitions[0].part_block as u32
        } else {
            CHAIN_END
        };
        let first_fshd: u32 = if l.filesystems.len() > 0 {
            l.filesystems[0].fshd_block as u32
        } else {
            CHAIN_END
        };
        assert(l.filesystems@.len() == req.filesystems.len());
        assert(first_part == req.rdsk_long(7));
        assert(first_fshd == req.rdsk_long(8));
        assert(cyl_blocks == req.rdsk_long(36));
        put_be32(buf, hdr::ID, id::RDSK);
        put_be32(buf, rdsk::HOST_ID, self.host_id);
        put_be32(buf, rdsk::BLOCK_BYTES, g.block_size as u32);
        put_be32(buf, rdsk::FLAGS, self.flags);
        put_be32(buf, rdsk::BAD_BLOCK_LIST, CHAIN_END);
        put_be32(buf, rdsk::PARTITION_LIST, first_part);
        put_be32(buf, rdsk::FILESYS_HEADER_LIST, first_fshd);
        put_be32(buf, rdsk::DRIVE_INIT, CHAIN_END);
        put_be32(buf, rdsk::CYLINDERS, g.cylinders);
        put_be32(buf, rdsk::SECTORS, g.sectors);
        put_be32(buf, rdsk::HEADS, g.heads);
        put_be32(buf, rdsk::INTERLEAVE, rdsk_defaults::INTERLEAVE);
        put_be32(buf, rdsk::PARK, g.cylinders);
        put_be32(buf, rdsk::WRITE_PRE_COMP, g.cylinders);
        put_be32(buf, rdsk::REDUCED_WRITE, g.cylinders);
        put_be32(buf, rdsk::STEP_RATE, rdsk_defaults::STEP_RATE);
        put_be32(buf, rdsk::RDB_BLOCKS_LO, l.rdb_blocks_lo);
        put_be32(buf, rdsk::RDB_BLOCKS_HI, l.rdb_blocks_hi);
        put_be32(buf, rdsk::LO_CYLINDER, l.lo_cylinder);
        put_be32(buf, rdsk::HI_CYLINDER, l.hi_cylinder);
        put_be32(buf, rdsk::CYL_BLOCKS, cyl_blocks);
        put_be32(buf, rdsk::AUTO_PARK_SECONDS, rdsk_defaults::AUTO_PARK_SECONDS);
        put_be32(buf, rdsk::HIGH_RDSK_BLOCK, l.high_rdsk_block);
        let ghost longs = |k: int| req.rdsk_long(k);
        proof {
            assert forall|k: int| 0 <= k < buf@.len() / 4 implies #[trigger] bytes::long_at(
                buf@,
                4 * k,
            ) == longs(k) by {
                image::lemma_zeros_long(buf@.len(), 4 * k);
            }
            image::lemma_block_is(buf@, longs);
        }
        match seal_checksum(buf, HEADER_SUMMED_LONGS) {
            Ok(_) => Ok(()),
            Err(e) => Err(BuildError::Seal(e)),
        }
    }

    /// The `PART` block of partition `i`, sealed.
    fn fill_part<E>(&self, buf: &mut [u8], i: usize, placed: &PlacedPartition, next: u32) -> (r:
        Result<(), BuildError<E>>)
        requires
            bytes::supported_block_size(self@.geometry.block_size as int),
            layout::name_refusal(self@.specs, self@.specs.len()) is None,
            i < self@.specs.len(),
            old(buf)@ == image::zeros(self@.geometry.block_size as nat),
            placed@ == self@.placed(i as int),
            next == self@.part_next(i as int),
        ensures
            r is Ok,
            final(buf)@ == self@.part_image(i as int),
    {
        proof {
            assert(self@.specs.len() == self.specs.len());
            lemma_name_fits(self@.specs, i as int);
        }
        fill_part_fields(
            buf,
            &self.specs[i],
            placed.name.as_str(),
            placed.low_cyl,
            placed.high_cyl,
            next,
            PartContext {
                host_id: self.host_id,
                heads: self.geometry.heads,
                sectors: self.geometry.sectors,
                block_size: self.geometry.block_size,
            },
        );
        match seal_checksum(buf, HEADER_SUMMED_LONGS) {
            Ok(_) => Ok(()),
            Err(e) => Err(BuildError::Seal(e)),
        }
    }

    /// The `FSHD` block of filesystem `i`, sealed.
    fn fill_fshd<E>(&self, buf: &mut [u8], i: usize, placed: &PlacedFileSystem, next: u32) -> (r:
        Result<(), BuildError<E>>)
        requires
            bytes::supported_block_size(self@.geometry.block_size as int),
            i < self@.filesystems.len(),
            old(buf)@ == image::zeros(self@.geometry.block_size as nat),
            *placed == self@.placed_fs(i as int),
            next == self@.fshd_next(i as int),
        ensures
            r is Ok,
            final(buf)@ == self@.fshd_image(i as int),
    {
        fill_fshd_fields(buf, &self.filesystems[i], placed.seg_list_blocks, next);
        match seal_checksum(buf, HEADER_SUMMED_LONGS) {
            Ok(_) => Ok(()),
            Err(e) => Err(BuildError::Seal(e)),
        }
    }

    /// `LSEG` block `c` of driver `i`, sealed over the longwords it sums.
    fn fill_lseg<E>(&self, buf: &mut [u8], i: usize, c: usize, next: u32) -> (r: Result<
        (),
        BuildError<E>,
    >)
        requires
            bytes::supported_block_size(self@.geometry.block_size as int),
            i < self@.filesystems.len(),
            c < self@.lseg_count(i as int),
            old(buf)@ == image::zeros(self@.geometry.block_size as nat),
            next == self@.lseg_next(i as int, c as int),
        ensures
            r is Ok,
            final(buf)@ == self@.lseg_image(i as int, c as int),
    {
        let ghost req = self@;
        proof {
            lemma_chunk(req, i as int, c as int);
        }
        let payload: usize = lseg_payload_bytes(self.geometry.block_size);
        let spec = &self.filesystems[i];
        assert(spec.binary@.len() == spec.binary.len());
        let start: usize = c * payload;
        let end: usize = if spec.binary.len() - start <= payload {
            spec.binary.len()
        } else {
            start + payload
        };
        let data = vstd::slice::slice_subrange(spec.binary.as_slice(), start, end);
        assert(data@ =~= req.chunk(i as int, c as int));
        let summed: u32 = fill_lseg_fields(buf, spec.host_id, data, next);
        match seal_checksum(buf, summed) {
            Ok(_) => Ok(()),
            Err(e) => Err(BuildError::Seal(e)),
        }
    }

    /// Write the `PART` blocks.
    fn write_partitions<S: BlockSink>(
        &self,
        sink: &mut S,
        l: &RdbLayout,
        start: Ghost<S>,
    ) -> (r: Result<(), BuildError<S::Error>>)
        requires
            self@.can_write(*old(sink)),
            l@ == self@.layout(),
            media::written_so_far(*old(sink), start@, self@.writes(), 0),
        ensures
            final(sink).target().block_size == old(sink).target().block_size,
            match r {
                Ok(_) => media::written_so_far(
                    *final(sink),
                    start@,
                    self@.writes(),
                    self@.specs.len() as int,
                ),
                Err(BuildError::Io(e)) => media::broke_off(
                    *final(sink),
                    start@,
                    self@.writes(),
                    e,
                ),
                Err(_) => false,
            },
    {
        let ghost req = self@;
        let ghost writes = req.writes();
        let block_size: usize = self.geometry.block_size;
        assert(l@.partitions.len() == req.specs.len());
        let mut i: usize = 0;
        while i < l.partitions.len()
            invariant
                i <= l.partitions.len(),
                req == self@,
                writes == req.writes(),
                l@ == req.layout(),
                l@.partitions.len() == req.specs.len(),
                block_size == req.geometry.block_size,
                req.can_write(*sink),
                sink.target().block_size == old(sink).target().block_size,
                media::written_so_far(*sink, start@, writes, i as int),
            decreases l.partitions.len() - i,
        {
            assert(l.partitions@[i as int]@ == l@.partitions[i as int]);
            assert(l@.partitions[i as int] == req.placed(i as int));
            proof {
                lemma_fs_blocks_grow(req, 0, req.filesystems.len());
            }
            let next: u32 = if i + 1 < l.partitions.len() {
                assert(l.partitions@[i + 1]@ == l@.partitions[i + 1]);
                assert(l@.partitions[i + 1] == req.placed(i + 1));
                l.partitions[i + 1].part_block as u32
            } else {
                CHAIN_END
            };
            let mut buf: Vec<u8> = vec![0u8; block_size];
            assert(buf@ =~= image::zeros(block_size as nat));
            match self.fill_part(buf.as_mut_slice(), i, &l.partitions[i], next) {
                Ok(_) => {},
                Err(e) => {
                    return Err(e);
                },
            }
            assert(writes[i as int] == req.part_writes()[i as int]);
            match write_next(
                sink,
                l.partitions[i].part_block,
                buf.as_slice(),
                start,
                Ghost(writes),
                Ghost(i as int),
            ) {
                Ok(_) => {},
                Err(e) => {
                    return Err(BuildError::Io(e));
                },
            }
            i += 1;
        }
        Ok(())
    }

    /// Write the blocks of filesystem `i`: its driver, then its header.
    fn write_filesystem<S: BlockSink>(
        &self,
        sink: &mut S,
        l: &RdbLayout,
        i: usize,
        start: Ghost<S>,
    ) -> (r: Result<(), BuildError<S::Error>>)
        requires
            self@.can_write(*old(sink)),
            l@ == self@.layout(),
            i < self@.filesystems.len(),
            media::written_so_far(
                *old(sink),
                start@,
                self@.writes(),
                self@.specs.len() + self@.fs_blocks(i as nat),
            ),
        ensures
            final(sink).target().block_size == old(sink).target().block_size,
            match r {
                Ok(_) => media::written_so_far(
                    *final(sink),
                    start@,
                    self@.writes(),
                    self@.specs.len() + self@.fs_blocks((i + 1) as nat),
                ),
                Err(BuildError::Io(e)) => media::broke_off(
                    *final(sink),
                    start@,
                    self@.writes(),
                    e,
                ),
                Err(_) => false,
            },
    {
        let ghost req = self@;
        let ghost writes = req.writes();
        let ghost n = req.filesystems.len();
        let ghost base = req.specs.len() + req.fs_blocks(i as nat);
        let block_size: usize = self.geometry.block_size;
        let placed = &l.filesystems[i];
        proof {
            lemma_fs_blocks_grow(req, i as nat, n);
            lemma_fs_blocks_grow(req, i as nat, (i + 1) as nat);
            lemma_fs_writes(req, i as nat, n);
            lemma_fs_writes(req, n, n);
            assert(*placed == req.placed_fs(i as int));
            assert(0 <= req.lseg_count(i as int) <= u32::MAX);
        }
        let count: usize = placed.lseg_block_count as usize;
        let mut c: usize = 0;
        while c < count
            invariant
                c <= count,
                req == self@,
                writes == req.writes(),
                n == req.filesystems.len(),
                i < n,
                base == req.specs.len() + req.fs_blocks(i as nat),
                base + count < writes.len(),
                count == req.lseg_count(i as int),
                block_size == req.geometry.block_size,
                bytes::supported_block_size(block_size as int),
                req.fshd_block(i as int) + 1 + count <= u32::MAX,
                0 <= req.fshd_block(i as int),
                count > 0 ==> placed.seg_list_blocks == req.fshd_block(i as int) + 1,
                req.can_write(*sink),
                sink.target().block_size == old(sink).target().block_size,
                media::written_so_far(*sink, start@, writes, base + c),
                forall|k: int|
                    0 <= k < count ==> #[trigger] req.fs_writes(n)[req.fs_blocks(i as nat) + k]
                        == req.lseg_writes(i as int)[k],
                req.fs_writes(n).len() == req.fs_blocks(n),
                req.fs_blocks(i as nat) + count < req.fs_blocks(n),
                req.fs_blocks(i as nat) >= 0,
            decreases count - c,
        {
            let lba: u64 = placed.seg_list_blocks as u64 + c as u64;
            let next: u32 = if c + 1 == count {
                CHAIN_END
            } else {
                (lba + 1) as u32
            };
            let mut buf: Vec<u8> = vec![0u8; block_size];
            assert(buf@ =~= image::zeros(block_size as nat));
            match self.fill_lseg(buf.as_mut_slice(), i, c, next) {
                Ok(_) => {},
                Err(e) => {
                    return Err(e);
                },
            }
            proof {
                assert(req.fs_writes(n)[req.fs_blocks(i as nat) + c] == req.lseg_writes(
                    i as int,
                )[c as int]);
                assert(writes[base + c] == req.fs_writes(n)[req.fs_blocks(i as nat) + c]);
            }
            match write_next(
                sink,
                lba,
                buf.as_slice(),
                start,
                Ghost(writes),
                Ghost(base + c),
            ) {
                Ok(_) => {},
                Err(e) => {
                    return Err(BuildError::Io(e));
                },
            }
            c += 1;
        }
        let next: u32 = if i + 1 < l.filesystems.len() {
            proof {
                assert(l.filesystems@[i + 1] == req.placed_fs(i + 1));
                lemma_fs_blocks_grow(req, (i + 1) as nat, n);
            }
            l.filesystems[i + 1].fshd_block as u32
        } else {
            CHAIN_END
        };
        let mut buf: Vec<u8> = vec![0u8; block_size];
        assert(buf@ =~= image::zeros(block_size as nat));
        match self.fill_fshd(buf.as_mut_slice(), i, placed, next) {
            Ok(_) => {},
            Err(e) => {
                return Err(e);
            },
        }
        assert(writes[base + count] == req.fs_writes(n)[req.fs_blocks(i as nat) + count]);
        match write_next(
            sink,
            placed.fshd_block,
            buf.as_slice(),
            start,
            Ghost(writes),
            Ghost(base + count),
        ) {
            Ok(_) => Ok(()),
            Err(e) => Err(BuildError::Io(e)),
        }
    }

    /// Compute the layout, validate it, and write it to `sink`.
    ///
    /// The `RDSK` block goes at the block asked for (default 0), the `PART`
    /// blocks follow it consecutively, then each filesystem's `FSHD` block and
    /// its driver, split across consecutive `LSEG` blocks. A spec without a
    /// name gets the first `DH`*n* no explicit name of the build claims. Sized
    /// partitions are packed from the first cylinder past the reserved area
    /// upward in the order added; explicit cylinder ranges go exactly where
    /// they say.
    pub fn build<S: BlockSink>(&self, sink: &mut S) -> (r: Result<RdbLayout, BuildError<S::Error>>)
        requires
            bytes::supported_block_size(old(sink).target().block_size as int)
                && self@.geometry.block_size == old(sink).target().block_size
                ==> self@.addresses_fit(),
        ensures
            ({
                let target = old(sink).target();
                let refusal = self@.refusal(target.block_size, target.block_count);
                match r {
                    Ok(l) => {
                        &&& refusal is None
                        &&& l@ == self@.layout()
                        &&& final(sink).target() == media::after_writes(target, self@.writes())
                    },
                    Err(BuildError::Io(e)) => {
                        &&& refusal is None
                        &&& media::broke_off(*final(sink), *old(sink), self@.writes(), e)
                    },
                    Err(e) => {
                        &&& e.refusal() is Some
                        &&& refusal == e.refusal()
                        &&& *final(sink) == *old(sink)
                    },
                }
            }),
    {
        let ghost req = self@;
        let ghost start = *sink;
        let ghost writes = req.writes();
        let block_size: usize = sink.block_size();
        if !block_size_ok(block_size) {
            return Err(BuildError::UnsupportedBlockSize { block_size });
        }
        if self.geometry.block_size != block_size {
            return Err(
                BuildError::BlockSizeMismatch {
                    geometry: self.geometry.block_size,
                    sink: block_size,
                },
            );
        }
        let l: RdbLayout = match self.layout(sink.block_count()) {
            Ok(l) => l,
            Err(e) => {
                return Err(e);
            },
        };
        proof {
            assert(writes.take(0) =~= Seq::empty());
            lemma_fs_writes(req, req.filesystems.len(), req.filesystems.len());
        }
        match self.write_partitions(sink, &l, Ghost(start)) {
            Ok(_) => {},
            Err(e) => {
                return Err(e);
            },
        }
        let mut i: usize = 0;
        while i < l.filesystems.len()
            invariant
                i <= l.filesystems.len(),
                req == self@,
                start == *old(sink),
                writes == req.writes(),
                l@ == req.layout(),
                req.can_write(*sink),
                req.refusal(start.target().block_size, start.target().block_count) is None,
                sink.target().block_size == block_size,
                media::written_so_far(
                    *sink,
                    start,
                    writes,
                    req.specs.len() + req.fs_blocks(i as nat),
                ),
            decreases l.filesystems.len() - i,
        {
            match self.write_filesystem(sink, &l, i, Ghost(start)) {
                Ok(_) => {},
                Err(e) => {
                    return Err(e);
                },
            }
            i += 1;
        }
        let mut buf: Vec<u8> = vec![0u8; block_size];
        assert(buf@ =~= image::zeros(block_size as nat));
        match self.fill_rdsk(buf.as_mut_slice(), &l) {
            Ok(_) => {},
            Err(e) => {
                return Err(e);
            },
        }
        match write_next(
            sink,
            l.rdsk_block,
            buf.as_slice(),
            Ghost(start),
            Ghost(writes),
            Ghost(writes.len() - 1),
        ) {
            Ok(_) => {},
            Err(e) => {
                return Err(BuildError::Io(e));
            },
        }
        assert(writes.take(writes.len() as int) =~= writes);
        Ok(l)
    }
}

/// The name a partition gets fits the field.
pub proof fn lemma_name_fits(specs: Seq<PartitionSpec>, i: int)
    requires
        layout::name_refusal(specs, specs.len()) is None,
        0 <= i < specs.len() <= u64::MAX,
    ensures
        names::name_fits(layout::name_of(specs, i)),
{
    match specs[i].explicit_name() {
        Some(_) => {
            lemma_no_name_refusal(specs, specs.len(), i);
        },
        None => {
            lemma_numbers_accounted(specs, i as nat);
            names::lemma_dh_fits(
                names::first_free(
                    layout::explicit_names(specs),
                    layout::number_cursor(specs, i as nat),
                ),
            );
        },
    }
}

/// The number an unnamed partition gets is free.
pub proof fn lemma_number_is_free(specs: Seq<PartitionSpec>, i: int)
    requires
        0 <= i < specs.len(),
        specs[i].name is None,
    ensures
        names::is_first_free(
            layout::explicit_names(specs),
            layout::number_cursor(specs, i as nat),
            names::first_free(
                layout::explicit_names(specs),
                layout::number_cursor(specs, i as nat),
            ),
        ),
        0 <= names::first_free(
            layout::explicit_names(specs),
            layout::number_cursor(specs, i as nat),
        ) < specs.len(),
{
    lemma_numbers_accounted(specs, i as nat);
}

/// Where no name is refused, none of them is.
pub proof fn lemma_no_name_refusal(specs: Seq<PartitionSpec>, n: nat, i: int)
    requires
        layout::name_refusal(specs, n) is None,
        0 <= i < n,
    ensures
        layout::name_refusal_at(specs, i) is None,
    decreases n,
{
    if i < n - 1 {
        lemma_no_name_refusal(specs, (n - 1) as nat, i);
    }
}

} // verus!
