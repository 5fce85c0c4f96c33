//! Editing an RDB that already exists, in place.
use std::collections::BTreeMap;
use vstd::prelude::*;
use vstd::string::*;
use vstd::utf8::*;

use crate::bytes::{be32, put_be32, CHAIN_END};
use crate::commit::TableRef;
use crate::edit_error::{CommitError, CommitReport, EditError, Rejection};
use crate::extent::{check_cylinders, check_expand, check_extent, check_lo_cylinder, place_by_size};
use crate::image::{
    fill_badb_fields, fill_fshd_fields, fill_lseg_fields, fill_part_fields, lseg_payload_bytes,
    PartContext, MAX_DRIVE_NAME,
};
use crate::media::{BlockSink, BlockSource};
use crate::model::{
    parse_fshd, parse_part, parse_rdsk, BadBlockEntry, FileSysHeader, Partition, Rdb,
};
use crate::names::{dh_name, drive_name_fits, find_free};
use crate::opening::read_table;
use crate::patch::{patch_envec, patch_field, patch_name};
use crate::plan::OriginalLinks;
use crate::specs::{FileSystemSpec, PartitionSpec, Placement};
use crate::table::{Driver, DriverBlocks, Raw, RawBlock, Table, UNPLACED_BLOCK};
use crate::walk::RdbError;
use crate::{
    arith, badb, bytes, commit, de, extent, hdr, id, image, lseg, model, names, opening, part,
    patch, rdb_flags, rdsk, table, text,
};

verus! {

broadcast use crate::bytes::group_long_axioms;

/// Edits an RDB that already exists.
///
/// [`open`](Self::open) reads every block of the table and keeps its bytes. An
/// edit patches the field it is about and nothing else, and a commit writes the
/// blocks back. Fields that nothing here has a name for survive, because no
/// block is ever taken apart.
#[derive(Debug, Clone, PartialEq, Eq)]
pub struct RdbEditor {
    rdb: Rdb,
    block_size: usize,
    rdsk: Vec<u8>,
    parts: Vec<RawBlock>,
    drivers: Vec<DriverBlocks>,
    badbs: Vec<RawBlock>,
    original: BTreeMap<u64, OriginalLinks>,
    disk_blocks: Option<u64>,
    opened_rdb_blocks_hi: u32,
}

impl View for RdbEditor {
    type V = Table;

    closed spec fn view(&self) -> Table {
        Table {
            block_size: self.block_size,
            rdsk_block: self.rdb.rdsk_block,
            rdsk: self.rdsk@,
            parts: table::raws(self.parts@),
            drivers: table::drivers_of(self.drivers@),
            badbs: table::raws(self.badbs@),
            original: self.original@,
            disk_blocks: self.disk_blocks,
            opened_hi: self.opened_rdb_blocks_hi,
        }
    }
}

/// What an edit of partition `index` that makes its block `b` comes to.
pub open spec fn part_edited(
    before: RdbEditor,
    after: RdbEditor,
    r: Result<(), EditError>,
    index: usize,
    b: Seq<u8>,
) -> bool {
    match r {
        Ok(_) => {
            &&& index < before@.parts.len()
            &&& after.wf()
            &&& after@ == before@.with_part(index as int, b)
        },
        Err(e) => {
            &&& index >= before@.parts.len()
            &&& e@ == Rejection::NoSuchPartition { index, count: before@.parts.len() as usize }
            &&& after == before
        },
    }
}

/// What an edit of one envec longword of partition `index` comes to.
pub open spec fn envec_edited(
    before: RdbEditor,
    after: RdbEditor,
    r: Result<(), EditError>,
    index: usize,
    field: usize,
    value: u32,
) -> bool {
    &&& part_edited(
        before,
        after,
        r,
        index,
        patch::with_envec(before@.parts[index as int].bytes, field as int, value),
    )
    &&& r is Ok ==> model::envec_present(after@.parts[index as int].bytes, field as int) == Some(
        value,
    )
}

/// `flags` with `bit` set or cleared.
pub open spec fn flag_set(flags: u32, bit: u32, set: bool) -> u32 {
    if set {
        flags | bit
    } else {
        flags & !bit
    }
}

/// An identification field and the value asked for: its name, where it is, and
/// the value.
pub struct IdentityField<'a> {
    /// The field's name.
    pub field: &'static str,
    /// Its offset and its length.
    pub at: (usize, usize),
    /// The value asked for.
    pub value: &'a str,
}

/// Why the value does not fit the field, if it does not.
pub open spec fn identity_refusal(f: IdentityField) -> Option<Rejection> {
    if encode_utf8(f.value@).len() > f.at.1 {
        Some(Rejection::IdentityTooLong { field: f.field@, value: f.value@, max: f.at.1 })
    } else {
        None
    }
}

/// The first refusal of three fields.
pub open spec fn first_identity_refusal(
    a: IdentityField,
    b: IdentityField,
    c: IdentityField,
) -> Option<Rejection> {
    match (identity_refusal(a), identity_refusal(b), identity_refusal(c)) {
        (Some(r), _, _) => Some(r),
        (_, Some(r), _) => Some(r),
        (_, _, r) => r,
    }
}

/// `b` with three identification fields replaced and `flag` turned on.
pub open spec fn with_identity(
    b: Seq<u8>,
    vendor: IdentityField,
    product: IdentityField,
    revision: IdentityField,
    flag: u32,
) -> Seq<u8> {
    let named = patch::with_field(
        patch::with_field(
            patch::with_field(b, vendor.at, vendor.value@),
            product.at,
            product.value@,
        ),
        revision.at,
        revision.value@,
    );
    bytes::with_long(
        named,
        rdsk::FLAGS as int,
        bytes::long_at(named, rdsk::FLAGS as int) | flag,
    )
}

/// The disk's three identification fields.
pub open spec fn disk_fields<'a>(vendor: &'a str, product: &'a str, revision: &'a str) -> (
    IdentityField<'a>,
    IdentityField<'a>,
    IdentityField<'a>,
) {
    (
        IdentityField { field: "rdb_DiskVendor", at: rdsk::DISK_VENDOR, value: vendor },
        IdentityField { field: "rdb_DiskProduct", at: rdsk::DISK_PRODUCT, value: product },
        IdentityField { field: "rdb_DiskRevision", at: rdsk::DISK_REVISION, value: revision },
    )
}

/// The controller's three identification fields.
pub open spec fn controller_fields<'a>(vendor: &'a str, product: &'a str, revision: &'a str) -> (
    IdentityField<'a>,
    IdentityField<'a>,
    IdentityField<'a>,
) {
    (
        IdentityField { field: "rdb_ControllerVendor", at: rdsk::CONTROLLER_VENDOR, value: vendor },
        IdentityField {
            field: "rdb_ControllerProduct",
            at: rdsk::CONTROLLER_PRODUCT,
            value: product,
        },
        IdentityField {
            field: "rdb_ControllerRevision",
            at: rdsk::CONTROLLER_REVISION,
            value: revision,
        },
    )
}

/// The names of the partitions other than `index`.
pub open spec fn other_names(rdb: Rdb, index: int) -> Set<Seq<char>> {
    Set::new(
        |n: Seq<char>|
            exists|i: int|
                0 <= i < rdb.partitions@.len() && i != index && (
                #[trigger] rdb.partitions@[i]).name@ == n,
    )
}

/// The names of the partitions.
pub open spec fn all_names(rdb: Rdb) -> Set<Seq<char>> {
    other_names(rdb, -1)
}

/// Why a new partition cannot have the name it asks for, if it cannot.
pub open spec fn new_name_refusal(rdb: Rdb, spec: PartitionSpec) -> Option<Rejection> {
    match spec.explicit_name() {
        Some(name) => if !names::name_fits(name) {
            Some(Rejection::InvalidName { name, max: MAX_DRIVE_NAME })
        } else if all_names(rdb).contains(name) {
            Some(Rejection::DuplicateName { name })
        } else {
            None
        },
        None => None,
    }
}

/// The name of a new partition: the one asked for, or the first `DH`*n* that no
/// partition carries.
pub open spec fn new_name(rdb: Rdb, spec: PartitionSpec) -> Seq<char> {
    match spec.explicit_name() {
        Some(name) => name,
        None => names::dh(names::first_free(all_names(rdb), 0)),
    }
}

/// Cylinders `low..=high`, where they are a legal extent of a new partition.
pub open spec fn legal_extent(rdb: Rdb, low: u32, high: u32) -> Result<(u32, u32), Rejection> {
    match extent::extent_refusal(rdb, None, low, high, extent::drive_cyl(rdb)) {
        Some(x) => Err(x),
        None => Ok((low, high)),
    }
}

/// Which cylinders a new partition may get, or why it gets none.
pub open spec fn add_outcome(
    rdb: Rdb,
    block_size: usize,
    spec: PartitionSpec,
    r: Result<(u32, u32), Rejection>,
) -> bool {
    let cyl = extent::drive_cyl(rdb);
    if cyl == 0 {
        r == Err::<(u32, u32), Rejection>(
            Rejection::UnusableGeometry { heads: rdb.heads, sectors: rdb.sectors },
        )
    } else {
        match new_name_refusal(rdb, spec) {
            Some(x) => r == Err::<(u32, u32), Rejection>(x),
            None => match spec.placement {
                Placement::Cylinders { low, high } => r == legal_extent(rdb, low, high),
                Placement::Size(bytes) => exists|p: Result<(u32, u32), Rejection>|
                    {
                        &&& #[trigger] extent::size_outcome(rdb, block_size, bytes, cyl, p)
                        &&& match p {
                            Ok((low, high)) => r == legal_extent(rdb, low, high),
                            Err(x) => r == Err::<(u32, u32), Rejection>(x),
                        }
                    },
            },
        }
    }
}

/// The disk-level values a new `PART` block copies.
pub open spec fn part_context(rdb: Rdb, block_size: usize) -> PartContext {
    PartContext { host_id: rdb.host_id, heads: rdb.heads, sectors: rdb.sectors, block_size }
}

/// The block of a new partition.
pub open spec fn added_part(
    rdb: Rdb,
    block_size: usize,
    spec: PartitionSpec,
    low: u32,
    high: u32,
) -> Raw {
    Raw {
        lba: UNPLACED_BLOCK,
        bytes: image::new_part(
            block_size as nat,
            spec,
            new_name(rdb, spec),
            low,
            high,
            CHAIN_END,
            part_context(rdb, block_size),
        ),
    }
}

/// Why partition `index` cannot get cylinders `low..=high`, if it cannot.
pub open spec fn move_refusal(
    t: Table,
    rdb: Rdb,
    index: usize,
    low: u32,
    high: u32,
) -> Option<Rejection> {
    if index >= t.parts.len() {
        Some(Rejection::NoSuchPartition { index, count: t.parts.len() as usize })
    } else {
        let cyl = rdb.partitions@[index as int].cylinder_blocks as int;
        if cyl == 0 {
            Some(
                Rejection::UnusableGeometry {
                    heads: model::envec(t.parts[index as int].bytes, de::SURFACES as int),
                    sectors: model::envec(t.parts[index as int].bytes, de::BLOCKS_PER_TRACK as int),
                },
            )
        } else {
            extent::extent_refusal(rdb, Some(index), low, high, cyl)
        }
    }
}

/// `p` has cylinders `low..=high`, of `cylinder_blocks` blocks each, and the
/// blocks that go with them.
pub open spec fn stands_at(p: Partition, low: u32, high: u32, cylinder_blocks: u64) -> bool {
    &&& p.low_cyl == low
    &&& p.high_cyl == high
    &&& p.cylinder_blocks == cylinder_blocks
    &&& p.start_lba == crate::arith::saturated(low * cylinder_blocks)
    &&& p.block_len == model::extent_len(low, high, cylinder_blocks as int)
}

/// The `LSEG` blocks of a new driver.
pub open spec fn new_chain(block_size: usize, spec: FileSystemSpec) -> Seq<Raw> {
    let payload = block_size - lseg::LOAD_DATA;
    Seq::new(
        image::piece_count(spec.binary@.len(), payload) as nat,
        |c: int|
            Raw {
                lba: UNPLACED_BLOCK,
                bytes: image::new_lseg(
                    block_size as nat,
                    spec.host_id,
                    image::piece(spec.binary@, payload, c),
                    CHAIN_END,
                ),
            },
    )
}

/// The blocks of a new filesystem. The pointer to the driver is decided by the
/// commit; whether there is one is not.
pub open spec fn new_driver(block_size: usize, spec: FileSystemSpec) -> Driver {
    Driver {
        header: Raw {
            lba: UNPLACED_BLOCK,
            bytes: image::new_fshd(
                block_size as nat,
                spec,
                if spec.binary@.len() == 0 {
                    CHAIN_END
                } else {
                    0
                },
                CHAIN_END,
            ),
        },
        chain: new_chain(block_size, spec),
    }
}

/// The partitions, of the first `n`, that have the dostype.
pub open spec fn with_dos_type(rdb: Rdb, dos_type: u32, n: nat) -> Seq<usize>
    decreases n,
{
    if n == 0 {
        Seq::empty()
    } else if rdb.partitions@[n - 1].dos_type == dos_type {
        with_dos_type(rdb, dos_type, (n - 1) as nat).push((n - 1) as usize)
    } else {
        with_dos_type(rdb, dos_type, (n - 1) as nat)
    }
}

/// How many entries a `BADB` block holds.
pub open spec fn badb_capacity(block_size: usize) -> int {
    (block_size - badb::ENTRIES) / 8
}

/// The blocks of a new bad-block list.
pub open spec fn new_badbs(block_size: usize, host_id: u32, entries: Seq<BadBlockEntry>) -> Seq<
    Raw,
> {
    Seq::new(
        image::piece_count(entries.len(), badb_capacity(block_size)) as nat,
        |c: int|
            Raw {
                lba: UNPLACED_BLOCK,
                bytes: image::new_badb(
                    block_size as nat,
                    host_id,
                    image::piece(entries, badb_capacity(block_size), c),
                ),
            },
    )
}

/// What opening the table on `disk` may give.
pub open spec fn open_outcome<S: BlockSource>(
    disk: S,
    r: Result<RdbEditor, RdbError<S::Error>>,
) -> bool {
    match r {
        Ok(editor) => {
            &&& exists|chains: Seq<Seq<u64>>|
                table::opened_as(disk.medium(), editor.model(), chains, editor@)
            &&& editor.wf()
        },
        Err(e) => opening::open_fails(disk, e),
    }
}

impl RdbEditor {
    /// The table as the edits have left it.
    pub closed spec fn model(&self) -> Rdb {
        self.rdb
    }

    /// The table can be written back, and the model says what its blocks say.
    pub open spec fn wf(&self) -> bool {
        self@.wf() && table::in_step(self@, self.model())
    }

    /// Parse the RDB on `disk` and read every block of it into memory, the
    /// driver chains included. Two filesystems that share a driver block are
    /// refused.
    pub fn open<S: BlockSource>(disk: &mut S) -> (r: Result<Self, RdbError<S::Error>>)
        ensures
            final(disk).medium() == old(disk).medium(),
            forall|l: u64, e: S::Error|
                #[trigger] final(disk).read_fails(l, e) == old(disk).read_fails(l, e),
            open_outcome(*old(disk), r),
    {
        match read_table(disk) {
            Ok(o) => {
                let opened_rdb_blocks_hi: u32 = o.rdb.rdb_blocks_hi;
                let editor = RdbEditor {
                    rdb: o.rdb,
                    block_size: o.block_size,
                    rdsk: o.rdsk,
                    parts: o.parts,
                    drivers: o.drivers,
                    badbs: o.badbs,
                    original: o.original,
                    disk_blocks: o.disk_blocks,
                    opened_rdb_blocks_hi,
                };
                assert(editor@ == o@);
                Ok(editor)
            },
            Err(e) => Err(e),
        }
    }

    /// The RDB as it stands, edits included. Every field is the edited value;
    /// every block address is where the structure was found, and provisional
    /// until a commit.
    pub fn rdb(&self) -> (r: &Rdb)
        ensures
            *r == self.model(),
    {
        &self.rdb
    }

    /// The partitions as they stand, edits included.
    pub fn partitions(&self) -> (r: &[Partition])
        ensures
            r@ == self.model().partitions@,
    {
        self.rdb.partitions.as_slice()
    }

    /// Replace the bytes of a `PART` block and bring the model back in step.
    fn store_part(&mut self, index: usize, block: Vec<u8>)
        requires
            old(self).wf(),
            index < old(self)@.parts.len(),
            table::sound_bytes(block@, id::PART, old(self)@.block_size),
        ensures
            final(self).wf(),
            final(self)@ == old(self)@.with_part(index as int, block@),
    {
        let ghost before = *self;
        let lba: u64 = self.parts[index].lba;
        proof {
            table::lemma_with_part_wf(self@, index as int, block@);
        }
        let parsed = parse_part(block.as_slice(), lba);
        let ghost b = block@;
        self.parts.set(index, RawBlock { lba, bytes: block });
        self.rdb.partitions.set(index, parsed);
        proof {
            assert(table::raws(self.parts@) =~= before@.with_part(index as int, b).parts);
            assert(self@ =~= before@.with_part(index as int, b));
            assert(table::partitions_in_step(self@.parts, self.rdb));
            assert(table::filesystems_in_step(self@.drivers, self.rdb));
            assert(table::bad_blocks_in_step(self@.badbs, self.rdb));
        }
    }

    /// The bytes of a `PART` block, to be edited.
    fn part_bytes(&self, index: usize) -> (r: Result<Vec<u8>, EditError>)
        requires
            self.wf(),
        ensures
            match r {
                Ok(b) => {
                    &&& index < self@.parts.len()
                    &&& b@ == self@.parts[index as int].bytes
                    &&& b@.len() == self@.block_size
                    &&& b@.len() >= 512
                },
                Err(e) => {
                    &&& index >= self@.parts.len()
                    &&& e@ == Rejection::NoSuchPartition {
                        index,
                        count: self@.parts.len() as usize,
                    }
                },
            },
    {
        if index >= self.parts.len() {
            return Err(EditError::NoSuchPartition { index, count: self.parts.len() });
        }
        assert(self@.parts[index as int] == self.parts@[index as int]@);
        Ok(self.parts[index].bytes.clone())
    }

    /// Set one envec longword, extending `de_TableSize` where the field lies
    /// past it.
    fn set_envec(&mut self, index: usize, field: usize, value: u32) -> (r: Result<(), EditError>)
        requires
            old(self).wf(),
            0 < field < 96,
        ensures
            envec_edited(*old(self), *final(self), r, index, field, value),
    {
        let mut block = match self.part_bytes(index) {
            Ok(block) => block,
            Err(e) => {
                return Err(e);
            },
        };
        let ghost b = block@;
        patch_envec(block.as_mut_slice(), field, value);
        proof {
            patch::law_set_envec_reads_back(b, field as int, value);
            assert(bytes::long_at(block@, hdr::ID as int) == bytes::long_at(b, hdr::ID as int)) by {
                bytes::lemma_long_at_same_bytes(block@, b, hdr::ID as int);
            }
            assert(bytes::long_at(block@, hdr::SUMMED_LONGS as int) == bytes::long_at(
                b,
                hdr::SUMMED_LONGS as int,
            )) by {
                bytes::lemma_long_at_same_bytes(block@, b, hdr::SUMMED_LONGS as int);
            }
        }
        self.store_part(index, block);
        Ok(())
    }

    /// Set `pb_DriveName`. The field is cleared first, so a shorter name leaves
    /// none of the old one behind.
    pub fn set_name(&mut self, index: usize, name: &str) -> (r: Result<(), EditError>)
        requires
            old(self).wf(),
        ensures
            if !names::name_fits(name@) {
                &&& r matches Err(e) && e@ == (Rejection::InvalidName {
                    name: name@,
                    max: MAX_DRIVE_NAME,
                })
                &&& *final(self) == *old(self)
            } else if other_names(old(self).model(), index as int).contains(name@) {
                &&& r matches Err(e) && e@ == (Rejection::DuplicateName { name: name@ })
                &&& *final(self) == *old(self)
            } else {
                &&& part_edited(
                    *old(self),
                    *final(self),
                    r,
                    index,
                    patch::with_name(old(self)@.parts[index as int].bytes, name@),
                )
                &&& r is Ok ==> final(self).model().partitions@[index as int].name@
                    == text::latin1(encode_utf8(name@))
            },
    {
        if !drive_name_fits(name) {
            return Err(
                EditError::InvalidName { name: String::from_str(name), max: MAX_DRIVE_NAME },
            );
        }
        let wanted: String = String::from_str(name);
        let mut i: usize = 0;
        while i < self.rdb.partitions.len()
            invariant
                i <= self.rdb.partitions.len(),
                *self == *old(self),
                wanted@ == name@,
                names::name_fits(name@),
                forall|j: int|
                    0 <= j < i && j != index ==> (#[trigger] self.rdb.partitions@[j]).name@
                        != name@,
            decreases self.rdb.partitions.len() - i,
        {
            if i != index && self.rdb.partitions[i].name == wanted {
                assert(other_names(self.model(), index as int).contains(name@));
                return Err(EditError::DuplicateName { name: wanted });
            }
            i += 1;
        }
        assert(!other_names(self.model(), index as int).contains(name@));
        let mut block = match self.part_bytes(index) {
            Ok(block) => block,
            Err(e) => {
                return Err(e);
            },
        };
        let ghost b = block@;
        patch_name(block.as_mut_slice(), name);
        proof {
            patch::law_set_name_reads_back(b, name@);
        }
        self.store_part(index, block);
        Ok(())
    }

    /// Set `de_DosType`: which filesystem is to mount the partition.
    pub fn set_dos_type(&mut self, index: usize, dos_type: u32) -> (r: Result<(), EditError>)
        requires
            old(self).wf(),
        ensures
            envec_edited(*old(self), *final(self), r, index, de::DOS_TYPE, dos_type),
            r is Ok ==> final(self).model().partitions@[index as int].dos_type == dos_type,
    {
        self.set_envec(index, de::DOS_TYPE, dos_type)
    }

    /// Set `de_BootPri`. Whether the partition is bootable is another field.
    pub fn set_boot_priority(&mut self, index: usize, boot_pri: i32) -> (r: Result<(), EditError>)
        requires
            old(self).wf(),
        ensures
            envec_edited(*old(self), *final(self), r, index, de::BOOT_PRI, boot_pri as u32),
            r is Ok ==> final(self).model().partitions@[index as int].boot_pri == boot_pri,
    {
        assert((boot_pri as u32) as i32 == boot_pri) by (bit_vector);
        self.set_envec(index, de::BOOT_PRI, boot_pri as u32)
    }

    /// Set or clear one bit of `pb_Flags`. Every other bit is left as it was.
    fn set_part_flag(&mut self, index: usize, bit: u32, set: bool) -> (r: Result<(), EditError>)
        requires
            old(self).wf(),
        ensures
            part_edited(
                *old(self),
                *final(self),
                r,
                index,
                bytes::with_long(
                    old(self)@.parts[index as int].bytes,
                    part::FLAGS as int,
                    flag_set(
                        bytes::long_at(
                            old(self)@.parts[index as int].bytes,
                            part::FLAGS as int,
                        ),
                        bit,
                        set,
                    ),
                ),
            ),
    {
        let mut block = match self.part_bytes(index) {
            Ok(block) => block,
            Err(e) => {
                return Err(e);
            },
        };
        let flags: u32 = be32(block.as_slice(), part::FLAGS);
        let new_flags: u32 = if set {
            flags | bit
        } else {
            flags & !bit
        };
        put_be32(block.as_mut_slice(), part::FLAGS, new_flags);
        self.store_part(index, block);
        Ok(())
    }

    /// Set or clear `pb_Flags` bit 0, "the ROM may boot from this partition".
    pub fn set_bootable(&mut self, index: usize, bootable: bool) -> (r: Result<(), EditError>)
        requires
            old(self).wf(),
        ensures
            part_edited(
                *old(self),
                *final(self),
                r,
                index,
                bytes::with_long(
                    old(self)@.parts[index as int].bytes,
                    part::FLAGS as int,
                    flag_set(
                        bytes::long_at(
                            old(self)@.parts[index as int].bytes,
                            part::FLAGS as int,
                        ),
                        1,
                        bootable,
                    ),
                ),
            ),
            r is Ok ==> {
                let p = old(self).model().partitions@[index as int];
                let q = final(self).model().partitions@[index as int];
                q.bootable == bootable && q.no_automount == p.no_automount
            },
    {
        proof {
            let f = bytes::long_at(self@.parts[index as int].bytes, part::FLAGS as int);
            assert((f | 1) & 1 != 0 && (f | 1) & 2 == f & 2) by (bit_vector);
            assert((f & !1) & 1 == 0 && (f & !1) & 2 == f & 2) by (bit_vector);
        }
        self.set_part_flag(index, 1, bootable)
    }

    /// Set or clear automatic mounting. On disk the bit is the negative:
    /// `pb_Flags` bit 1 says not to mount.
    pub fn set_automount(&mut self, index: usize, automount: bool) -> (r: Result<(), EditError>)
        requires
            old(self).wf(),
        ensures
            part_edited(
                *old(self),
                *final(self),
                r,
                index,
                bytes::with_long(
                    old(self)@.parts[index as int].bytes,
                    part::FLAGS as int,
                    flag_set(
                        bytes::long_at(
                            old(self)@.parts[index as int].bytes,
                            part::FLAGS as int,
                        ),
                        2,
                        !automount,
                    ),
                ),
            ),
            r is Ok ==> {
                let p = old(self).model().partitions@[index as int];
                let q = final(self).model().partitions@[index as int];
                q.no_automount == !automount && q.bootable == p.bootable
            },
    {
        proof {
            let f = bytes::long_at(self@.parts[index as int].bytes, part::FLAGS as int);
            assert((f | 2) & 2 != 0 && (f | 2) & 1 == f & 1) by (bit_vector);
            assert((f & !2) & 2 == 0 && (f & !2) & 1 == f & 1) by (bit_vector);
        }
        self.set_part_flag(index, 2, !automount)
    }

    /// Set the whole of `pb_Flags`, the two named bits included.
    pub fn set_flags_raw(&mut self, index: usize, flags: u32) -> (r: Result<(), EditError>)
        requires
            old(self).wf(),
        ensures
            part_edited(
                *old(self),
                *final(self),
                r,
                index,
                bytes::with_long(
                    old(self)@.parts[index as int].bytes,
                    part::FLAGS as int,
                    flags,
                ),
            ),
    {
        let mut block = match self.part_bytes(index) {
            Ok(block) => block,
            Err(e) => {
                return Err(e);
            },
        };
        put_be32(block.as_mut_slice(), part::FLAGS, flags);
        self.store_part(index, block);
        Ok(())
    }

    /// Set `de_Reserved`: blocks held back at the start of the partition.
    pub fn set_reserved(&mut self, index: usize, blocks: u32) -> (r: Result<(), EditError>)
        requires
            old(self).wf(),
        ensures
            envec_edited(*old(self), *final(self), r, index, de::RESERVED, blocks),
    {
        self.set_envec(index, de::RESERVED, blocks)
    }

    /// Set `de_PreAlloc`: blocks held back at the end.
    pub fn set_pre_alloc(&mut self, index: usize, blocks: u32) -> (r: Result<(), EditError>)
        requires
            old(self).wf(),
        ensures
            envec_edited(*old(self), *final(self), r, index, de::PRE_ALLOC, blocks),
    {
        self.set_envec(index, de::PRE_ALLOC, blocks)
    }

    /// Set `de_Interleave`: the filesystem's interleave, not the drive's.
    pub fn set_interleave(&mut self, index: usize, interleave: u32) -> (r: Result<(), EditError>)
        requires
            old(self).wf(),
        ensures
            envec_edited(*old(self), *final(self), r, index, de::INTERLEAVE, interleave),
    {
        self.set_envec(index, de::INTERLEAVE, interleave)
    }

    /// Set `de_NumBuffers`: cache buffers the handler allocates at mount.
    pub fn set_num_buffers(&mut self, index: usize, buffers: u32) -> (r: Result<(), EditError>)
        requires
            old(self).wf(),
        ensures
            envec_edited(*old(self), *final(self), r, index, de::NUM_BUFFERS, buffers),
            r is Ok ==> final(self).model().partitions@[index as int].num_buffers == buffers,
    {
        self.set_envec(index, de::NUM_BUFFERS, buffers)
    }

    /// Set `de_BufMemType`: which memory those buffers want.
    pub fn set_buf_mem_type(&mut self, index: usize, mem_type: u32) -> (r: Result<(), EditError>)
        requires
            old(self).wf(),
        ensures
            envec_edited(*old(self), *final(self), r, index, de::BUF_MEM_TYPE, mem_type),
            r is Ok ==> final(self).model().partitions@[index as int].buf_mem_type == mem_type,
    {
        self.set_envec(index, de::BUF_MEM_TYPE, mem_type)
    }

    /// Set `de_MaxTransfer`: the largest transfer in one go.
    pub fn set_max_transfer(&mut self, index: usize, max_transfer: u32) -> (r: Result<(), EditError>)
        requires
            old(self).wf(),
        ensures
            envec_edited(*old(self), *final(self), r, index, de::MAX_TRANSFER, max_transfer),
            r is Ok ==> final(self).model().partitions@[index as int].max_transfer == max_transfer,
    {
        self.set_envec(index, de::MAX_TRANSFER, max_transfer)
    }

    /// Set `de_Mask`: the DMA-reachable address mask.
    pub fn set_mask(&mut self, index: usize, mask: u32) -> (r: Result<(), EditError>)
        requires
            old(self).wf(),
        ensures
            envec_edited(*old(self), *final(self), r, index, de::MASK, mask),
            r is Ok ==> final(self).model().partitions@[index as int].mask == mask,
    {
        self.set_envec(index, de::MASK, mask)
    }

    /// Set `de_Baud`, extending `de_TableSize` where the envec stops short of it.
    pub fn set_baud(&mut self, index: usize, baud: u32) -> (r: Result<(), EditError>)
        requires
            old(self).wf(),
        ensures
            envec_edited(*old(self), *final(self), r, index, de::BAUD, baud),
            r is Ok ==> final(self).model().partitions@[index as int].baud == Some(baud),
    {
        self.set_envec(index, de::BAUD, baud)
    }

    /// Set `de_Control`, extending `de_TableSize` where needed.
    pub fn set_control(&mut self, index: usize, control: u32) -> (r: Result<(), EditError>)
        requires
            old(self).wf(),
        ensures
            envec_edited(*old(self), *final(self), r, index, de::CONTROL, control),
            r is Ok ==> final(self).model().partitions@[index as int].control == Some(control),
    {
        self.set_envec(index, de::CONTROL, control)
    }

    /// Set `de_BootBlocks`, extending `de_TableSize` where needed.
    pub fn set_boot_blocks(&mut self, index: usize, blocks: u32) -> (r: Result<(), EditError>)
        requires
            old(self).wf(),
        ensures
            envec_edited(*old(self), *final(self), r, index, de::BOOT_BLOCKS, blocks),
            r is Ok ==> final(self).model().partitions@[index as int].boot_blocks == Some(blocks),
    {
        self.set_envec(index, de::BOOT_BLOCKS, blocks)
    }

    /// Replace the `RDSK` block and bring the model back in step.
    fn store_rdsk(&mut self, block: Vec<u8>)
        requires
            old(self).wf(),
            table::sound_bytes(block@, id::RDSK, old(self)@.block_size),
            bytes::long_at(block@, rdsk::BLOCK_BYTES as int) == old(self)@.block_size,
        ensures
            final(self).wf(),
            final(self)@ == (Table { rdsk: block@, ..old(self)@ }),
            final(self).model().partitions == old(self).model().partitions,
            final(self).model().filesystems == old(self).model().filesystems,
            final(self).model().bad_blocks == old(self).model().bad_blocks,
    {
        let ghost before = *self;
        let fresh: Rdb = parse_rdsk(block.as_slice(), self.rdb.rdsk_block);
        self.rdb.block_bytes = fresh.block_bytes;
        self.rdb.flags = fresh.flags;
        self.rdb.host_id = fresh.host_id;
        self.rdb.drive_init = fresh.drive_init;
        self.rdb.cylinders = fresh.cylinders;
        self.rdb.heads = fresh.heads;
        self.rdb.sectors = fresh.sectors;
        self.rdb.interleave = fresh.interleave;
        self.rdb.park = fresh.park;
        self.rdb.write_pre_comp = fresh.write_pre_comp;
        self.rdb.reduced_write = fresh.reduced_write;
        self.rdb.step_rate = fresh.step_rate;
        self.rdb.rdb_blocks_lo = fresh.rdb_blocks_lo;
        self.rdb.rdb_blocks_hi = fresh.rdb_blocks_hi;
        self.rdb.lo_cylinder = fresh.lo_cylinder;
        self.rdb.hi_cylinder = fresh.hi_cylinder;
        self.rdb.cyl_blocks = fresh.cyl_blocks;
        self.rdb.auto_park_seconds = fresh.auto_park_seconds;
        self.rdb.high_rdsk_block = fresh.high_rdsk_block;
        self.rdb.disk_vendor = fresh.disk_vendor;
        self.rdb.disk_product = fresh.disk_product;
        self.rdb.disk_revision = fresh.disk_revision;
        self.rdb.controller_vendor = fresh.controller_vendor;
        self.rdb.controller_product = fresh.controller_product;
        self.rdb.controller_revision = fresh.controller_revision;
        let ghost b = block@;
        self.rdsk = block;
        proof {
            assert(self@ =~= (Table { rdsk: b, ..before@ }));
            assert(self@.blocks() == before@.blocks());
            assert(table::partitions_in_step(self@.parts, self.rdb));
            assert(table::filesystems_in_step(self@.drivers, self.rdb));
            assert(table::bad_blocks_in_step(self@.badbs, self.rdb));
        }
    }

    /// The fields fit, or the first that does not.
    fn check_identity(a: &IdentityField, b: &IdentityField, c: &IdentityField) -> (r: Result<
        (),
        EditError,
    >)
        ensures
            match r {
                Ok(_) => first_identity_refusal(*a, *b, *c) is None,
                Err(e) => first_identity_refusal(*a, *b, *c) == Some(e@),
            },
    {
        RdbEditor::check_identity_field(a)?;
        RdbEditor::check_identity_field(b)?;
        RdbEditor::check_identity_field(c)
    }

    /// The value fits the field.
    fn check_identity_field(f: &IdentityField) -> (r: Result<(), EditError>)
        ensures
            match r {
                Ok(_) => identity_refusal(*f) is None,
                Err(e) => identity_refusal(*f) == Some(e@),
            },
    {
        let value: &[u8] = f.value.as_bytes();
        assert(value@.len() == value.len());
        if value.len() > f.at.1 {
            return Err(
                EditError::IdentityTooLong {
                    field: f.field,
                    value: String::from_str(f.value),
                    max: f.at.1,
                },
            );
        }
        Ok(())
    }

    /// Replace three identification fields and turn `flag` on. The fields are
    /// checked in full before anything is written.
    fn set_identity(
        &mut self,
        vendor: IdentityField,
        product: IdentityField,
        revision: IdentityField,
        flag: u32,
    ) -> (r: Result<(), EditError>)
        requires
            old(self).wf(),
            160 <= vendor.at.0 && vendor.at.0 + vendor.at.1 <= 256,
            160 <= product.at.0 && product.at.0 + product.at.1 <= 256,
            160 <= revision.at.0 && revision.at.0 + revision.at.1 <= 256,
        ensures
            match r {
                Ok(_) => {
                    &&& first_identity_refusal(vendor, product, revision) is None
                    &&& final(self).wf()
                    &&& final(self)@ == (Table {
                        rdsk: with_identity(old(self)@.rdsk, vendor, product, revision, flag),
                        ..old(self)@
                    })
                },
                Err(e) => {
                    &&& first_identity_refusal(vendor, product, revision) == Some(e@)
                    &&& *final(self) == *old(self)
                },
            },
    {
        match RdbEditor::check_identity(&vendor, &product, &revision) {
            Ok(_) => {},
            Err(e) => {
                return Err(e);
            },
        }
        let mut block: Vec<u8> = self.rdsk.clone();
        let ghost b0 = block@;
        patch_field(block.as_mut_slice(), vendor.at, vendor.value);
        let ghost b1 = block@;
        patch_field(block.as_mut_slice(), product.at, product.value);
        let ghost b2 = block@;
        patch_field(block.as_mut_slice(), revision.at, revision.value);
        let ghost b3 = block@;
        let flags: u32 = be32(block.as_slice(), rdsk::FLAGS) | flag;
        put_be32(block.as_mut_slice(), rdsk::FLAGS, flags);
        proof {
            assert forall|at: int| 0 <= at <= 24 implies #[trigger] bytes::long_at(b3, at)
                == bytes::long_at(b0, at) by {
                lemma_field_long(b0, vendor.at, vendor.value@, at);
                lemma_field_long(b1, product.at, product.value@, at);
                lemma_field_long(b2, revision.at, revision.value@, at);
            }
        }
        self.store_rdsk(block);
        Ok(())
    }

    /// Set `rdb_DiskVendor`, `rdb_DiskProduct` and `rdb_DiskRevision`, and turn
    /// the flag on that says they mean something.
    pub fn set_disk_identity(&mut self, vendor: &str, product: &str, revision: &str) -> (r: Result<
        (),
        EditError,
    >)
        requires
            old(self).wf(),
        ensures
            ({
                let (v, p, w) = disk_fields(vendor, product, revision);
                match r {
                    Ok(_) => {
                        &&& first_identity_refusal(v, p, w) is None
                        &&& final(self).wf()
                        &&& final(self)@ == (Table {
                            rdsk: with_identity(old(self)@.rdsk, v, p, w, rdb_flags::DISK_ID),
                            ..old(self)@
                        })
                    },
                    Err(e) => {
                        &&& first_identity_refusal(v, p, w) == Some(e@)
                        &&& *final(self) == *old(self)
                    },
                }
            }),
    {
        self.set_identity(
            IdentityField { field: "rdb_DiskVendor", at: rdsk::DISK_VENDOR, value: vendor },
            IdentityField { field: "rdb_DiskProduct", at: rdsk::DISK_PRODUCT, value: product },
            IdentityField { field: "rdb_DiskRevision", at: rdsk::DISK_REVISION, value: revision },
            rdb_flags::DISK_ID,
        )
    }

    /// Set `rdb_ControllerVendor`, `rdb_ControllerProduct` and
    /// `rdb_ControllerRevision`, and turn the flag on that says they mean
    /// something.
    pub fn set_controller_identity(&mut self, vendor: &str, product: &str, revision: &str) -> (r:
        Result<(), EditError>)
        requires
            old(self).wf(),
        ensures
            ({
                let (v, p, w) = controller_fields(vendor, product, revision);
                match r {
                    Ok(_) => {
                        &&& first_identity_refusal(v, p, w) is None
                        &&& final(self).wf()
                        &&& final(self)@ == (Table {
                            rdsk: with_identity(old(self)@.rdsk, v, p, w, rdb_flags::CTRLR_ID),
                            ..old(self)@
                        })
                    },
                    Err(e) => {
                        &&& first_identity_refusal(v, p, w) == Some(e@)
                        &&& *final(self) == *old(self)
                    },
                }
            }),
    {
        self.set_identity(
            IdentityField {
                field: "rdb_ControllerVendor",
                at: rdsk::CONTROLLER_VENDOR,
                value: vendor,
            },
            IdentityField {
                field: "rdb_ControllerProduct",
                at: rdsk::CONTROLLER_PRODUCT,
                value: product,
            },
            IdentityField {
                field: "rdb_ControllerRevision",
                at: rdsk::CONTROLLER_REVISION,
                value: revision,
            },
            rdb_flags::CTRLR_ID,
        )
    }

    /// Set `rdb_Flags` wholesale, the bits the identity setters manage
    /// included.
    pub fn set_rdb_flags(&mut self, flags: u32)
        requires
            old(self).wf(),
        ensures
            final(self).wf(),
            final(self)@ == (Table {
                rdsk: bytes::with_long(old(self)@.rdsk, rdsk::FLAGS as int, flags),
                ..old(self)@
            }),
            final(self).model().flags == flags,
    {
        let mut block: Vec<u8> = self.rdsk.clone();
        put_be32(block.as_mut_slice(), rdsk::FLAGS, flags);
        self.store_rdsk(block);
    }

    /// Grow the RDB area: raise `rdb_RDBBlocksHi` to `new_hi`.
    ///
    /// Permitted where the blocks being claimed meet no partition's extent and
    /// lie inside the disk. The area is never shrunk; the same ceiling again is
    /// no change.
    pub fn expand_rdb_area(&mut self, new_hi: u32) -> (r: Result<(), EditError>)
        requires
            old(self).wf(),
        ensures
            match r {
                Ok(_) => {
                    &&& extent::expand_refusal(
                        old(self).model(),
                        old(self)@.disk_blocks,
                        new_hi,
                    ) is None
                    &&& final(self).wf()
                    &&& final(self)@ == (Table {
                        rdsk: bytes::with_long(
                            old(self)@.rdsk,
                            rdsk::RDB_BLOCKS_HI as int,
                            new_hi,
                        ),
                        ..old(self)@
                    })
                    &&& final(self).model().rdb_blocks_hi == new_hi
                },
                Err(e) => {
                    &&& extent::expand_refusal(old(self).model(), old(self)@.disk_blocks, new_hi)
                        == Some(e@)
                    &&& *final(self) == *old(self)
                },
            },
    {
        proof {
            assert forall|i: int| 0 <= i < self.rdb.partitions@.len() implies (
            #[trigger] self.rdb.partitions@[i]).cylinder_blocks <= 0xFFFF_FFFE_0000_0001 by {
                lemma_cylinder_bound(self.rdb.partitions@[i], self@.parts[i]);
            }
        }
        match check_expand(&self.rdb, self.disk_blocks, new_hi) {
            Ok(_) => {},
            Err(e) => {
                return Err(e);
            },
        }
        let mut block: Vec<u8> = self.rdsk.clone();
        put_be32(block.as_mut_slice(), rdsk::RDB_BLOCKS_HI, new_hi);
        self.store_rdsk(block);
        Ok(())
    }

    /// Set `rdb_LoCylinder`, the first cylinder available to partitions.
    /// Refused where a partition starts below it.
    pub fn set_lo_cylinder(&mut self, lo_cylinder: u32) -> (r: Result<(), EditError>)
        requires
            old(self).wf(),
        ensures
            ({
                let rdb = old(self).model();
                let refusal = extent::lo_cylinder_refusal(rdb, lo_cylinder, rdb.partitions@.len());
                match r {
                    Ok(_) => {
                        &&& refusal is None
                        &&& final(self).wf()
                        &&& final(self)@ == (Table {
                            rdsk: bytes::with_long(
                                old(self)@.rdsk,
                                rdsk::LO_CYLINDER as int,
                                lo_cylinder,
                            ),
                            ..old(self)@
                        })
                        &&& final(self).model().lo_cylinder == lo_cylinder
                    },
                    Err(e) => refusal == Some(e@) && *final(self) == *old(self),
                }
            }),
    {
        match check_lo_cylinder(&self.rdb, lo_cylinder) {
            Ok(_) => {},
            Err(e) => {
                return Err(e);
            },
        }
        let mut block: Vec<u8> = self.rdsk.clone();
        put_be32(block.as_mut_slice(), rdsk::LO_CYLINDER, lo_cylinder);
        self.store_rdsk(block);
        Ok(())
    }

    /// Set `rdb_Cylinders`, and `rdb_HiCylinder` with it. Refused where a
    /// partition or the RDB area would no longer fit, or the disk does not have
    /// the blocks.
    pub fn set_geometry_cylinders(&mut self, cylinders: u32) -> (r: Result<(), EditError>)
        requires
            old(self).wf(),
        ensures
            ({
                let refusal = extent::cylinders_refusal(
                    old(self).model(),
                    old(self)@.disk_blocks,
                    cylinders,
                );
                let hi_cylinder = if cylinders > 0 {
                    (cylinders - 1) as u32
                } else {
                    0
                };
                match r {
                    Ok(_) => {
                        &&& refusal is None
                        &&& final(self).wf()
                        &&& final(self)@ == (Table {
                            rdsk: bytes::with_long(
                                bytes::with_long(
                                    old(self)@.rdsk,
                                    rdsk::CYLINDERS as int,
                                    cylinders,
                                ),
                                rdsk::HI_CYLINDER as int,
                                hi_cylinder,
                            ),
                            ..old(self)@
                        })
                        &&& final(self).model().cylinders == cylinders
                        &&& final(self).model().hi_cylinder == hi_cylinder
                    },
                    Err(e) => refusal == Some(e@) && *final(self) == *old(self),
                }
            }),
    {
        match check_cylinders(&self.rdb, self.disk_blocks, cylinders) {
            Ok(_) => {},
            Err(e) => {
                return Err(e);
            },
        }
        let hi_cylinder: u32 = if cylinders > 0 {
            cylinders - 1
        } else {
            0
        };
        let mut block: Vec<u8> = self.rdsk.clone();
        put_be32(block.as_mut_slice(), rdsk::CYLINDERS, cylinders);
        put_be32(block.as_mut_slice(), rdsk::HI_CYLINDER, hi_cylinder);
        self.store_rdsk(block);
        Ok(())
    }

    /// The drive name for a new partition.
    fn assign_name(&self, spec: &PartitionSpec) -> (r: Result<String, EditError>)
        requires
            self.wf(),
        ensures
            match r {
                Ok(name) => {
                    &&& new_name_refusal(self.model(), *spec) is None
                    &&& name@ == new_name(self.model(), *spec)
                    &&& names::name_fits(name@)
                },
                Err(e) => new_name_refusal(self.model(), *spec) == Some(e@),
            },
    {
        let ghost rdb = self.rdb;
        let mut in_use: Vec<String> = Vec::new();
        let mut i: usize = 0;
        while i < self.rdb.partitions.len()
            invariant
                i <= self.rdb.partitions.len(),
                in_use@.len() == i,
                forall|j: int|
                    0 <= j < i ==> (#[trigger] in_use@[j])@ == self.rdb.partitions@[j].name@,
            decreases self.rdb.partitions.len() - i,
        {
            in_use.push(self.rdb.partitions[i].name.clone());
            i += 1;
        }
        assert(names::set_of(in_use@) =~= all_names(rdb)) by {
            assert forall|n: Seq<char>|
                names::set_of(in_use@).contains(n) <==> all_names(rdb).contains(n) by {
                if names::set_of(in_use@).contains(n) {
                    let j = choose|j: int| 0 <= j < in_use@.len() && (#[trigger] in_use@[j])@ == n;
                    assert(rdb.partitions@[j].name@ == n);
                }
                if all_names(rdb).contains(n) {
                    let j = choose|j: int|
                        0 <= j < rdb.partitions@.len() && j != -1 && (
                        #[trigger] rdb.partitions@[j]).name@ == n;
                    assert(in_use@[j]@ == n);
                }
            }
        }
        match &spec.name {
            Some(name) => {
                if !drive_name_fits(name.as_str()) {
                    return Err(
                        EditError::InvalidName { name: name.clone(), max: MAX_DRIVE_NAME },
                    );
                }
                if crate::names::contains_name(&in_use, name) {
                    return Err(EditError::DuplicateName { name: name.clone() });
                }
                Ok(name.clone())
            },
            None => {
                let ghost free = names::first_free(all_names(rdb), 0);
                proof {
                    let named = Seq::new(in_use@.len(), |j: int| Some(in_use@[j]@));
                    assert(names::names_in(named) =~= names::set_of(in_use@)) by {
                        assert forall|n: Seq<char>|
                            names::names_in(named).contains(n) <==> names::set_of(
                                in_use@,
                            ).contains(n) by {
                            if names::names_in(named).contains(n) {
                                let j = choose|j: int|
                                    0 <= j < named.len() && named[j] == Some(n);
                                assert(in_use@[j]@ == n);
                            }
                            if names::set_of(in_use@).contains(n) {
                                let j = choose|j: int|
                                    0 <= j < in_use@.len() && (#[trigger] in_use@[j])@ == n;
                                assert(named[j] == Some(n));
                            }
                        }
                    }
                    let none = Seq::<int>::empty();
                    assert(names::accounted(named, none, 0, 0));
                    let (n, places) = names::lemma_next_free(named, none, 0, 0);
                    names::lemma_first_free(all_names(rdb), 0, n);
                    names::lemma_accounted_bound(named, places, n, 0);
                    assert(in_use@.len() == in_use.len());
                    names::lemma_dh_fits(n);
                }
                let n: u64 = find_free(&in_use, 0, Ghost(free));
                Ok(dh_name(n))
            },
        }
    }

    /// Add a partition, returning its index.
    ///
    /// An explicit cylinder range goes exactly where it says, a size into the
    /// first free run of cylinders long enough. Either way the extent is
    /// refused unless it is clear of every other partition, of the RDB area,
    /// and of the end of the disk. Where its `PART` block goes is the commit's
    /// business.
    pub fn add_partition(&mut self, spec: PartitionSpec) -> (r: Result<usize, EditError>)
        requires
            old(self).wf(),
        ensures
            match r {
                Ok(index) => {
                    &&& index == old(self)@.parts.len()
                    &&& final(self).wf()
                    &&& exists|low: u32, high: u32|
                        {
                            &&& #[trigger] add_outcome(
                                old(self).model(),
                                old(self)@.block_size,
                                spec,
                                Ok((low, high)),
                            )
                            &&& final(self)@ == (Table {
                                parts: old(self)@.parts.push(
                                    added_part(
                                        old(self).model(),
                                        old(self)@.block_size,
                                        spec,
                                        low,
                                        high,
                                    ),
                                ),
                                ..old(self)@
                            })
                        }
                },
                Err(e) => {
                    &&& add_outcome(
                        old(self).model(),
                        old(self)@.block_size,
                        spec,
                        Err(e@),
                    )
                    &&& *final(self) == *old(self)
                },
            },
    {
        let ghost before = *self;
        let ghost rdb = self.rdb;
        let ghost size = self.block_size;
        let ctx = PartContext {
            host_id: self.rdb.host_id,
            heads: self.rdb.heads,
            sectors: self.rdb.sectors,
            block_size: self.block_size,
        };
        let cyl_blocks: u64 = arith::mul32(ctx.heads, ctx.sectors);
        if cyl_blocks == 0 {
            return Err(EditError::UnusableGeometry { heads: ctx.heads, sectors: ctx.sectors });
        }
        let name: String = match self.assign_name(&spec) {
            Ok(name) => name,
            Err(e) => {
                return Err(e);
            },
        };
        proof {
            assert(extent::forwards(rdb)) by {
                assert forall|i: int|
                    0 <= i < rdb.partitions@.len() && (#[trigger] rdb.partitions@[i]).block_len
                        != 0 implies rdb.partitions@[i].low_cyl <= rdb.partitions@[i].high_cyl by {
                    lemma_cylinder_bound(rdb.partitions@[i], self@.parts[i]);
                }
            }
        }
        let (low, high) = match spec.placement {
            Placement::Cylinders { low, high } => (low, high),
            Placement::Size(bytes) => {
                match place_by_size(&self.rdb, self.block_size, bytes, cyl_blocks) {
                    Ok(range) => range,
                    Err(e) => {
                        assert(extent::size_outcome(
                            rdb,
                            size,
                            bytes,
                            extent::drive_cyl(rdb),
                            Err(e@),
                        ));
                        return Err(e);
                    },
                }
            },
        };
        match check_extent(&self.rdb, None, low, high, cyl_blocks) {
            Ok(_) => {},
            Err(e) => {
                proof {
                    if let Placement::Size(bytes) = spec.placement {
                        assert(extent::size_outcome(
                            rdb,
                            size,
                            bytes,
                            extent::drive_cyl(rdb),
                            Ok((low, high)),
                        ));
                    }
                }
                return Err(e);
            },
        }
        proof {
            if let Placement::Size(bytes) = spec.placement {
                assert(extent::size_outcome(
                    rdb,
                    size,
                    bytes,
                    extent::drive_cyl(rdb),
                    Ok((low, high)),
                ));
            }
            assert(add_outcome(rdb, size, spec, Ok((low, high))));
        }
        let mut block: Vec<u8> = vec![0u8; self.block_size];
        assert(block@ =~= image::zeros(size as nat));
        fill_part_fields(block.as_mut_slice(), &spec, name.as_str(), low, high, CHAIN_END, ctx);
        let parsed = parse_part(block.as_slice(), UNPLACED_BLOCK);
        let ghost added = added_part(rdb, size, spec, low, high);
        proof {
            assert(block@ == added.bytes);
            lemma_new_part_sound(size, spec, name@, low, high, CHAIN_END, ctx);
            let none = Seq::<Raw>::empty();
            let put = seq![added];
            assert(self@.parts =~= self@.parts + none + none);
            assert(self@.parts + put + none =~= self@.parts.push(added));
            table::lemma_splice_parts(self@, self@.parts, none, put, none);
        }
        self.parts.push(RawBlock { lba: UNPLACED_BLOCK, bytes: block });
        self.rdb.partitions.push(parsed);
        proof {
            assert(self@.parts =~= before@.parts.push(added));
            assert(self@ =~= (Table { parts: before@.parts.push(added), ..before@ }));
            assert(table::partitions_in_step(self@.parts, self.rdb));
            assert(table::filesystems_in_step(self@.drivers, self.rdb));
            assert(table::bad_blocks_in_step(self@.badbs, self.rdb));
        }
        Ok(self.parts.len() - 1)
    }

    /// Remove a partition. Its block is zeroed by the commit; its contents are
    /// not touched.
    pub fn remove_partition(&mut self, index: usize) -> (r: Result<(), EditError>)
        requires
            old(self).wf(),
        ensures
            match r {
                Ok(_) => {
                    &&& index < old(self)@.parts.len()
                    &&& final(self).wf()
                    &&& final(self)@ == (Table {
                        parts: old(self)@.parts.remove(index as int),
                        ..old(self)@
                    })
                },
                Err(e) => {
                    &&& index >= old(self)@.parts.len()
                    &&& e@ == Rejection::NoSuchPartition {
                        index,
                        count: old(self)@.parts.len() as usize,
                    }
                    &&& *final(self) == *old(self)
                },
            },
    {
        let ghost before = *self;
        if index >= self.parts.len() {
            return Err(EditError::NoSuchPartition { index, count: self.parts.len() });
        }
        proof {
            let i = index as int;
            let parts = self@.parts;
            let none = Seq::<Raw>::empty();
            assert(parts =~= parts.take(i) + seq![parts[i]] + parts.skip(i + 1));
            assert(parts.remove(i) =~= parts.take(i) + none + parts.skip(i + 1));
            table::lemma_splice_parts(self@, parts.take(i), seq![parts[i]], none, parts.skip(i + 1));
        }
        self.parts.remove(index);
        self.rdb.partitions.remove(index);
        proof {
            assert(self@.parts =~= before@.parts.remove(index as int));
            assert(self@ =~= (Table { parts: before@.parts.remove(index as int), ..before@ }));
            assert(table::partitions_in_step(self@.parts, self.rdb)) by {
                assert forall|i: int| 0 <= i < self@.parts.len() implies model::part_reads(
                    #[trigger] self.rdb.partitions@[i],
                    self@.parts[i].bytes,
                    self@.parts[i].lba,
                ) by {
                    let j = if i < index {
                        i
                    } else {
                        i + 1
                    };
                    assert(self.rdb.partitions@[i] == before.rdb.partitions@[j]);
                    assert(self@.parts[i] == before@.parts[j]);
                }
            }
            assert(table::filesystems_in_step(self@.drivers, self.rdb));
            assert(table::bad_blocks_in_step(self@.badbs, self.rdb));
        }
        Ok(())
    }

    /// Move partition `index` to cylinders `low_cyl..=high_cyl`, in its own
    /// cylinders. Its contents are not moved. An envec that stops short of the
    /// cylinder range is extended to it.
    pub fn set_extent(&mut self, index: usize, low_cyl: u32, high_cyl: u32) -> (r: Result<
        (),
        EditError,
    >)
        requires
            old(self).wf(),
        ensures
            ({
                let refusal = move_refusal(old(self)@, old(self).model(), index, low_cyl, high_cyl);
                match r {
                    Ok(_) => {
                        &&& refusal is None
                        &&& final(self).wf()
                        &&& final(self)@ == old(self)@.with_part(
                            index as int,
                            patch::with_cylinders(
                                old(self)@.parts[index as int].bytes,
                                low_cyl,
                                high_cyl,
                            ),
                        )
                        &&& stands_at(
                            final(self).model().partitions@[index as int],
                            low_cyl,
                            high_cyl,
                            old(self).model().partitions@[index as int].cylinder_blocks,
                        )
                    },
                    Err(e) => refusal == Some(e@) && *final(self) == *old(self),
                }
            }),
    {
        let mut block = match self.part_bytes(index) {
            Ok(block) => block,
            Err(e) => {
                return Err(e);
            },
        };
        let cyl_blocks: u64 = self.rdb.partitions[index].cylinder_blocks;
        if cyl_blocks == 0 {
            return Err(
                EditError::UnusableGeometry {
                    heads: be32(block.as_slice(), part::ENVIRONMENT + 4 * de::SURFACES),
                    sectors: be32(block.as_slice(), part::ENVIRONMENT + 4 * de::BLOCKS_PER_TRACK),
                },
            );
        }
        match check_extent(&self.rdb, Some(index), low_cyl, high_cyl, cyl_blocks) {
            Ok(_) => {},
            Err(e) => {
                return Err(e);
            },
        }
        let ghost b = block@;
        proof {
            patch::law_set_envec_reads_back(b, de::LOW_CYL as int, low_cyl);
            patch::law_set_cylinders_reads_back(b, low_cyl, high_cyl);
        }
        patch_envec(block.as_mut_slice(), de::LOW_CYL, low_cyl);
        patch_envec(block.as_mut_slice(), de::HIGH_CYL, high_cyl);
        proof {
            let w = patch::with_cylinders(b, low_cyl, high_cyl);
            assert(model::part_reads(
                self.rdb.partitions@[index as int],
                b,
                self@.parts[index as int].lba,
            ));
            assert(model::envec_field(b, de::SURFACES as int) != 0 && model::envec_field(
                b,
                de::BLOCKS_PER_TRACK as int,
            ) != 0) by (nonlinear_arith)
                requires
                    cyl_blocks != 0,
                    cyl_blocks == model::envec_field(b, de::SURFACES as int) * model::envec_field(
                        b,
                        de::BLOCKS_PER_TRACK as int,
                    ),
            ;
            assert(model::envec_present(w, de::SURFACES as int) == model::envec_present(
                b,
                de::SURFACES as int,
            ));
            assert(model::envec_present(w, de::BLOCKS_PER_TRACK as int) == model::envec_present(
                b,
                de::BLOCKS_PER_TRACK as int,
            ));
            bytes::lemma_long_at_same_bytes(block@, b, hdr::ID as int);
            bytes::lemma_long_at_same_bytes(block@, b, hdr::SUMMED_LONGS as int);
        }
        self.store_part(index, block);
        Ok(())
    }

    /// Move the end of partition `index`, its start staying where it is.
    pub fn resize_partition(&mut self, index: usize, new_high_cyl: u32) -> (r: Result<
        (),
        EditError,
    >)
        requires
            old(self).wf(),
        ensures
            ({
                let low_cyl = old(self).model().partitions@[index as int].low_cyl;
                let refusal = move_refusal(
                    old(self)@,
                    old(self).model(),
                    index,
                    low_cyl,
                    new_high_cyl,
                );
                match r {
                    Ok(_) => {
                        &&& refusal is None
                        &&& final(self).wf()
                        &&& final(self)@ == old(self)@.with_part(
                            index as int,
                            patch::with_cylinders(
                                old(self)@.parts[index as int].bytes,
                                low_cyl,
                                new_high_cyl,
                            ),
                        )
                        &&& stands_at(
                            final(self).model().partitions@[index as int],
                            low_cyl,
                            new_high_cyl,
                            old(self).model().partitions@[index as int].cylinder_blocks,
                        )
                    },
                    Err(e) => refusal == Some(e@) && *final(self) == *old(self),
                }
            }),
    {
        if index >= self.rdb.partitions.len() {
            return Err(
                EditError::NoSuchPartition { index, count: self.rdb.partitions.len() },
            );
        }
        let low_cyl: u32 = self.rdb.partitions[index].low_cyl;
        self.set_extent(index, low_cyl, new_high_cyl)
    }

    /// The blocks of a new filesystem and what its header says.
    fn build_filesystem(&self, spec: &FileSystemSpec) -> (r: (DriverBlocks, FileSysHeader))
        requires
            self.wf(),
        ensures
            r.0@ == new_driver(self@.block_size, *spec),
            model::fshd_reads_but_head(r.1, r.0@.header.bytes, UNPLACED_BLOCK),
            r.1.seg_list_blocks == CHAIN_END,
    {
        let ghost size = self.block_size;
        let ghost whole = new_chain(size, *spec);
        let payload: usize = lseg_payload_bytes(self.block_size);
        let len: usize = spec.binary.len();
        let mut chain: Vec<RawBlock> = Vec::new();
        let mut at: usize = 0;
        let ghost count = image::piece_count(spec.binary@.len(), payload as int);
        proof {
            lemma_count_ends(len as int, payload as int, 0);
        }
        while at < len
            invariant
                at <= len,
                len == spec.binary@.len(),
                len == spec.binary.len(),
                size == self.block_size,
                bytes::supported_block_size(size as int),
                512 <= size <= bytes::MAX_BLOCK_SIZE,
                size % 4 == 0,
                payload == size - lseg::LOAD_DATA,
                whole == new_chain(size, *spec),
                count == image::piece_count(spec.binary@.len(), payload as int),
                chain@.len() <= count,
                at == if chain@.len() * payload <= len {
                    chain@.len() * payload
                } else {
                    len as int
                },
                at < len ==> chain@.len() < count && at == chain@.len() * payload,
                at == len ==> chain@.len() == count,
                table::raws(chain@) =~= whole.take(chain@.len() as int),
            decreases len - at,
        {
            let ghost c = chain@.len() as int;
            let ghost so_far = chain@;
            proof {
                image::lemma_piece(spec.binary@, payload as int, c);
                lemma_count_ends(len as int, payload as int, c + 1);
            }
            let end: usize = if len - at <= payload {
                len
            } else {
                at + payload
            };
            let data = vstd::slice::slice_subrange(spec.binary.as_slice(), at, end);
            assert(data@ =~= image::piece(spec.binary@, payload as int, c));
            let mut block: Vec<u8> = vec![0u8; self.block_size];
            assert(block@ =~= image::zeros(size as nat));
            fill_lseg_fields(block.as_mut_slice(), spec.host_id, data, CHAIN_END);
            let raw = RawBlock { lba: UNPLACED_BLOCK, bytes: block };
            chain.push(raw);
            proof {
                assert(raw@ == whole[c]);
                assert(table::raws(chain@) =~= table::raws(so_far).push(raw@));
                assert(whole.take(c + 1) =~= whole.take(c).push(whole[c]));
            }
            at = end;
        }
        assert(whole.take(whole.len() as int) =~= whole);
        let head: u32 = if len == 0 {
            CHAIN_END
        } else {
            0
        };
        let mut block: Vec<u8> = vec![0u8; self.block_size];
        assert(block@ =~= image::zeros(size as nat));
        fill_fshd_fields(block.as_mut_slice(), spec, head, CHAIN_END);
        let mut header = parse_fshd(block.as_slice(), UNPLACED_BLOCK);
        header.seg_list_blocks = CHAIN_END;
        let d = DriverBlocks { header: RawBlock { lba: UNPLACED_BLOCK, bytes: block }, chain };
        assert(d@ =~= new_driver(size, *spec));
        (d, header)
    }

    /// Bring the head of the filesystem chain in step with the list.
    fn sync_filesys_header_list(&mut self)
        ensures
            final(self)@ == old(self)@,
            final(self).model() == (Rdb {
                filesys_header_list: if old(self)@.drivers.len() == 0 {
                    CHAIN_END
                } else {
                    table::found_pointer(old(self)@.drivers[0].header.lba)
                },
                ..old(self).model()
            }),
    {
        let head: u32 = if self.drivers.len() > 0 {
            let lba: u64 = self.drivers[0].header.lba;
            assert(self@.drivers[0] == self.drivers@[0]@);
            if lba == UNPLACED_BLOCK {
                CHAIN_END
            } else {
                lba as u32
            }
        } else {
            CHAIN_END
        };
        self.rdb.filesys_header_list = head;
    }

    /// Add a loadable filesystem, returning its index. Where its blocks go is
    /// the commit's business.
    pub fn add_filesystem(&mut self, spec: FileSystemSpec) -> (r: Result<usize, EditError>)
        requires
            old(self).wf(),
        ensures
            r matches Ok(index) && index == old(self)@.drivers.len(),
            final(self).wf(),
            final(self)@ == (Table {
                drivers: old(self)@.drivers.push(new_driver(old(self)@.block_size, spec)),
                ..old(self)@
            }),
    {
        let ghost before = *self;
        let (blocks, header) = self.build_filesystem(&spec);
        let ghost d = blocks@;
        let ghost head = header;
        proof {
            let none = Seq::<Driver>::empty();
            let put = seq![d];
            lemma_new_driver_sound(self@.block_size, spec);
            table::lemma_driver_unplaced(d);
            assert(self@.drivers =~= self@.drivers + none + none);
            assert(self@.drivers + put + none =~= self@.drivers.push(d));
            table::lemma_splice_drivers(self@, self@.drivers, none, put, none);
        }
        self.drivers.push(blocks);
        self.rdb.filesystems.push(header);
        self.sync_filesys_header_list();
        proof {
            assert(self@.drivers =~= before@.drivers.push(d));
            assert(self@ =~= (Table { drivers: before@.drivers.push(d), ..before@ }));
            assert(table::partitions_in_step(self@.parts, self.rdb));
            assert(table::filesystems_in_step(self@.drivers, self.rdb)) by {
                lemma_new_driver_sound(before@.block_size, spec);
            }
            assert(table::bad_blocks_in_step(self@.badbs, self.rdb));
        }
        Ok(self.drivers.len() - 1)
    }

    /// Replace filesystem `index`, in its place in the chain.
    pub fn replace_filesystem(&mut self, index: usize, spec: FileSystemSpec) -> (r: Result<
        (),
        EditError,
    >)
        requires
            old(self).wf(),
        ensures
            match r {
                Ok(_) => {
                    &&& index < old(self)@.drivers.len()
                    &&& final(self).wf()
                    &&& final(self)@ == (Table {
                        drivers: old(self)@.drivers.update(
                            index as int,
                            new_driver(old(self)@.block_size, spec),
                        ),
                        ..old(self)@
                    })
                },
                Err(e) => {
                    &&& index >= old(self)@.drivers.len()
                    &&& e@ == Rejection::NoSuchFileSystem {
                        index,
                        count: old(self)@.drivers.len() as usize,
                    }
                    &&& *final(self) == *old(self)
                },
            },
    {
        let ghost before = *self;
        if index >= self.drivers.len() {
            return Err(EditError::NoSuchFileSystem { index, count: self.drivers.len() });
        }
        let (blocks, header) = self.build_filesystem(&spec);
        let ghost d = blocks@;
        proof {
            let i = index as int;
            let all = self@.drivers;
            let put = seq![d];
            lemma_new_driver_sound(self@.block_size, spec);
            table::lemma_driver_unplaced(d);
            assert(all =~= all.take(i) + seq![all[i]] + all.skip(i + 1));
            assert(all.update(i, d) =~= all.take(i) + put + all.skip(i + 1));
            table::lemma_splice_drivers(self@, all.take(i), seq![all[i]], put, all.skip(i + 1));
        }
        self.drivers.set(index, blocks);
        self.rdb.filesystems.set(index, header);
        self.sync_filesys_header_list();
        proof {
            assert(self@.drivers =~= before@.drivers.update(index as int, d));
            assert(self@ =~= (Table {
                drivers: before@.drivers.update(index as int, d),
                ..before@
            }));
            assert(table::partitions_in_step(self@.parts, self.rdb));
            assert(table::filesystems_in_step(self@.drivers, self.rdb)) by {
                lemma_new_driver_sound(before@.block_size, spec);
            }
            assert(table::bad_blocks_in_step(self@.badbs, self.rdb));
        }
        Ok(())
    }

    /// The partitions whose dostype is that of filesystem `index`.
    pub fn partitions_using_filesystem(&self, index: usize) -> (r: Result<Vec<usize>, EditError>)
        requires
            self.wf(),
        ensures
            match r {
                Ok(users) => {
                    &&& index < self@.drivers.len()
                    &&& users@ == with_dos_type(
                        self.model(),
                        self.model().filesystems@[index as int].dos_type,
                        self.model().partitions@.len(),
                    )
                },
                Err(e) => {
                    &&& index >= self@.drivers.len()
                    &&& e@ == Rejection::NoSuchFileSystem {
                        index,
                        count: self@.drivers.len() as usize,
                    }
                },
            },
    {
        if index >= self.rdb.filesystems.len() {
            return Err(
                EditError::NoSuchFileSystem { index, count: self.rdb.filesystems.len() },
            );
        }
        let dos_type: u32 = self.rdb.filesystems[index].dos_type;
        let mut users: Vec<usize> = Vec::new();
        let mut i: usize = 0;
        while i < self.rdb.partitions.len()
            invariant
                i <= self.rdb.partitions.len(),
                users@ == with_dos_type(self.rdb, dos_type, i as nat),
            decreases self.rdb.partitions.len() - i,
        {
            if self.rdb.partitions[i].dos_type == dos_type {
                users.push(i);
            }
            i += 1;
        }
        Ok(users)
    }

    /// Remove filesystem `index`, and say which partitions have its dostype.
    pub fn remove_filesystem(&mut self, index: usize) -> (r: Result<Vec<usize>, EditError>)
        requires
            old(self).wf(),
        ensures
            match r {
                Ok(users) => {
                    &&& index < old(self)@.drivers.len()
                    &&& users@ == with_dos_type(
                        old(self).model(),
                        old(self).model().filesystems@[index as int].dos_type,
                        old(self).model().partitions@.len(),
                    )
                    &&& final(self).wf()
                    &&& final(self)@ == (Table {
                        drivers: old(self)@.drivers.remove(index as int),
                        ..old(self)@
                    })
                },
                Err(e) => {
                    &&& index >= old(self)@.drivers.len()
                    &&& e@ == Rejection::NoSuchFileSystem {
                        index,
                        count: old(self)@.drivers.len() as usize,
                    }
                    &&& *final(self) == *old(self)
                },
            },
    {
        let ghost before = *self;
        let users = match self.partitions_using_filesystem(index) {
            Ok(users) => users,
            Err(e) => {
                return Err(e);
            },
        };
        proof {
            let i = index as int;
            let all = self@.drivers;
            let none = Seq::<Driver>::empty();
            assert(all =~= all.take(i) + seq![all[i]] + all.skip(i + 1));
            assert(all.remove(i) =~= all.take(i) + none + all.skip(i + 1));
            table::lemma_splice_drivers(self@, all.take(i), seq![all[i]], none, all.skip(i + 1));
        }
        self.drivers.remove(index);
        self.rdb.filesystems.remove(index);
        self.sync_filesys_header_list();
        proof {
            assert(self@.drivers =~= before@.drivers.remove(index as int));
            assert(self@ =~= (Table { drivers: before@.drivers.remove(index as int), ..before@ }));
            assert(table::partitions_in_step(self@.parts, self.rdb));
            assert(table::filesystems_in_step(self@.drivers, self.rdb)) by {
                assert forall|f: int| 0 <= f < self@.drivers.len() implies {
                    &&& model::fshd_reads_but_head(
                        #[trigger] self.rdb.filesystems@[f],
                        self@.drivers[f].header.bytes,
                        self@.drivers[f].header.lba,
                    )
                    &&& self.rdb.filesystems@[f].seg_list_blocks == table::head_of(
                        self@.drivers[f].chain,
                    )
                } by {
                    let g = if f < index {
                        f
                    } else {
                        f + 1
                    };
                    assert(self.rdb.filesystems@[f] == before.rdb.filesystems@[g]);
                    assert(self@.drivers[f] == before@.drivers[g]);
                }
            }
            assert(table::bad_blocks_in_step(self@.badbs, self.rdb));
        }
        Ok(users)
    }

    /// Replace the bad-block list.
    pub fn set_bad_blocks(&mut self, entries: Vec<BadBlockEntry>)
        requires
            old(self).wf(),
        ensures
            final(self).wf(),
            final(self)@ == (Table {
                badbs: new_badbs(old(self)@.block_size, old(self).model().host_id, entries@),
                ..old(self)@
            }),
            final(self).model().bad_blocks@ == entries@,
    {
        let ghost before = *self;
        let ghost size = self.block_size;
        let host_id: u32 = self.rdb.host_id;
        let ghost whole = new_badbs(size, host_id, entries@);
        let per_block: usize = (self.block_size - badb::ENTRIES) / 8;
        let len: usize = entries.len();
        let mut blocks: Vec<RawBlock> = Vec::new();
        let mut lbas: Vec<u64> = Vec::new();
        let mut at: usize = 0;
        let ghost count = image::piece_count(entries@.len(), per_block as int);
        proof {
            lemma_count_ends(len as int, per_block as int, 0);
        }
        while at < len
            invariant
                at <= len,
                *self == before,
                len == entries@.len(),
                len == entries.len(),
                size == self.block_size,
                host_id == self.rdb.host_id,
                512 <= size <= bytes::MAX_BLOCK_SIZE,
                size % 4 == 0,
                per_block == badb_capacity(size),
                per_block > 0,
                whole == new_badbs(size, host_id, entries@),
                count == image::piece_count(entries@.len(), per_block as int),
                blocks@.len() <= count,
                at == if blocks@.len() * per_block <= len {
                    blocks@.len() * per_block
                } else {
                    len as int
                },
                at < len ==> blocks@.len() < count && at == blocks@.len() * per_block,
                at == len ==> blocks@.len() == count,
                table::raws(blocks@) =~= whole.take(blocks@.len() as int),
                lbas@ =~= Seq::new(blocks@.len(), |i: int| UNPLACED_BLOCK),
            decreases len - at,
        {
            let ghost c = blocks@.len() as int;
            let ghost so_far = blocks@;
            proof {
                image::lemma_piece(entries@, per_block as int, c);
                lemma_count_ends(len as int, per_block as int, c + 1);
            }
            let end: usize = if len - at <= per_block {
                len
            } else {
                at + per_block
            };
            let mut block: Vec<u8> = vec![0u8; self.block_size];
            assert(block@ =~= image::zeros(size as nat));
            fill_badb_fields(block.as_mut_slice(), host_id, &entries, at, end);
            let raw = RawBlock { lba: UNPLACED_BLOCK, bytes: block };
            blocks.push(raw);
            lbas.push(UNPLACED_BLOCK);
            proof {
                assert(entries@.subrange(at as int, end as int) =~= image::piece(
                    entries@,
                    per_block as int,
                    c,
                ));
                assert(raw@ == whole[c]);
                assert(table::raws(blocks@) =~= table::raws(so_far).push(raw@));
                assert(whole.take(c + 1) =~= whole.take(c).push(whole[c]));
            }
            at = end;
        }
        proof {
            assert(whole.take(whole.len() as int) =~= whole);
            lemma_new_badbs_sound(size, host_id, entries@);
            table::lemma_new_badbs(self@, whole);
        }
        self.badbs = blocks;
        self.rdb.badb_blocks = lbas;
        self.rdb.bad_block_list = CHAIN_END;
        self.rdb.bad_blocks = entries;
        proof {
            assert(self@ =~= (Table { badbs: whole, ..before@ }));
            assert(table::partitions_in_step(self@.parts, self.rdb));
            assert(table::filesystems_in_step(self@.drivers, self.rdb));
            assert(table::bad_blocks_in_step(self@.badbs, self.rdb)) by {
                assert(self.rdb.badb_blocks@ =~= Seq::new(whole.len(), |i: int| whole[i].lba));
            }
        }
    }

    /// Remove the bad-block list.
    pub fn remove_bad_blocks(&mut self)
        requires
            old(self).wf(),
        ensures
            final(self).wf(),
            final(self)@ == (Table { badbs: Seq::empty(), ..old(self)@ }),
            final(self).model().bad_blocks@.len() == 0,
    {
        let ghost size = self.block_size;
        self.set_bad_blocks(Vec::new());
        proof {
            lemma_count_ends(0, badb_capacity(size), 0);
            assert(self@.badbs =~= Seq::<Raw>::empty());
        }
    }

    /// Write the edited table back to `sink`.
    ///
    /// Everything is computed before anything is written: a table that does not
    /// fit its area is refused with the target untouched. The chains go out
    /// from their tails and the `RDSK` last, and blocks that the table used and
    /// no longer uses are zeroed after it. No block outside the RDB area is
    /// written, and the area is never grown here; see
    /// [`expand_rdb_area`](Self::expand_rdb_area).
    pub fn commit<S: BlockSink>(&self, sink: &mut S) -> (r: Result<
        CommitReport,
        CommitError<S::Error>,
    >)
        requires
            self.wf(),
        ensures
            commit::commit_outcome(self@, *old(sink), *final(sink), r),
    {
        let table = TableRef {
            block_size: self.block_size,
            rdsk_block: self.rdb.rdsk_block,
            rdsk: &self.rdsk,
            parts: &self.parts,
            drivers: &self.drivers,
            badbs: &self.badbs,
            original: &self.original,
            disk_blocks: self.disk_blocks,
            opened_hi: self.opened_rdb_blocks_hi,
        };
        table.commit(sink)
    }
}

/// Pieces go on until the data ends.
proof fn lemma_count_ends(len: int, size: int, c: int)
    requires
        0 <= len,
        size > 0,
        0 <= c <= image::piece_count(len as nat, size),
    ensures
        c * size < len <==> c < image::piece_count(len as nat, size),
{
    let n = image::piece_count(len as nat, size);
    vstd::arithmetic::div_mod::lemma_fundamental_div_mod(len + size - 1, size);
    vstd::arithmetic::div_mod::lemma_mod_bound(len + size - 1, size);
    vstd::arithmetic::mul::lemma_mul_is_commutative(size, n);
    if c < n {
        vstd::arithmetic::mul::lemma_mul_inequality(c + 1, n, size);
        vstd::arithmetic::mul::lemma_mul_is_distributive_add_other_way(size, c, 1);
    }
}

/// The blocks of a new filesystem are sound and were found nowhere.
proof fn lemma_new_driver_sound(size: usize, spec: FileSystemSpec)
    requires
        bytes::supported_block_size(size as int),
    ensures
        table::sound_drivers(seq![new_driver(size, spec)], size),
        table::unplaced(new_driver(size, spec).chain),
        table::head_of(new_driver(size, spec).chain) == CHAIN_END,
{
    let d = new_driver(size, spec);
    let seg = if spec.binary@.len() == 0 {
        CHAIN_END
    } else {
        0
    };
    let longs = |k: int| image::new_fshd_long(spec, seg, CHAIN_END, k);
    image::lemma_block_of_long(size as nat, longs, 0);
    image::lemma_block_of_long(size as nat, longs, 1);
    assert(d.header.bytes == image::block_of(size as nat, longs));
    let payload = size - lseg::LOAD_DATA;
    assert forall|c: int| 0 <= c < d.chain.len() implies table::sound_bytes(
        (#[trigger] d.chain[c]).bytes,
        id::LSEG,
        size,
    ) by {
        image::lemma_piece(spec.binary@, payload, c);
        lemma_new_lseg_sound(
            size,
            spec.host_id,
            image::piece(spec.binary@, payload, c),
            CHAIN_END,
        );
    }
    assert(seq![d][0] == d);
}

/// A new `LSEG` block is sound.
proof fn lemma_new_lseg_sound(size: usize, host_id: u32, data: Seq<u8>, next: u32)
    requires
        512 <= size <= bytes::MAX_BLOCK_SIZE,
        lseg::LOAD_DATA + data.len() <= size,
    ensures
        table::sound_bytes(image::new_lseg(size as nat, host_id, data, next), id::LSEG, size),
{
    let summed = image::lseg_summed(data);
    let longs = |k: int| image::new_lseg_long(host_id, summed, next, k);
    let b = image::block_of(size as nat, longs);
    image::lemma_block_of_long(size as nat, longs, 0);
    image::lemma_block_of_long(size as nat, longs, 1);
    image::lemma_with_bytes_long(b, lseg::LOAD_DATA as int, data, 0);
    image::lemma_with_bytes_long(b, lseg::LOAD_DATA as int, data, 4);
}

/// The blocks of a new bad-block list are sound, were found nowhere, and list
/// the entries.
proof fn lemma_new_badbs_sound(size: usize, host_id: u32, entries: Seq<BadBlockEntry>)
    requires
        bytes::supported_block_size(size as int),
    ensures
        table::sound_blocks(new_badbs(size, host_id, entries), id::BADB, size),
        table::unplaced(new_badbs(size, host_id, entries)),
        table::entries_of(new_badbs(size, host_id, entries)) == entries,
        table::head_of(new_badbs(size, host_id, entries)) == CHAIN_END,
{
    let all = new_badbs(size, host_id, entries);
    let per = badb_capacity(size);
    let count = image::piece_count(entries.len(), per);
    assert(count >= 0) by {
        vstd::arithmetic::div_mod::lemma_div_pos_is_pos(entries.len() + per - 1, per);
    }
    assert forall|c: int| 0 <= c < all.len() implies table::sound_bytes(
        (#[trigger] all[c]).bytes,
        id::BADB,
        size,
    ) by {
        image::lemma_piece(entries, per, c);
        let listed = image::piece(entries, per, c);
        let longs = |k: int| image::new_badb_long(host_id, listed, k);
        image::lemma_block_of_long(size as nat, longs, 0);
        image::lemma_block_of_long(size as nat, longs, 1);
        assert(all[c].bytes == image::block_of(size as nat, longs));
    }
    lemma_new_badbs_entries(size, host_id, entries, count as nat);
    assert(all.take(all.len() as int) =~= all);
    image::lemma_joined(entries, per, count as nat);
}

/// The first `n` blocks of a new bad-block list hold the first `n` pieces.
proof fn lemma_new_badbs_entries(
    size: usize,
    host_id: u32,
    entries: Seq<BadBlockEntry>,
    n: nat,
)
    requires
        bytes::supported_block_size(size as int),
        n <= image::piece_count(entries.len(), badb_capacity(size)),
    ensures
        table::entries_of(new_badbs(size, host_id, entries).take(n as int)) == image::joined(
            entries,
            badb_capacity(size),
            n,
        ),
    decreases n,
{
    let all = new_badbs(size, host_id, entries);
    let per = badb_capacity(size);
    if n > 0 {
        lemma_new_badbs_entries(size, host_id, entries, (n - 1) as nat);
        assert(all.take(n as int).drop_last() =~= all.take(n - 1));
        assert(all.take(n as int).last() == all[n - 1]);
        image::lemma_piece(entries, per, n - 1);
        image::lemma_new_badb_entries(size as nat, host_id, image::piece(entries, per, n - 1));
    }
}

/// A new `PART` block is sound.
proof fn lemma_new_part_sound(
    size: usize,
    spec: PartitionSpec,
    name: Seq<char>,
    low: u32,
    high: u32,
    next: u32,
    ctx: PartContext,
)
    requires
        size >= 512,
        encode_utf8(name).len() <= MAX_DRIVE_NAME,
    ensures
        table::sound_bytes(
            image::new_part(size as nat, spec, name, low, high, next, ctx),
            id::PART,
            size,
        ),
{
    let longs = |k: int| image::new_part_long(spec, low, high, next, ctx, k);
    let b = image::block_of(size as nat, longs);
    let n = image::bcpl(encode_utf8(name));
    image::lemma_block_of_long(size as nat, longs, 0);
    image::lemma_block_of_long(size as nat, longs, 1);
    image::lemma_with_bytes_long(b, part::DRIVE_NAME as int, n, 0);
    image::lemma_with_bytes_long(b, part::DRIVE_NAME as int, n, 4);
}

/// A partition's cylinder is the product of two longwords.
proof fn lemma_cylinder_bound(p: Partition, b: Raw)
    requires
        model::part_reads(p, b.bytes, b.lba),
    ensures
        p.cylinder_blocks <= 0xFFFF_FFFE_0000_0001,
        p.block_len != 0 ==> p.low_cyl <= p.high_cyl,
{
    let s = model::envec_field(b.bytes, de::SURFACES as int);
    let t = model::envec_field(b.bytes, de::BLOCKS_PER_TRACK as int);
    assert(s * t <= 0xFFFF_FFFF * 0xFFFF_FFFF) by (nonlinear_arith)
        requires
            s <= 0xFFFF_FFFF,
            t <= 0xFFFF_FFFF,
    ;
}

/// An identification field lies behind the flags.
proof fn lemma_field_long(b: Seq<u8>, at: (usize, usize), value: Seq<char>, off: int)
    requires
        160 <= at.0,
        b.len() >= 512,
        0 <= off <= 24,
    ensures
        bytes::long_at(patch::with_field(b, at, value), off) == bytes::long_at(b, off),
{
    image::lemma_with_bytes_long(
        b,
        at.0 as int,
        patch::padded_field(encode_utf8(value), at.1 as int),
        off,
    );
}

} // verus!
