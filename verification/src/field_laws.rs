//! What setting a field changes in a block, byte for byte.
use vstd::prelude::*;
use vstd::utf8::*;

use crate::edit_error::Rejection;
use crate::format_laws;
use crate::model::Rdb;
use crate::table::Table;
use crate::{bytes, editor, extent_laws, names, patch, rdb_flags, table};

verus! {

/// The larger of the two.
pub open spec fn larger(a: int, b: int) -> int {
    if a >= b {
        a
    } else {
        b
    }
}

/// The number that a longword is set to is the number that is there, and no byte
/// outside it changes.
pub proof fn lemma_set_long(b: Seq<u8>, at: int, v: u32)
    requires
        0 <= at,
        at + 4 <= b.len(),
    ensures
        bytes::with_long(b, at, v).len() == b.len(),
        format_laws::number(bytes::with_long(b, at, v), at) == v,
        forall|i: int|
            0 <= i < b.len() && !(at <= i < at + 4) ==> #[trigger] bytes::with_long(b, at, v)[i]
                == b[i],
{
    reveal(bytes::with_long);
    let w = bytes::with_long(b, at, v);
    assert(w[at] == bytes::byte_of(v, 0));
    assert(w[at + 1] == bytes::byte_of(v, 1));
    assert(w[at + 2] == bytes::byte_of(v, 2));
    assert(w[at + 3] == bytes::byte_of(v, 3));
}

/// A number whose bytes are the same is the same.
proof fn lemma_same_number(a: Seq<u8>, b: Seq<u8>, at: int)
    requires
        a[at] == b[at],
        a[at + 1] == b[at + 1],
        a[at + 2] == b[at + 2],
        a[at + 3] == b[at + 3],
    ensures
        format_laws::number(a, at) == format_laws::number(b, at),
{
}

/// `w` is `b` with field `field` of its envec set: the envec reaches at least that
/// far, fields that came into reach on the way are zero, and no other byte has
/// changed.
pub open spec fn has_field_set(w: Seq<u8>, b: Seq<u8>, field: int, value: u32) -> bool {
    let reach = format_laws::number(b, 128);
    let at = 128 + 4 * field;
    &&& w.len() == b.len()
    &&& format_laws::number(w, 128) == larger(reach, field)
    &&& format_laws::number(w, at) == value
    &&& forall|i: int|
        128 + 4 * (reach + 1) <= i < at ==> #[trigger] w[i] == 0
    &&& forall|i: int|
        0 <= i < b.len() && !(128 <= i < 132) && !(128 + 4 * (reach + 1) <= i < at) && !(at <= i
            < at + 4) ==> #[trigger] w[i] == b[i]
    &&& field <= reach ==> forall|i: int|
        0 <= i < b.len() && !(at <= i < at + 4) ==> #[trigger] w[i] == b[i]
}

proof fn lemma_cleared_bytes(b: Seq<u8>, from: int, to: int)
    requires
        0 <= from,
        128 + 4 * to <= b.len(),
    ensures
        patch::cleared(b, from, to).len() == b.len(),
        forall|i: int|
            128 + 4 * from <= i < 128 + 4 * to ==> #[trigger] patch::cleared(b, from, to)[i] == 0,
        forall|i: int|
            0 <= i < b.len() && !(128 + 4 * from <= i < 128 + 4 * to) ==> #[trigger] patch::cleared(
                b,
                from,
                to,
            )[i] == b[i],
    decreases to - from,
{
    if from < to {
        lemma_cleared_bytes(b, from, to - 1);
        let inner = patch::cleared(b, from, to - 1);
        let off = 128 + 4 * (to - 1);
        reveal(bytes::with_long);
        assert forall|i: int| 128 + 4 * from <= i < 128 + 4 * to implies #[trigger] patch::cleared(
            b,
            from,
            to,
        )[i] == 0 by {
            if i >= off {
                assert(bytes::byte_of(0, i - off) == 0);
            } else {
                assert(inner[i] == 0);
            }
        }
        assert forall|i: int|
            0 <= i < b.len() && !(128 + 4 * from <= i < 128 + 4
                * to) implies #[trigger] patch::cleared(b, from, to)[i] == b[i] by {
            assert(inner[i] == b[i]);
        }
    }
}

/// Setting a field of a partition's envec sets that field, and changes nothing
/// else than it takes to reach it.
pub proof fn law_setting_a_field_changes_that_field(b: Seq<u8>, field: int, value: u32)
    requires
        b.len() >= 512,
        0 < field < 96,
    ensures
        has_field_set(patch::with_envec(b, field, value), b, field, value),
{
    format_laws::lemma_numbers(b);
    let reach = format_laws::number(b, 128);
    let at = 128 + 4 * field;
    let r = patch::with_reach(b, field);
    let w = patch::with_envec(b, field, value);
    if field > reach {
        let c = patch::cleared(b, reach + 1, field);
        lemma_cleared_bytes(b, reach + 1, field);
        lemma_set_long(c, 128, field as u32);
        assert(r == bytes::with_long(c, 128, field as u32));
        lemma_set_long(r, at, value);
        lemma_same_number(w, r, 128);
        assert forall|i: int| 128 + 4 * (reach + 1) <= i < at implies #[trigger] w[i] == 0 by {
            assert(w[i] == r[i]);
            assert(r[i] == c[i]);
        }
        assert forall|i: int|
            0 <= i < b.len() && !(128 <= i < 132) && !(128 + 4 * (reach + 1) <= i < at) && !(at <= i
                < at + 4) implies #[trigger] w[i] == b[i] by {
            assert(w[i] == r[i]);
            assert(r[i] == c[i]);
        }
    } else {
        lemma_set_long(b, at, value);
        lemma_same_number(w, b, 128);
    }
}

/// Setting the cylinders of a partition sets them, and changes no field that was
/// there and nothing outside the envec.
pub proof fn law_setting_the_cylinders_changes_them_alone(b: Seq<u8>, low: u32, high: u32)
    requires
        b.len() >= 512,
    ensures
        ({
            let w = patch::with_cylinders(b, low, high);
            let reach = format_laws::number(b, 128);
            &&& w.len() == b.len()
            &&& format_laws::number(w, 128) == larger(reach, 10)
            &&& format_laws::number(w, 164) == low
            &&& format_laws::number(w, 168) == high
            &&& forall|i: int|
                0 <= i < b.len() && (i < 128 || 128 + 4 * (larger(reach, 10) + 1) <= i || 132 <= i
                    < 128 + 4 * (reach + 1) && !(164 <= i < 172)) ==> #[trigger] w[i] == b[i]
        }),
{
    let c = patch::with_envec(b, 9, low);
    law_setting_a_field_changes_that_field(b, 9, low);
    law_setting_a_field_changes_that_field(c, 10, high);
    let w = patch::with_cylinders(b, low, high);
    lemma_same_number(w, c, 164);
    assert forall|i: int|
        0 <= i < b.len() && (i < 128 || 128 + 4 * (larger(format_laws::number(b, 128), 10) + 1)
            <= i || 132 <= i < 128 + 4 * (format_laws::number(b, 128) + 1) && !(164 <= i
            < 172)) implies #[trigger] w[i] == b[i] by {
        assert(w[i] == c[i]);
        assert(c[i] == b[i]);
    }
}

/// Setting the name of a partition puts its length and its bytes into the field of
/// 32 bytes at byte 36, zeros after it, and changes nothing else.
pub proof fn law_setting_the_name_changes_it_alone(b: Seq<u8>, name: Seq<char>)
    requires
        b.len() >= 512,
        encode_utf8(name).len() <= 31,
    ensures
        ({
            let w = patch::with_name(b, name);
            let label = encode_utf8(name);
            &&& w.len() == b.len()
            &&& w[36] == label.len()
            &&& forall|j: int| 0 <= j < label.len() ==> #[trigger] w[37 + j] == label[j]
            &&& forall|i: int| 37 + label.len() <= i < 68 ==> #[trigger] w[i] == 0
            &&& forall|i: int|
                0 <= i < b.len() && !(36 <= i < 68) ==> #[trigger] w[i] == b[i]
        }),
{
}

/// A name may be given exactly where it is neither empty nor over 31 bytes and no
/// other partition has it.
pub proof fn law_name_may_be_given(rdb: Rdb, index: int, name: Seq<char>)
    ensures
        names::name_fits(name) <==> 0 < name.len() && encode_utf8(name).len() <= 31,
        editor::other_names(rdb, index).contains(name) <==> exists|i: int|
            0 <= i < rdb.partitions@.len() && i != index && (
            #[trigger] rdb.partitions@[i]).name@ == name,
{
}

/// The field of `len` bytes at `at` has the value, and spaces after it.
pub open spec fn has_text(w: Seq<u8>, at: int, len: int, value: Seq<char>) -> bool {
    let v = encode_utf8(value);
    &&& forall|j: int| 0 <= j < v.len() ==> #[trigger] w[at + j] == v[j]
    &&& forall|i: int| at + v.len() <= i < at + len ==> #[trigger] w[i] == 0x20
}

/// The number with the bit set.
pub open spec fn with_bit(n: int, bit: int) -> int {
    if format_laws::has_bit(n, bit) {
        n
    } else {
        n + bit
    }
}

/// The number with the bit cleared.
pub open spec fn without_bit(n: int, bit: int) -> int {
    if format_laws::has_bit(n, bit) {
        n - bit
    } else {
        n
    }
}

proof fn lemma_bit_16(v: u32)
    ensures
        v | 0x10 == with_bit(v as int, 16),
{
    assert((v / 16) % 2 == 1 ==> v | 0x10 == v) by (bit_vector);
    assert((v / 16) % 2 != 1 ==> v | 0x10 == v + 16) by (bit_vector);
}

proof fn lemma_bit_32(v: u32)
    ensures
        v | 0x20 == with_bit(v as int, 32),
{
    assert((v / 32) % 2 == 1 ==> v | 0x20 == v) by (bit_vector);
    assert((v / 32) % 2 != 1 ==> v | 0x20 == v + 32) by (bit_vector);
}

/// Setting or clearing one of the two flags of a partition changes that flag
/// alone.
pub proof fn law_setting_a_flag_changes_that_flag(flags: u32, set: bool)
    ensures
        editor::flag_set(flags, 1, set) == if set {
            with_bit(flags as int, 1)
        } else {
            without_bit(flags as int, 1)
        },
        editor::flag_set(flags, 2, set) == if set {
            with_bit(flags as int, 2)
        } else {
            without_bit(flags as int, 2)
        },
{
    assert((flags % 2 == 1 ==> flags | 1 == flags && flags & !1 == flags - 1) && (flags % 2 != 1
        ==> flags | 1 == flags + 1 && flags & !1 == flags)) by (bit_vector);
    assert(((flags / 2) % 2 == 1 ==> flags | 2 == flags && flags & !2 == flags - 2) && ((flags / 2)
        % 2 != 1 ==> flags | 2 == flags + 2 && flags & !2 == flags)) by (bit_vector);
}

/// `w` is `b` with three fields of 8, 16 and 4 bytes from `at` on set, and the bit
/// of the flags that says so.
pub open spec fn has_identity(
    w: Seq<u8>,
    b: Seq<u8>,
    at: int,
    bit: int,
    vendor: Seq<char>,
    product: Seq<char>,
    revision: Seq<char>,
) -> bool {
    &&& w.len() == b.len()
    &&& has_text(w, at, 8, vendor)
    &&& has_text(w, at + 8, 16, product)
    &&& has_text(w, at + 24, 4, revision)
    &&& format_laws::number(w, 20) == with_bit(format_laws::number(b, 20), bit)
    &&& forall|i: int|
        0 <= i < b.len() && !(at <= i < at + 28) && !(20 <= i < 24) ==> #[trigger] w[i] == b[i]
}

/// The field that a value does not fit, which it is, and how long it may be.
pub open spec fn is_too_long(r: Rejection, field: Seq<char>, value: Seq<char>, max: int) -> bool {
    r matches Rejection::IdentityTooLong { field: f, value: v, max: m } && f == field && v == value
        && m == max
}

/// Setting the identity of the disk or of the controller sets its three fields and
/// its flag, and changes nothing else; a value that does not fit is refused, the
/// first such one named.
pub proof fn law_setting_an_identity_changes_it_alone(
    b: Seq<u8>,
    vendor: &str,
    product: &str,
    revision: &str,
)
    requires
        b.len() >= 512,
    ensures
        ({
            let (v, p, w) = editor::disk_fields(vendor, product, revision);
            let (cv, cp, cw) = editor::controller_fields(vendor, product, revision);
            let fits = encode_utf8(vendor@).len() <= 8 && encode_utf8(product@).len() <= 16
                && encode_utf8(revision@).len() <= 4;
            let refusal = editor::first_identity_refusal(v, p, w);
            &&& refusal is None <==> fits
            &&& editor::first_identity_refusal(cv, cp, cw) is None <==> fits
            &&& refusal matches Some(r) ==> if encode_utf8(vendor@).len() > 8 {
                is_too_long(r, "rdb_DiskVendor"@, vendor@, 8)
            } else if encode_utf8(product@).len() > 16 {
                is_too_long(r, "rdb_DiskProduct"@, product@, 16)
            } else {
                is_too_long(r, "rdb_DiskRevision"@, revision@, 4)
            }
            &&& editor::first_identity_refusal(cv, cp, cw) matches Some(r) ==> if encode_utf8(
                vendor@,
            ).len() > 8 {
                is_too_long(r, "rdb_ControllerVendor"@, vendor@, 8)
            } else if encode_utf8(product@).len() > 16 {
                is_too_long(r, "rdb_ControllerProduct"@, product@, 16)
            } else {
                is_too_long(r, "rdb_ControllerRevision"@, revision@, 4)
            }
            &&& fits ==> has_identity(
                editor::with_identity(b, v, p, w, rdb_flags::DISK_ID),
                b,
                160,
                16,
                vendor@,
                product@,
                revision@,
            )
            &&& fits ==> has_identity(
                editor::with_identity(b, cv, cp, cw, rdb_flags::CTRLR_ID),
                b,
                188,
                32,
                vendor@,
                product@,
                revision@,
            )
        }),
{
    let fits = encode_utf8(vendor@).len() <= 8 && encode_utf8(product@).len() <= 16 && encode_utf8(
        revision@,
    ).len() <= 4;
    if fits {
        lemma_identity(b, vendor, product, revision, true);
        lemma_identity(b, vendor, product, revision, false);
    }
}

proof fn lemma_identity(b: Seq<u8>, vendor: &str, product: &str, revision: &str, disk: bool)
    requires
        b.len() >= 512,
        encode_utf8(vendor@).len() <= 8,
        encode_utf8(product@).len() <= 16,
        encode_utf8(revision@).len() <= 4,
    ensures
        ({
            let (v, p, w) = if disk {
                editor::disk_fields(vendor, product, revision)
            } else {
                editor::controller_fields(vendor, product, revision)
            };
            let flag = if disk {
                rdb_flags::DISK_ID
            } else {
                rdb_flags::CTRLR_ID
            };
            has_identity(
                editor::with_identity(b, v, p, w, flag),
                b,
                if disk {
                    160
                } else {
                    188
                },
                if disk {
                    16
                } else {
                    32
                },
                vendor@,
                product@,
                revision@,
            )
        }),
{
    let (v, p, w) = if disk {
        editor::disk_fields(vendor, product, revision)
    } else {
        editor::controller_fields(vendor, product, revision)
    };
    let one = patch::with_field(b, v.at, vendor@);
    let two = patch::with_field(one, p.at, product@);
    let named = patch::with_field(two, w.at, revision@);
    lemma_same_number(named, b, 20);
    format_laws::lemma_number(named, 20);
    let flags = bytes::long_at(named, 20);
    lemma_bit_16(flags);
    lemma_bit_32(flags);
    let flag = if disk {
        rdb_flags::DISK_ID
    } else {
        rdb_flags::CTRLR_ID
    };
    lemma_set_long(named, 20, flags | flag);
    let after = editor::with_identity(b, v, p, w, flag);
    assert(after == bytes::with_long(named, 20, flags | flag));
    assert forall|i: int|
        0 <= i < b.len() && !(v.at.0 <= i < v.at.0 + 28) && !(20 <= i < 24) implies #[trigger] after[i]
        == b[i] by {
        assert(after[i] == named[i]);
    }
}

/// The partitions that use a filesystem are those with its dostype, every one, in
/// ascending order.
pub proof fn law_users_have_the_dostype(rdb: Rdb, dos_type: u32, n: nat)
    requires
        n <= rdb.partitions@.len() <= usize::MAX,
    ensures
        ({
            let users = editor::with_dos_type(rdb, dos_type, n);
            &&& forall|k: int|
                0 <= k < users.len() ==> (#[trigger] users[k]) < n && rdb.partitions@[users[k] as int].dos_type
                    == dos_type
            &&& forall|k: int, l: int|
                0 <= k < l < users.len() ==> #[trigger] users[k] < #[trigger] users[l]
            &&& forall|i: int|
                0 <= i < n && (#[trigger] rdb.partitions@[i]).dos_type == dos_type
                    ==> users.contains(i as usize)
        }),
    decreases n,
{
    if n > 0 {
        law_users_have_the_dostype(rdb, dos_type, (n - 1) as nat);
        let before = editor::with_dos_type(rdb, dos_type, (n - 1) as nat);
        let users = editor::with_dos_type(rdb, dos_type, n);
        assert forall|i: int|
            0 <= i < n && (
            #[trigger] rdb.partitions@[i]).dos_type == dos_type implies users.contains(
            i as usize,
        ) by {
            if i == n - 1 {
                assert(users[users.len() - 1] == i as usize);
            } else {
                let k = choose|k: int| 0 <= k < before.len() && before[k] == i as usize;
                assert(users[k] == i as usize);
            }
        }
    }
}

/// A partition is moved exactly where there is such a partition, its own geometry
/// has blocks in a cylinder, and it may stand there; otherwise the refusal says
/// which of these fails.
pub proof fn law_partition_is_moved_where_it_may(
    t: Table,
    rdb: Rdb,
    index: usize,
    low: u32,
    high: u32,
)
    requires
        table::partitions_in_step(t.parts, rdb),
        t.parts.len() <= usize::MAX,
        index < t.parts.len() ==> t.parts[index as int].bytes.len() >= 512,
    ensures
        ({
            let cyl = rdb.partitions@[index as int].cylinder_blocks as int;
            match editor::move_refusal(t, rdb, index, low, high) {
                None => index < rdb.partitions@.len() && cyl > 0 && extent_laws::may_stand(
                    rdb,
                    Some(index),
                    low as int,
                    high as int,
                    cyl,
                ),
                Some(Rejection::NoSuchPartition { index: i, count }) => i == index && count
                    == rdb.partitions@.len() && index >= count,
                Some(Rejection::UnusableGeometry { heads, sectors }) => {
                    let b = t.parts[index as int].bytes;
                    &&& index < rdb.partitions@.len()
                    &&& cyl == 0
                    &&& heads == format_laws::number(b, 140)
                    &&& sectors == format_laws::number(b, 148)
                },
                Some(_) => index < rdb.partitions@.len() && cyl > 0 && !extent_laws::may_stand(
                    rdb,
                    Some(index),
                    low as int,
                    high as int,
                    cyl,
                ),
            }
        }),
{
    if index < t.parts.len() {
        let cyl = rdb.partitions@[index as int].cylinder_blocks as int;
        format_laws::lemma_numbers(t.parts[index as int].bytes);
        if cyl > 0 {
            extent_laws::law_extent_is_refused_for_a_reason(rdb, Some(index), low, high, cyl);
        }
    }
}

} // verus!
