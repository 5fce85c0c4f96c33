//! What an edit changes in a block, byte for byte.
use vstd::prelude::*;
use vstd::utf8::*;

use crate::bytes::{be32, put_be32};
use crate::image::{put_bytes, MAX_DRIVE_NAME};
use crate::{bytes, de, image, model, part};

verus! {

broadcast use crate::bytes::group_long_axioms;

/// `b` with the envec longwords from `from` up to `to` set to zero.
pub open spec fn cleared(b: Seq<u8>, from: int, to: int) -> Seq<u8>
    decreases to - from,
{
    if from >= to {
        b
    } else {
        bytes::with_long(cleared(b, from, to - 1), part::ENVIRONMENT + 4 * (to - 1), 0)
    }
}

/// `b` with its envec long enough for `field`. Longwords that come into reach
/// are set to zero.
pub open spec fn with_reach(b: Seq<u8>, field: int) -> Seq<u8> {
    let table_size = model::envec(b, de::TABLE_SIZE as int);
    if field > table_size {
        bytes::with_long(
            cleared(b, table_size + 1, field),
            part::ENVIRONMENT + 4 * de::TABLE_SIZE,
            field as u32,
        )
    } else {
        b
    }
}

/// `b` with envec longword `field` set, extending the envec where it stops
/// short of it.
pub open spec fn with_envec(b: Seq<u8>, field: int, value: u32) -> Seq<u8> {
    bytes::with_long(with_reach(b, field), part::ENVIRONMENT + 4 * field, value)
}

/// Clearing touches the cleared longwords alone.
proof fn lemma_cleared(b: Seq<u8>, from: int, to: int)
    requires
        b.len() >= 512,
        0 <= from,
        to <= 96,
    ensures
        cleared(b, from, to).len() == b.len(),
        forall|g: int|
            0 <= g < 96 ==> #[trigger] model::envec(cleared(b, from, to), g) == if from <= g < to {
                0
            } else {
                model::envec(b, g)
            },
        forall|i: int|
            0 <= i < part::ENVIRONMENT ==> #[trigger] cleared(b, from, to)[i] == b[i],
    decreases to - from,
{
    if from < to {
        lemma_cleared(b, from, to - 1);
        let inner = cleared(b, from, to - 1);
        assert forall|g: int| 0 <= g < 96 implies #[trigger] model::envec(cleared(b, from, to), g)
            == if from <= g < to {
            0
        } else {
            model::envec(b, g)
        } by {
            assert(model::envec(inner, g) == if from <= g < to - 1 {
                0
            } else {
                model::envec(b, g)
            });
        }
    }
}

/// A field that was set reads back. A field the envec already reached keeps its
/// value, one that came into reach on the way is zero, and one beyond the field
/// that was set stays absent. Nothing before the envec changes.
pub proof fn law_set_envec_reads_back(b: Seq<u8>, field: int, value: u32)
    requires
        b.len() >= 512,
        0 < field < 96,
    ensures
        with_envec(b, field, value).len() == b.len(),
        model::envec_present(with_envec(b, field, value), field) == Some(value),
        forall|g: int|
            0 < g < 96 && g != field ==> #[trigger] model::envec_present(
                with_envec(b, field, value),
                g,
            ) == if g <= model::envec(b, de::TABLE_SIZE as int) {
                model::envec_present(b, g)
            } else if g < field {
                Some(0u32)
            } else {
                None
            },
        forall|i: int|
            0 <= i < part::ENVIRONMENT ==> #[trigger] with_envec(b, field, value)[i] == b[i],
{
    let table_size = model::envec(b, de::TABLE_SIZE as int);
    lemma_cleared(b, table_size + 1, field);
    let c = cleared(b, table_size + 1, field);
    let r = with_reach(b, field);
    let w = with_envec(b, field, value);
    assert(r.len() == b.len());
    assert(model::envec(w, 0) == if field > table_size {
        field as u32
    } else {
        table_size
    });
    assert forall|g: int| 0 < g < 96 && g != field implies #[trigger] model::envec_present(w, g)
        == if g <= table_size {
        model::envec_present(b, g)
    } else if g < field {
        Some(0u32)
    } else {
        None
    } by {
        assert(model::envec(w, g) == model::envec(r, g));
        assert(model::envec(c, g) == if table_size + 1 <= g < field {
            0
        } else {
            model::envec(b, g)
        });
    }
}

/// Cylinders that were set read back. A field the envec already reached keeps
/// its value, and nothing before the envec changes.
pub proof fn law_set_cylinders_reads_back(b: Seq<u8>, low: u32, high: u32)
    requires
        b.len() >= 512,
    ensures
        with_cylinders(b, low, high).len() == b.len(),
        model::envec_present(with_cylinders(b, low, high), de::LOW_CYL as int) == Some(low),
        model::envec_present(with_cylinders(b, low, high), de::HIGH_CYL as int) == Some(high),
        forall|g: int|
            0 < g < 96 && g != de::LOW_CYL && g != de::HIGH_CYL && model::envec_present(b, g)
                is Some ==> #[trigger] model::envec_present(with_cylinders(b, low, high), g)
                == model::envec_present(b, g),
        forall|i: int|
            0 <= i < part::ENVIRONMENT ==> #[trigger] with_cylinders(b, low, high)[i] == b[i],
{
    let c = with_envec(b, de::LOW_CYL as int, low);
    law_set_envec_reads_back(b, de::LOW_CYL as int, low);
    law_set_envec_reads_back(c, de::HIGH_CYL as int, high);
    assert forall|i: int| 0 <= i < part::ENVIRONMENT implies #[trigger] with_cylinders(
        b,
        low,
        high,
    )[i] == b[i] by {
        assert(c[i] == b[i]);
    }
    assert forall|g: int|
        0 < g < 96 && g != de::LOW_CYL && g != de::HIGH_CYL && model::envec_present(b, g)
            is Some implies #[trigger] model::envec_present(with_cylinders(b, low, high), g)
        == model::envec_present(b, g) by {
        assert(model::envec_present(c, g) == model::envec_present(b, g));
    }
}

/// Set envec longword `field`, extending the envec where it stops short of it.
pub fn patch_envec(block: &mut [u8], field: usize, value: u32)
    requires
        old(block)@.len() >= 512,
        0 < field < 96,
    ensures
        final(block)@ == with_envec(old(block)@, field as int, value),
{
    let ghost b = block@;
    let table_size: u32 = be32(block, part::ENVIRONMENT + 4 * de::TABLE_SIZE);
    if field as u64 > table_size as u64 {
        let mut i: usize = table_size as usize + 1;
        while i < field
            invariant
                table_size + 1 <= i <= field < 96,
                b.len() >= 512,
                block@.len() == b.len(),
                block@ == cleared(b, table_size + 1, i as int),
            decreases field - i,
        {
            put_be32(block, part::ENVIRONMENT + 4 * i, 0);
            i += 1;
        }
        put_be32(block, part::ENVIRONMENT + 4 * de::TABLE_SIZE, field as u32);
    }
    put_be32(block, part::ENVIRONMENT + 4 * field, value);
}

/// `b` with its cylinders set, extending the envec where it stops short of
/// them.
pub open spec fn with_cylinders(b: Seq<u8>, low: u32, high: u32) -> Seq<u8> {
    with_envec(with_envec(b, de::LOW_CYL as int, low), de::HIGH_CYL as int, high)
}

/// The `pb_DriveName` field: a length byte, the name, and zeros.
pub open spec fn name_field(name: Seq<u8>) -> Seq<u8> {
    Seq::new(
        32,
        |i: int|
            if i == 0 {
                name.len() as u8
            } else if i <= name.len() {
                name[i - 1]
            } else {
                0
            },
    )
}

/// `b` with its drive name replaced.
pub open spec fn with_name(b: Seq<u8>, name: Seq<char>) -> Seq<u8> {
    image::with_bytes(b, part::DRIVE_NAME as int, name_field(encode_utf8(name)))
}

/// A drive name that was set reads back, and no longword outside the name field
/// changes.
pub proof fn law_set_name_reads_back(b: Seq<u8>, name: Seq<char>)
    requires
        b.len() >= 512,
        encode_utf8(name).len() <= MAX_DRIVE_NAME,
    ensures
        with_name(b, name).len() == b.len(),
        model::drive_name(with_name(b, name)) == crate::text::latin1(encode_utf8(name)),
        is_ascii_chars(name) ==> model::drive_name(with_name(b, name)) == name,
        forall|at: int|
            0 <= at && at + 4 <= b.len() && (at + 4 <= part::DRIVE_NAME || part::DRIVE_NAME + 32
                <= at) ==> #[trigger] bytes::long_at(with_name(b, name), at) == bytes::long_at(
                b,
                at,
            ),
{
    let n = encode_utf8(name);
    let w = with_name(b, name);
    assert(w[part::DRIVE_NAME as int] == n.len());
    assert(w.subrange(part::DRIVE_NAME + 1, part::DRIVE_NAME + 1 + n.len()) =~= n);
    assert forall|at: int|
        0 <= at && at + 4 <= b.len() && (at + 4 <= part::DRIVE_NAME || part::DRIVE_NAME + 32
            <= at) implies #[trigger] bytes::long_at(w, at) == bytes::long_at(b, at) by {
        image::lemma_with_bytes_long(b, part::DRIVE_NAME as int, name_field(n), at);
    }
    if is_ascii_chars(name) {
        is_ascii_chars_encode_utf8(name);
        assert(crate::text::latin1(n) =~= name);
    }
}

/// Replace the drive name.
pub fn patch_name(block: &mut [u8], name: &str)
    requires
        old(block)@.len() >= 512,
        encode_utf8(name@).len() <= MAX_DRIVE_NAME,
    ensures
        final(block)@ == with_name(old(block)@, name@),
{
    let ghost b = block@;
    let name_bytes: &[u8] = name.as_bytes();
    assert(name_bytes@.len() == name_bytes.len());
    let mut i: usize = 0;
    while i < 32
        invariant
            i <= 32,
            block@.len() == b.len(),
            b.len() >= 512,
            forall|k: int|
                0 <= k < b.len() ==> #[trigger] block@[k] == if part::DRIVE_NAME <= k
                    < part::DRIVE_NAME + i {
                    0
                } else {
                    b[k]
                },
        decreases 32 - i,
    {
        block[part::DRIVE_NAME + i] = 0;
        i += 1;
    }
    block[part::DRIVE_NAME] = name_bytes.len() as u8;
    put_bytes(block, part::DRIVE_NAME + 1, name_bytes);
    assert(block@ =~= with_name(b, name@));
}

/// A fixed-width field of `len` bytes: the value, then spaces.
pub open spec fn padded_field(value: Seq<u8>, len: int) -> Seq<u8> {
    Seq::new(
        len as nat,
        |i: int|
            if i < value.len() {
                value[i]
            } else {
                0x20
            },
    )
}

/// `b` with a fixed-width field replaced, `at` giving its offset and its
/// length.
pub open spec fn with_field(b: Seq<u8>, at: (usize, usize), value: Seq<char>) -> Seq<u8> {
    image::with_bytes(b, at.0 as int, padded_field(encode_utf8(value), at.1 as int))
}

/// Replace a fixed-width field.
pub fn patch_field(block: &mut [u8], at: (usize, usize), value: &str)
    requires
        at.0 + at.1 <= old(block)@.len(),
        encode_utf8(value@).len() <= at.1,
    ensures
        final(block)@ == with_field(old(block)@, at, value@),
{
    let ghost b = block@;
    assert(block@.len() == block.len());
    let value_bytes: &[u8] = value.as_bytes();
    assert(value_bytes@.len() == value_bytes.len());
    let (off, len) = at;
    let mut i: usize = 0;
    while i < len
        invariant
            i <= len,
            off + len <= block.len(),
            block@.len() == b.len(),
            forall|k: int|
                0 <= k < b.len() ==> #[trigger] block@[k] == if off <= k < off + i {
                    0x20
                } else {
                    b[k]
                },
        decreases len - i,
    {
        block[off + i] = 0x20;
        i += 1;
    }
    put_bytes(block, off, value_bytes);
    assert(block@ =~= with_field(b, at, value@));
}

/// Trailing spaces are trimmed away.
proof fn lemma_trimmed_padding(value: Seq<u8>, len: int)
    requires
        value.len() <= len,
    ensures
        model::trimmed(padded_field(value, len)) == model::trimmed(value),
    decreases len,
{
    let field = padded_field(value, len);
    if len == value.len() {
        assert(field =~= value);
    } else {
        assert(field.drop_last() =~= padded_field(value, len - 1));
        lemma_trimmed_padding(value, len - 1);
    }
}

/// A fixed-width field that was set reads back, trailing spaces and NULs aside,
/// and no byte outside it changes.
pub proof fn law_set_field_reads_back(b: Seq<u8>, at: (usize, usize), value: Seq<char>)
    requires
        at.0 + at.1 <= b.len(),
        encode_utf8(value).len() <= at.1,
    ensures
        model::padded_text(with_field(b, at, value), at) == crate::text::latin1(
            model::trimmed(encode_utf8(value)),
        ),
        is_ascii_chars(value) && (value.len() > 0 ==> value.last() != ' ' && value.last() != '\0')
            ==> model::padded_text(with_field(b, at, value), at) == value,
        forall|i: int|
            0 <= i < b.len() && !(at.0 <= i < at.0 + at.1) ==> #[trigger] with_field(
                b,
                at,
                value,
            )[i] == b[i],
{
    let v = encode_utf8(value);
    let w = with_field(b, at, value);
    assert(w.subrange(at.0 as int, at.0 + at.1) =~= padded_field(v, at.1 as int));
    lemma_trimmed_padding(v, at.1 as int);
    if is_ascii_chars(value) && (value.len() > 0 ==> value.last() != ' ' && value.last() != '\0') {
        is_ascii_chars_encode_utf8(value);
        assert(crate::text::latin1(v) =~= value);
        if value.len() > 0 {
            assert(v.last() as char == value.last());
        }
    }
}

/// Setting a field that the envec reaches changes that field alone.
pub proof fn law_set_envec_in_reach_changes_one_field(b: Seq<u8>, field: int, value: u32)
    requires
        0 < field <= model::envec(b, de::TABLE_SIZE as int),
    ensures
        with_envec(b, field, value) == bytes::with_long(b, part::ENVIRONMENT + 4 * field, value),
{
}

} // verus!
