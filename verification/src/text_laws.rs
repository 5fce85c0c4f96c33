//! What numbers and names are written as.
use vstd::prelude::*;

use crate::{bytes, text};

verus! {

/// The number that a row of digits is, in base `base`, `0` to `9` and then `a` on.
pub open spec fn value_of(s: Seq<char>, base: int) -> int
    decreases s.len(),
{
    if s.len() == 0 {
        0
    } else {
        let c = s.last() as int;
        base * value_of(s.drop_last(), base) + if c < 97 {
            c - 48
        } else {
            c - 87
        }
    }
}

/// `0` to `9`.
pub open spec fn is_decimal_digit(c: char) -> bool {
    48 <= c as int <= 57
}

/// `0` to `9` or `a` to `f`.
pub open spec fn is_hex_digit(c: char) -> bool {
    48 <= c as int <= 57 || 97 <= c as int <= 102
}

/// A number is written in decimal digits, without leading zeros.
pub proof fn law_decimal_is_the_number(n: int)
    requires
        0 <= n,
    ensures
        value_of(text::decimal(n), 10) == n,
        text::decimal(n).len() > 0,
        forall|i: int|
            0 <= i < text::decimal(n).len() ==> is_decimal_digit(#[trigger] text::decimal(n)[i]),
        text::decimal(n)[0] as int != 48 || text::decimal(n).len() == 1,
    decreases n,
{
    let s = text::decimal(n);
    if n < 10 {
        assert(s.drop_last() =~= Seq::<char>::empty());
        assert(value_of(s.drop_last(), 10) == 0);
    } else {
        law_decimal_is_the_number(n / 10);
        let head = text::decimal(n / 10);
        assert(s.drop_last() =~= head);
        assert(s[0] == head[0]);
        if head.len() == 1 && head[0] as int == 48 {
            assert(head.drop_last() =~= Seq::<char>::empty());
            assert(value_of(head.drop_last(), 10) == 0);
            assert(head.last() == head[0]);
            assert(value_of(head, 10) == 0);
        }
    }
}

/// `16` to the power of `places`.
pub open spec fn power_of_16(places: nat) -> int
    decreases places,
{
    if places == 0 {
        1
    } else {
        16 * power_of_16((places - 1) as nat)
    }
}

/// A number is written in as many hexadecimal digits as there are places.
pub proof fn law_hexadecimal_is_the_number(n: int, places: nat)
    requires
        0 <= n < power_of_16(places),
    ensures
        text::hexadecimal(n, places).len() == places,
        value_of(text::hexadecimal(n, places), 16) == n,
        forall|i: int|
            0 <= i < places ==> is_hex_digit(#[trigger] text::hexadecimal(n, places)[i]),
    decreases places,
{
    if places > 0 {
        let s = text::hexadecimal(n, places);
        law_hexadecimal_is_the_number(n / 16, (places - 1) as nat);
        assert(s.drop_last() =~= text::hexadecimal(n / 16, (places - 1) as nat));
    }
}

/// An ID is written as the four characters that its bytes are, where they can be
/// printed, and otherwise as `0x` and eight hexadecimal digits.
pub proof fn law_id_is_written_as_its_characters(id: u32)
    ensures
        ({
            let a = id as int / 0x100_0000;
            let b = (id as int / 0x1_0000) % 0x100;
            let c = (id as int / 0x100) % 0x100;
            let d = id as int % 0x100;
            let s = text::fourcc(id);
            if 0x20 <= a < 0x7F && 0x20 <= b < 0x7F && 0x20 <= c < 0x7F && 0x20 <= d < 0x7F {
                &&& s.len() == 4
                &&& s[0] as int == a
                &&& s[1] as int == b
                &&& s[2] as int == c
                &&& s[3] as int == d
            } else {
                &&& s.len() == 10
                &&& s[0] == '0'
                &&& s[1] == 'x'
                &&& value_of(s.skip(2), 16) == id
                &&& forall|i: int| 2 <= i < 10 ==> is_hex_digit(#[trigger] s[i])
            }
        }),
{
    let bytes = Seq::new(4, |i: int| bytes::byte_of(id, i));
    assert(bytes[0] == id as int / 0x100_0000);
    assert(bytes[1] == (id as int / 0x1_0000) % 0x100);
    assert(bytes[2] == (id as int / 0x100) % 0x100);
    assert(bytes[3] == id as int % 0x100);
    reveal_strlit("0x");
    reveal_with_fuel(power_of_16, 9);
    law_hexadecimal_is_the_number(id as int, 8);
    let s = "0x"@ + text::hexadecimal(id as int, 8);
    assert(s.skip(2) =~= text::hexadecimal(id as int, 8));
    assert forall|i: int| 2 <= i < 10 implies is_hex_digit(#[trigger] s[i]) by {
        assert(s[i] == text::hexadecimal(id as int, 8)[i - 2]);
    }
    if 0x20 <= bytes[0] < 0x7F && 0x20 <= bytes[1] < 0x7F && 0x20 <= bytes[2] < 0x7F && 0x20
        <= bytes[3] < 0x7F {
        assert forall|i: int| 0 <= i < 4 implies 0x20 <= #[trigger] bytes[i] < 0x7F by {
            assert(i == 0 || i == 1 || i == 2 || i == 3);
        }
    }
}

} // verus!
