//! Text: numbers, latin-1 fields and the pieces of a message.
use vstd::prelude::*;
use vstd::string::*;

verus! {

/// The decimal digit `d`.
pub open spec fn digit(d: int) -> char {
    (d + 48) as char
}

/// `n` in decimal, without leading zeros.
pub open spec fn decimal(n: int) -> Seq<char>
    decreases n,
{
    if n < 10 {
        seq![digit(n)]
    } else {
        decimal(n / 10).push(digit(n % 10))
    }
}

/// The lower-case hexadecimal digit `d`.
pub open spec fn hex_digit(d: int) -> char {
    if d < 10 {
        digit(d)
    } else {
        (d + 87) as char
    }
}

/// The lowest `places` hexadecimal digits of `n`.
pub open spec fn hexadecimal(n: int, places: nat) -> Seq<char>
    decreases places,
{
    if places == 0 {
        Seq::empty()
    } else {
        hexadecimal(n / 16, (places - 1) as nat).push(hex_digit(n % 16))
    }
}

/// Bytes as characters, one for one.
pub open spec fn latin1(s: Seq<u8>) -> Seq<char> {
    Seq::new(s.len(), |i: int| s[i] as char)
}

/// What Rust's `Debug` formatting makes of the string `s`: quoted, with
/// escapes.
pub uninterp spec fn debug_text(s: Seq<char>) -> Seq<char>;

/// `String::push`: appends one character to the end of the string.
#[verifier::external_body]
pub(crate) fn push_char(s: &mut String, c: char)
    ensures
        final(s)@ == old(s)@.push(c),
{
    s.push(c);
}

/// `format!` with `{:?}` on a string slice. The contract only names the
/// result: which characters are escaped, and how, is left unsaid.
#[verifier::external_body]
pub(crate) fn debug_string(s: &str) -> (r: String)
    ensures
        r@ == debug_text(s@),
{
    format!("{:?}", s)
}

/// `n` in decimal.
pub fn decimal_string(n: u64) -> (r: String)
    ensures
        r@ == decimal(n as int),
    decreases n,
{
    let mut s: String = if n < 10 {
        String::new()
    } else {
        decimal_string(n / 10)
    };
    push_char(&mut s, ((n % 10) as u8 + 48) as char);
    proof {
        if n < 10 {
            assert(Seq::<char>::empty().push(digit(n as int)) =~= seq![digit(n as int)]);
        }
    }
    s
}

/// The lowest `places` hexadecimal digits of `n`.
fn hex_string(n: u32, places: u32) -> (r: String)
    ensures
        r@ == hexadecimal(n as int, places as nat),
    decreases places,
{
    if places == 0 {
        return String::new();
    }
    let mut s: String = hex_string(n / 16, places - 1);
    let d: u8 = (n % 16) as u8;
    if d < 10 {
        push_char(&mut s, (d + 48) as char);
    } else {
        push_char(&mut s, (d + 87) as char);
    }
    s
}

/// Bytes as characters, one for one.
pub fn latin1_string(bytes: &[u8]) -> (r: String)
    ensures
        r@ == latin1(bytes@),
{
    let mut s: String = String::new();
    let mut i: usize = 0;
    while i < bytes.len()
        invariant
            i <= bytes.len(),
            s@ =~= latin1(bytes@.subrange(0, i as int)),
        decreases bytes.len() - i,
    {
        push_char(&mut s, bytes[i] as char);
        i += 1;
    }
    assert(bytes@.subrange(0, bytes@.len() as int) =~= bytes@);
    s
}

/// A block ID the way the format writes it: four ASCII characters where all
/// are printable, and hexadecimal where they are not.
pub open spec fn fourcc(id: u32) -> Seq<char> {
    let b = Seq::new(4, |i: int| crate::bytes::byte_of(id, i));
    if forall|i: int| 0 <= i < 4 ==> 0x20 <= #[trigger] b[i] < 0x7F {
        latin1(b)
    } else {
        "0x"@ + hexadecimal(id as int, 8)
    }
}

/// A block ID the way the format writes it.
pub fn fourcc_string(id: u32) -> (r: String)
    ensures
        r@ == fourcc(id),
{
    let a: u8 = (id / 0x100_0000) as u8;
    let b: u8 = ((id / 0x1_0000) % 0x100) as u8;
    let c: u8 = ((id / 0x100) % 0x100) as u8;
    let d: u8 = (id % 0x100) as u8;
    let ghost bs = Seq::new(4, |i: int| crate::bytes::byte_of(id, i));
    assert(bs[0] == a && bs[1] == b && bs[2] == c && bs[3] == d);
    if 0x20 <= a && a < 0x7F && 0x20 <= b && b < 0x7F && 0x20 <= c && c < 0x7F && 0x20 <= d && d
        < 0x7F {
        let mut s: String = String::new();
        push_char(&mut s, a as char);
        push_char(&mut s, b as char);
        push_char(&mut s, c as char);
        push_char(&mut s, d as char);
        assert(s@ =~= latin1(bs));
        s
    } else {
        let mut s: String = String::from_str("0x");
        s.append(hex_string(id, 8).as_str());
        s
    }
}

/// Append a piece of text.
pub(crate) fn put(s: &mut String, piece: &str)
    ensures
        final(s)@ == old(s)@ + piece@,
{
    s.append(piece);
}

/// Append a number in decimal.
pub(crate) fn put_number(s: &mut String, n: u64)
    ensures
        final(s)@ == old(s)@ + decimal(n as int),
{
    s.append(decimal_string(n).as_str());
}

/// Append a string the way `Debug` formatting shows it.
pub(crate) fn put_quoted(s: &mut String, piece: &str)
    ensures
        final(s)@ == old(s)@ + debug_text(piece@),
{
    s.append(debug_string(piece).as_str());
}

} // verus!
