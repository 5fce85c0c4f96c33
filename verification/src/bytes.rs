//! Big-endian longwords in a block of bytes.
//!
//! Everything on disk is big-endian; all multi-byte reads and writes go
//! through the functions here.
use vstd::arithmetic::power2::*;
use vstd::prelude::*;

verus! {

/// Smallest supported device block size (and the classic Amiga value).
pub const MIN_BLOCK_SIZE: usize = 512;

/// Largest supported device block size.
pub const MAX_BLOCK_SIZE: usize = 32768;

/// The chain terminator used by every block-pointer field: `0xFFFFFFFF`, not
/// `0`, since block 0 is a valid block address.
pub const CHAIN_END: u32 = 0xFFFF_FFFF;

/// `n` is a power of two.
pub open spec fn is_power_of_two(n: int) -> bool {
    exists|k: nat| n == #[trigger] pow2(k)
}

/// `size` is a device block size the library accepts.
pub open spec fn supported_block_size(size: int) -> bool {
    size == 512 || size == 1024 || size == 2048 || size == 4096 || size == 8192 || size == 16384
        || size == 32768
}

/// The supported sizes are the powers of two in
/// `MIN_BLOCK_SIZE..=MAX_BLOCK_SIZE`.
pub proof fn law_supported_sizes_are_powers_of_two(size: int)
    ensures
        supported_block_size(size) <==> is_power_of_two(size) && MIN_BLOCK_SIZE <= size
            <= MAX_BLOCK_SIZE,
{
    lemma2_to64();
    if is_power_of_two(size) && MIN_BLOCK_SIZE <= size <= MAX_BLOCK_SIZE {
        let k = choose|k: nat| size == #[trigger] pow2(k);
        if k < 9 {
            lemma_pow2_strictly_increases(k, 9);
        }
        if k > 15 {
            lemma_pow2_strictly_increases(15, k);
        }
        assert(k == 9 || k == 10 || k == 11 || k == 12 || k == 13 || k == 14 || k == 15);
    }
    assert(pow2(9) == 512 && pow2(10) == 1024 && pow2(11) == 2048 && pow2(12) == 4096 && pow2(13)
        == 8192 && pow2(14) == 16384 && pow2(15) == 32768);
}

/// Is `size` a device block size this library accepts?
pub fn block_size_ok(size: usize) -> (ok: bool)
    ensures
        ok == supported_block_size(size as int),
{
    size == 512 || size == 1024 || size == 2048 || size == 4096 || size == 8192 || size == 16384
        || size == 32768
}

/// The longword whose bytes, most significant first, are `s[off..off + 4]`.
#[verifier::opaque]
pub open spec fn long_at(s: Seq<u8>, off: int) -> u32 {
    (s[off] * 0x100_0000 + s[off + 1] * 0x1_0000 + s[off + 2] * 0x100 + s[off + 3]) as u32
}

/// The 16-bit word whose bytes, most significant first, are `s[off..off + 2]`.
pub open spec fn word_at(s: Seq<u8>, off: int) -> u16 {
    (s[off] * 0x100 + s[off + 1]) as u16
}

/// Byte `i` of `v` in big-endian order.
pub open spec fn byte_of(v: u32, i: int) -> u8 {
    if i == 0 {
        (v / 0x100_0000) as u8
    } else if i == 1 {
        ((v / 0x1_0000) % 0x100) as u8
    } else if i == 2 {
        ((v / 0x100) % 0x100) as u8
    } else {
        (v % 0x100) as u8
    }
}

/// `s` with the longword at `off` replaced by `v`.
#[verifier::opaque]
pub open spec fn with_long(s: Seq<u8>, off: int, v: u32) -> Seq<u8> {
    Seq::new(
        s.len(),
        |i: int|
            if off <= i < off + 4 {
                byte_of(v, i - off)
            } else {
                s[i]
            },
    )
}

/// Replacing a longword keeps the length.
pub broadcast proof fn lemma_with_long_len(s: Seq<u8>, off: int, v: u32)
    ensures
        #[trigger] with_long(s, off, v).len() == s.len(),
{
    reveal(with_long);
}

/// Replacing a longword leaves every byte outside it alone.
pub broadcast proof fn lemma_with_long_other_byte(s: Seq<u8>, off: int, v: u32, i: int)
    requires
        0 <= i < s.len(),
        i < off || off + 4 <= i,
    ensures
        #[trigger] with_long(s, off, v)[i] == s[i],
{
    reveal(with_long);
}

/// A longword reads back as it was written.
pub broadcast proof fn lemma_long_at_with_long_same(s: Seq<u8>, off: int, v: u32)
    requires
        0 <= off,
        off + 4 <= s.len(),
    ensures
        #[trigger] long_at(with_long(s, off, v), off) == v,
{
    reveal(with_long);
    reveal(long_at);
}

/// Writing a longword leaves every disjoint longword alone.
pub broadcast proof fn lemma_long_at_with_long_other(s: Seq<u8>, off: int, v: u32, at: int)
    requires
        0 <= at,
        at + 4 <= s.len(),
        at + 4 <= off || off + 4 <= at,
    ensures
        #[trigger] long_at(with_long(s, off, v), at) == long_at(s, at),
{
    reveal(with_long);
    reveal(long_at);
}

pub broadcast group group_long_axioms {
    lemma_with_long_len,
    lemma_with_long_other_byte,
    lemma_long_at_with_long_same,
    lemma_long_at_with_long_other,
}

/// The bytes of a longword put together from four bytes are those bytes.
proof fn lemma_bytes_of_long(a: u8, b: u8, c: u8, d: u8)
    ensures
        ({
            let v = (a * 0x100_0000 + b * 0x1_0000 + c * 0x100 + d) as u32;
            byte_of(v, 0) == a && byte_of(v, 1) == b && byte_of(v, 2) == c && byte_of(v, 3) == d
        }),
{
    let v = (a * 0x100_0000 + b * 0x1_0000 + c * 0x100 + d) as u32;
    assert(v == a * 0x100_0000 + b * 0x1_0000 + c * 0x100 + d);
    assert(v / 0x100_0000 == a);
    assert(v / 0x1_0000 == a * 0x100 + b);
    assert(v / 0x100 == a * 0x1_0000 + b * 0x100 + c);
}

/// Writing back the longword that is already there changes nothing.
pub proof fn lemma_with_long_same_value(s: Seq<u8>, off: int)
    requires
        0 <= off,
        off + 4 <= s.len(),
    ensures
        with_long(s, off, long_at(s, off)) == s,
{
    reveal(with_long);
    reveal(long_at);
    lemma_bytes_of_long(s[off], s[off + 1], s[off + 2], s[off + 3]);
    let t = with_long(s, off, long_at(s, off));
    assert forall|i: int| 0 <= i < s.len() implies t[i] == s[i] by {
        if off <= i < off + 4 {
            assert(i == off || i == off + 1 || i == off + 2 || i == off + 3);
        }
    }
    assert(t =~= s);
}

/// The later of two writes to one longword is the one that stays.
pub proof fn lemma_with_long_twice(s: Seq<u8>, off: int, u: u32, v: u32)
    ensures
        with_long(with_long(s, off, u), off, v) == with_long(s, off, v),
{
    reveal(with_long);
    assert(with_long(with_long(s, off, u), off, v) =~= with_long(s, off, v));
}

/// Longwords over the same bytes are the same.
pub proof fn lemma_long_at_same_bytes(s: Seq<u8>, t: Seq<u8>, off: int)
    requires
        s[off] == t[off],
        s[off + 1] == t[off + 1],
        s[off + 2] == t[off + 2],
        s[off + 3] == t[off + 3],
    ensures
        long_at(s, off) == long_at(t, off),
{
    reveal(long_at);
}

/// Read a big-endian u32 at byte offset `off`.
pub fn be32(block: &[u8], off: usize) -> (v: u32)
    requires
        off + 4 <= block@.len(),
    ensures
        v == long_at(block@, off as int),
        v == block@[off as int] * 0x100_0000 + block@[off + 1] * 0x1_0000 + block@[off + 2] * 0x100
            + block@[off + 3],
{
    reveal(long_at);
    block[off] as u32 * 0x100_0000 + block[off + 1] as u32 * 0x1_0000 + block[off + 2] as u32
        * 0x100 + block[off + 3] as u32
}

/// Read a big-endian u16 at byte offset `off`.
pub fn be16(block: &[u8], off: usize) -> (v: u16)
    requires
        off + 2 <= block@.len(),
    ensures
        v == word_at(block@, off as int),
{
    block[off] as u16 * 0x100 + block[off + 1] as u16
}

/// Write a big-endian u32 at byte offset `off`: the inverse of [`be32`].
pub fn put_be32(block: &mut [u8], off: usize, v: u32)
    requires
        off + 4 <= old(block)@.len(),
    ensures
        final(block)@ == with_long(old(block)@, off as int, v),
{
    block[off] = (v / 0x100_0000) as u8;
    block[off + 1] = ((v / 0x1_0000) % 0x100) as u8;
    block[off + 2] = ((v / 0x100) % 0x100) as u8;
    block[off + 3] = (v % 0x100) as u8;
    reveal(with_long);
    assert(block@ =~= with_long(old(block)@, off as int, v));
}

} // verus!
