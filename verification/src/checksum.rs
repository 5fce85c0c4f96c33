//! The checksum every RDB-family block carries.
use vstd::prelude::*;

use crate::bytes::{be32, put_be32};
use crate::text::{put, put_number};
use crate::{bytes, hdr, text};

verus! {

broadcast use crate::bytes::group_long_axioms;

/// The smallest `SummedLongs` that can produce a passing checksum: the sum
/// must cover `ChkSum` itself, which is the third longword.
pub const MIN_SUMMED_LONGS: u32 = 3;

/// The sum of the first `n` longwords of `s`.
pub open spec fn sum_longs(s: Seq<u8>, n: nat) -> int
    decreases n,
{
    if n == 0 {
        0
    } else {
        sum_longs(s, (n - 1) as nat) + bytes::long_at(s, 4 * (n - 1))
    }
}

/// `SummedLongs` covers `ChkSum` and fits the block.
pub open spec fn sealable(s: Seq<u8>, longs: u32) -> bool {
    MIN_SUMMED_LONGS <= longs && 4 * longs <= s.len()
}

/// The block checks out: the longwords it says it sums add up to zero in
/// 32-bit arithmetic.
pub open spec fn checksum_holds(s: Seq<u8>) -> bool {
    &&& s.len() >= 12
    &&& sealable(s, bytes::long_at(s, hdr::SUMMED_LONGS as int))
    &&& sum_longs(s, bytes::long_at(s, hdr::SUMMED_LONGS as int) as nat) % 0x1_0000_0000 == 0
}

/// The 32-bit value that makes `sum` come out as zero.
pub open spec fn cancel(sum: int) -> u32 {
    ((0x1_0000_0000 - sum % 0x1_0000_0000) % 0x1_0000_0000) as u32
}

/// `s` with its `SummedLongs` set and `ChkSum` cleared.
pub open spec fn unsealed(s: Seq<u8>, longs: u32) -> Seq<u8> {
    bytes::with_long(bytes::with_long(s, hdr::SUMMED_LONGS as int, longs), hdr::CHK_SUM as int, 0)
}

/// `s` sealed over `longs` longwords.
pub open spec fn sealed(s: Seq<u8>, longs: u32) -> Seq<u8> {
    bytes::with_long(
        unsealed(s, longs),
        hdr::CHK_SUM as int,
        cancel(sum_longs(unsealed(s, longs), longs as nat)),
    )
}

/// `s` sealed over the count it already declares.
pub open spec fn resealed(s: Seq<u8>) -> Seq<u8> {
    sealed(s, bytes::long_at(s, hdr::SUMMED_LONGS as int))
}

/// Changing `ChkSum` moves a sum that covers it by the difference.
proof fn lemma_sum_with_chk_sum(s: Seq<u8>, v: u32, n: nat)
    requires
        4 * n <= s.len(),
    ensures
        n <= 2 ==> sum_longs(bytes::with_long(s, 8, v), n) == sum_longs(s, n),
        n >= 3 ==> sum_longs(bytes::with_long(s, 8, v), n) == sum_longs(s, n) - bytes::long_at(s, 8)
            + v,
    decreases n,
{
    if n > 0 {
        lemma_sum_with_chk_sum(s, v, (n - 1) as nat);
    }
}

/// A sealed block checks out, says the count it was sealed over, and differs
/// from what was sealed in `SummedLongs` and `ChkSum` alone.
pub proof fn law_sealed_block_checks_out(s: Seq<u8>, longs: u32)
    requires
        sealable(s, longs),
    ensures
        checksum_holds(sealed(s, longs)),
        bytes::long_at(sealed(s, longs), hdr::SUMMED_LONGS as int) == longs,
        sealed(s, longs).len() == s.len(),
        forall|i: int|
            0 <= i < s.len() && !(hdr::SUMMED_LONGS <= i < hdr::CHK_SUM + 4)
                ==> #[trigger] sealed(s, longs)[i] == s[i],
{
    let t = unsealed(s, longs);
    let c = cancel(sum_longs(t, longs as nat));
    lemma_sum_with_chk_sum(t, c, longs as nat);
    let sum = sum_longs(t, longs as nat);
    assert(bytes::long_at(t, 8) == 0);
    assert((sum + (0x1_0000_0000 - sum % 0x1_0000_0000) % 0x1_0000_0000) % 0x1_0000_0000 == 0);
}

/// Resealing a block changes its `ChkSum` and nothing else.
pub proof fn law_resealing_changes_the_checksum_alone(s: Seq<u8>)
    requires
        s.len() >= 12,
    ensures
        resealed(s).len() == s.len(),
        forall|j: int|
            0 <= j < s.len() && !(hdr::CHK_SUM <= j < hdr::CHK_SUM + 4) ==> #[trigger] resealed(
                s,
            )[j] == s[j],
        forall|at: int|
            0 <= at && at + 4 <= s.len() && (at + 4 <= hdr::CHK_SUM || hdr::CHK_SUM + 4 <= at)
                ==> #[trigger] bytes::long_at(resealed(s), at) == bytes::long_at(s, at),
{
    bytes::lemma_with_long_same_value(s, hdr::SUMMED_LONGS as int);
}

/// Resealing a block that checks out over its own count changes nothing.
pub proof fn law_resealing_a_good_block_is_identity(s: Seq<u8>)
    requires
        checksum_holds(s),
    ensures
        resealed(s) == s,
{
    let n = bytes::long_at(s, 4);
    bytes::lemma_with_long_same_value(s, 4);
    assert(bytes::with_long(s, 4, n) == s);
    let t = unsealed(s, n);
    assert(t == bytes::with_long(s, 8, 0));
    lemma_sum_with_chk_sum(s, 0, n as nat);
    let chk = bytes::long_at(s, 8);
    let sum = sum_longs(s, n as nat);
    assert(sum_longs(t, n as nat) == sum - chk);
    assert(cancel(sum - chk) == chk) by {
        let m = (sum - chk) % 0x1_0000_0000;
        assert(sum % 0x1_0000_0000 == 0);
        assert((0x1_0000_0000 - m) % 0x1_0000_0000 == chk);
    }
    bytes::lemma_with_long_twice(s, 8, 0, chk);
    bytes::lemma_with_long_same_value(s, 8);
}

/// A block whose `SummedLongs` does not cover `ChkSum` never checks out,
/// whatever is stored there.
pub proof fn law_short_sum_never_checks_out(s: Seq<u8>, chk_sum: u32)
    requires
        s.len() >= 12,
        bytes::long_at(s, hdr::SUMMED_LONGS as int) < MIN_SUMMED_LONGS,
    ensures
        !checksum_holds(bytes::with_long(s, hdr::CHK_SUM as int, chk_sum)),
{
}

/// The wrapping sum of the first `longs` longwords.
fn wrapping_sum(block: &[u8], longs: usize) -> (sum: u32)
    requires
        4 * longs <= block.len(),
    ensures
        sum == sum_longs(block@, longs as nat) % 0x1_0000_0000,
{
    let mut sum: u32 = 0;
    let mut i: usize = 0;
    while i < longs
        invariant
            i <= longs,
            4 * longs <= block.len(),
            sum == sum_longs(block@, i as nat) % 0x1_0000_0000,
        decreases longs - i,
    {
        sum = sum.wrapping_add(be32(block, i * 4));
        i += 1;
    }
    sum
}

/// Verify an RDB-family block checksum.
///
/// The first `SummedLongs` big-endian longwords of the block sum to zero with
/// 32-bit wrapping arithmetic. A slice too short for the header, and a
/// `SummedLongs` that does not cover `ChkSum` or does not fit the block, are
/// `false`.
pub fn checksum_ok(block: &[u8]) -> (ok: bool)
    ensures
        ok == checksum_holds(block@),
{
    if block.len() < 12 {
        return false;
    }
    let longs: u32 = be32(block, hdr::SUMMED_LONGS);
    if longs < MIN_SUMMED_LONGS || longs as usize > block.len() / 4 {
        return false;
    }
    let sum: u32 = wrapping_sum(block, longs as usize);
    sum == 0
}

/// Why [`seal_checksum`] refused to seal a block.
#[derive(Debug, Clone, Copy, PartialEq, Eq, Structural)]
pub enum SealError {
    /// `summed_longs` is below [`MIN_SUMMED_LONGS`], so the sum would not
    /// cover `ChkSum` and no stored value could make it zero.
    SummedLongsTooShort {
        /// The count that was asked for.
        summed_longs: u32,
    },
    /// `summed_longs` longwords do not fit in the block.
    SummedLongsTooLong {
        /// The count that was asked for.
        summed_longs: u32,
        /// How many longwords the block holds.
        capacity: usize,
    },
}

impl SealError {
    /// The line [`message`](Self::message) gives.
    pub open spec fn line(self) -> Seq<char> {
        match self {
            SealError::SummedLongsTooShort { summed_longs } => "SummedLongs "@
                + text::decimal(summed_longs as int)
                + " is below the 3 needed to cover ChkSum itself"@,
            SealError::SummedLongsTooLong { summed_longs, capacity } => "SummedLongs "@
                + text::decimal(summed_longs as int) + " exceeds the "@
                + text::decimal(capacity as int) + " longwords the block holds"@,
        }
    }

    /// One line a user can act on.
    pub fn message(&self) -> (s: String)
        ensures
            s@ == self.line(),
    {
        let mut s: String = String::new();
        match self {
            SealError::SummedLongsTooShort { summed_longs } => {
                put(&mut s, "SummedLongs ");
                put_number(&mut s, *summed_longs as u64);
                put(&mut s, " is below the 3 needed to cover ChkSum itself");
            },
            SealError::SummedLongsTooLong { summed_longs, capacity } => {
                put(&mut s, "SummedLongs ");
                put_number(&mut s, *summed_longs as u64);
                put(&mut s, " exceeds the ");
                put_number(&mut s, *capacity as u64);
                put(&mut s, " longwords the block holds");
            },
        }
        assert(s@ =~= self.line());
        s
    }
}

/// Seal an RDB-family block: store `summed_longs` and the `ChkSum` that makes
/// the block check out.
pub fn seal_checksum(block: &mut [u8], summed_longs: u32) -> (r: Result<(), SealError>)
    ensures
        match r {
            Ok(_) => sealable(old(block)@, summed_longs) && final(block)@ == sealed(
                old(block)@,
                summed_longs,
            ) && checksum_holds(final(block)@),
            Err(e) => final(block)@ == old(block)@ && e == if summed_longs < MIN_SUMMED_LONGS {
                SealError::SummedLongsTooShort { summed_longs }
            } else {
                SealError::SummedLongsTooLong {
                    summed_longs,
                    capacity: (old(block)@.len() / 4) as usize,
                }
            },
        },
        r is Ok <==> sealable(old(block)@, summed_longs),
{
    if summed_longs < MIN_SUMMED_LONGS {
        return Err(SealError::SummedLongsTooShort { summed_longs });
    }
    let capacity: usize = block.len() / 4;
    let longs: usize = summed_longs as usize;
    if longs > capacity {
        return Err(SealError::SummedLongsTooLong { summed_longs, capacity });
    }
    put_be32(block, hdr::SUMMED_LONGS, summed_longs);
    put_be32(block, hdr::CHK_SUM, 0);
    let sum: u32 = wrapping_sum(block, longs);
    put_be32(block, hdr::CHK_SUM, 0u32.wrapping_sub(sum));
    proof {
        law_sealed_block_checks_out(old(block)@, summed_longs);
    }
    Ok(())
}

} // verus!
