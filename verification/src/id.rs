//! Block identifiers, as big-endian magic numbers.
use vstd::prelude::*;

verus! {

/// `RDSK` — the rigid disk block itself.
pub const RDSK: u32 = 0x5244_534B;
/// `PART` — one partition.
pub const PART: u32 = 0x5041_5254;
/// `FSHD` — filesystem header (a loadable filesystem driver).
pub const FSHD: u32 = 0x4653_4844;
/// `LSEG` — one chunk of a filesystem driver's load segments.
pub const LSEG: u32 = 0x4C53_4547;
/// `BADB` — bad-block list.
pub const BADB: u32 = 0x4241_4442;

} // verus!
