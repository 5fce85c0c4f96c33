//! What the messages tell: every number and every name that the error or the
//! issue is about, as it is.
use vstd::prelude::*;

use crate::checksum::SealError;
use crate::edit_error::{CommitError, EditError};
use crate::geometry::GeometryError;
use crate::layout::BuildError;
use crate::partition_io::PartitionSourceError;
use crate::text;
use crate::validate::{BlockKind, Issue};
use crate::walk::RdbError;

verus! {

/// The part starts at character `i` of the line.
pub open spec fn stands_at(line: Seq<char>, part: Seq<char>, i: int) -> bool {
    0 <= i && i + part.len() <= line.len() && line.subrange(i, i + part.len()) == part
}

/// The line has the part in it.
#[verifier::opaque]
pub open spec fn tells(line: Seq<char>, part: Seq<char>) -> bool {
    exists|i: int| #[trigger] stands_at(line, part, i)
}

/// More text tells no less.
pub broadcast proof fn lemma_tells_on(s: Seq<char>, t: Seq<char>, part: Seq<char>)
    requires
        tells(s, part),
    ensures
        #[trigger] tells(s + t, part),
{
    reveal(tells);
    let i = choose|i: int| #[trigger] stands_at(s, part, i);
    assert((s + t).subrange(i, i + part.len()) =~= s.subrange(i, i + part.len()));
    assert(stands_at(s + t, part, i));
}

/// A part that is added is told.
pub broadcast proof fn lemma_tells_last(s: Seq<char>, part: Seq<char>)
    ensures
        #[trigger] tells(s + part, part),
{
    reveal(tells);
    let i = s.len() as int;
    assert((s + part).subrange(i, i + part.len()) =~= part);
    assert(stands_at(s + part, part, i));
}

/// A part alone is told.
pub proof fn lemma_tells_alone(part: Seq<char>)
    ensures
        tells(part, part),
{
    let none = Seq::<char>::empty();
    lemma_tells_last(none, part);
    assert(none + part =~= part);
}

/// How a line comes to tell a part.
pub broadcast group group_tells {
    lemma_tells_on,
    lemma_tells_last,
}

/// The number as it is written.
pub open spec fn num(n: int) -> Seq<char> {
    text::decimal(n)
}

/// What a validation reports tells which block, which partitions and which
/// numbers it is about.
pub proof fn law_issue_tells_what_it_is_about(issue: Issue)
    ensures
        ({
            let line = issue.line();
            match issue {
                Issue::RdbAreaInvalid { lo, hi } => {
                    &&& tells(line, num(lo as int))
                    &&& tells(line, num(hi as int))
                },
                Issue::BlockOutsideRdbArea { kind, lba, lo, hi } => {
                    &&& tells(
                        line,
                        match kind {
                            BlockKind::Part => "PART"@,
                            BlockKind::Fshd => "FSHD"@,
                            BlockKind::Lseg => "LSEG"@,
                            BlockKind::Badb => "BADB"@,
                        },
                    )
                    &&& tells(line, num(lba as int))
                    &&& tells(line, num(lo as int))
                    &&& tells(line, num(hi as int))
                },
                Issue::PartitionOverlapsRdbArea { index, name, start_lba, block_len, lo, hi } => {
                    &&& tells(line, num(index))
                    &&& tells(line, name)
                    &&& tells(line, num(start_lba as int))
                    &&& tells(line, num(lo as int))
                    &&& tells(line, num(hi as int))
                    &&& start_lba + block_len <= u64::MAX ==> tells(
                        line,
                        num(start_lba + block_len),
                    )
                },
                Issue::PartitionCylindersInverted { index, name, low_cyl, high_cyl } => {
                    &&& tells(line, num(index))
                    &&& tells(line, name)
                    &&& tells(line, num(low_cyl as int))
                    &&& tells(line, num(high_cyl as int))
                },
                Issue::PartitionsOverlap { a, b, a_name, b_name, start, len } => {
                    &&& tells(line, num(a))
                    &&& tells(line, a_name)
                    &&& tells(line, num(b))
                    &&& tells(line, b_name)
                    &&& tells(line, num(start as int))
                    &&& start + len <= u64::MAX ==> tells(line, num(start + len))
                },
                Issue::EnvecTooShort { index, name, table_size } => {
                    &&& tells(line, num(index))
                    &&& tells(line, name)
                    &&& tells(line, num(table_size as int))
                },
                Issue::SharedLsegChain { index, other, lba } => {
                    &&& tells(line, num(other))
                    &&& tells(line, num(index))
                    &&& tells(line, num(lba as int))
                },
            }
        }),
{
    broadcast use group_tells;

    let line = issue.line();
    match issue {
        Issue::RdbAreaInvalid { lo, hi } => {
            assert(tells(line, num(lo as int)));
            assert(tells(line, num(hi as int)));
        },
        Issue::BlockOutsideRdbArea { kind, lba, lo, hi } => {
            lemma_tells_alone(kind.label());
            assert(tells(line, kind.label()));
            assert(tells(line, num(lba as int)));
            assert(tells(line, num(lo as int)));
            assert(tells(line, num(hi as int)));
        },
        Issue::PartitionOverlapsRdbArea { index, name, start_lba, block_len, lo, hi } => {
            assert(tells(line, num(index)));
            assert(tells(line, name));
            assert(tells(line, num(start_lba as int)));
            assert(tells(line, num(lo as int)));
            assert(tells(line, num(hi as int)));
            if start_lba + block_len <= u64::MAX {
                assert(tells(line, num(start_lba + block_len)));
            }
        },
        Issue::PartitionCylindersInverted { index, name, low_cyl, high_cyl } => {
            assert(tells(line, num(index)));
            assert(tells(line, name));
            assert(tells(line, num(low_cyl as int)));
            assert(tells(line, num(high_cyl as int)));
        },
        Issue::PartitionsOverlap { a, b, a_name, b_name, start, len } => {
            assert(tells(line, num(a)));
            assert(tells(line, a_name));
            assert(tells(line, num(b)));
            assert(tells(line, b_name));
            assert(tells(line, num(start as int)));
            if start + len <= u64::MAX {
                assert(tells(line, num(start + len)));
            }
        },
        Issue::EnvecTooShort { index, name, table_size } => {
            assert(tells(line, num(index)));
            assert(tells(line, name));
            assert(tells(line, num(table_size as int)));
        },
        Issue::SharedLsegChain { index, other, lba } => {
            assert(tells(line, num(other)));
            assert(tells(line, num(index)));
            assert(tells(line, num(lba as int)));
        },
    }
}

/// What a parse fails with tells which block and which numbers it is about.
pub proof fn law_read_error_tells_what_it_is_about<E>(e: RdbError<E>, cause: Seq<char>)
    ensures
        ({
            let line = e.line(cause);
            match e {
                RdbError::Io(_) => tells(line, cause),
                RdbError::UnsupportedBlockSize { block_size } => tells(
                    line,
                    num(block_size as int),
                ),
                RdbError::NoRdsk => true,
                RdbError::WrongId { lba, expected, found } => {
                    &&& tells(line, num(lba as int))
                    &&& tells(line, text::fourcc(found))
                    &&& tells(line, text::fourcc(expected))
                },
                RdbError::BadChecksum { lba } => tells(line, num(lba as int)),
                RdbError::ChainOutOfRange { lba } => tells(line, num(lba as int)),
                RdbError::ChainCycle { lba } => tells(line, num(lba as int)),
                RdbError::ChainTooLong { limit } => tells(line, num(limit as int)),
                RdbError::SharedChain { lba } => tells(line, num(lba as int)),
                RdbError::BlockBytesMismatch { block_bytes, block_size } => {
                    &&& tells(line, num(block_bytes as int))
                    &&& tells(line, num(block_size as int))
                },
            }
        }),
{
    broadcast use group_tells;

    let line = e.line(cause);
    match e {
        RdbError::Io(_) => {
            assert(tells(line, cause));
        },
        RdbError::UnsupportedBlockSize { block_size } => {
            assert(tells(line, num(block_size as int)));
        },
        RdbError::NoRdsk => {
        },
        RdbError::WrongId { lba, expected, found } => {
            assert(tells(line, num(lba as int)));
            assert(tells(line, text::fourcc(found)));
            assert(tells(line, text::fourcc(expected)));
        },
        RdbError::BadChecksum { lba } => {
            assert(tells(line, num(lba as int)));
        },
        RdbError::ChainOutOfRange { lba } => {
            assert(tells(line, num(lba as int)));
        },
        RdbError::ChainCycle { lba } => {
            assert(tells(line, num(lba as int)));
        },
        RdbError::ChainTooLong { limit } => {
            assert(tells(line, num(limit as int)));
        },
        RdbError::SharedChain { lba } => {
            assert(tells(line, num(lba as int)));
        },
        RdbError::BlockBytesMismatch { block_bytes, block_size } => {
            assert(tells(line, num(block_bytes as int)));
            assert(tells(line, num(block_size as int)));
        },
    }
}

/// What an edit is refused with tells which partition, which name and which
/// numbers it is about.
pub proof fn law_refused_edit_tells_what_it_is_about(e: EditError)
    ensures
        ({
            let line = e.line();
            match e {
                EditError::NoSuchPartition { index, count } => {
                    &&& tells(line, num(index as int))
                    &&& tells(line, num(count as int))
                },
                EditError::InvalidName { name, max } => {
                    &&& tells(line, text::debug_text(name@))
                    &&& tells(line, num(max as int))
                },
                EditError::DuplicateName { name } => tells(line, text::debug_text(name@)),
                EditError::IdentityTooLong { field, value, max } => {
                    &&& tells(line, field@)
                    &&& tells(line, num(max as int))
                    &&& tells(line, text::debug_text(value@))
                },
                EditError::NoSuchFileSystem { index, count } => {
                    &&& tells(line, num(index as int))
                    &&& tells(line, num(count as int))
                },
                EditError::CylindersInverted { low_cyl, high_cyl } => {
                    &&& tells(line, num(low_cyl as int))
                    &&& tells(line, num(high_cyl as int))
                },
                EditError::PastEndOfDisk { high_cyl, last_cylinder } => {
                    &&& tells(line, num(high_cyl as int))
                    &&& tells(line, num(last_cylinder as int))
                },
                EditError::OverlapsRdbArea { low_cyl, lo_cylinder } => {
                    &&& tells(line, num(low_cyl as int))
                    &&& tells(line, num(lo_cylinder as int))
                },
                EditError::PartitionsOverlap { index, name, start, len } => {
                    &&& tells(line, num(index as int))
                    &&& tells(line, text::debug_text(name@))
                    &&& tells(line, num(len as int))
                    &&& tells(line, num(start as int))
                },
                EditError::PartitionTooSmall { bytes, cylinder_bytes } => {
                    &&& tells(line, num(bytes as int))
                    &&& tells(line, num(cylinder_bytes as int))
                },
                EditError::NoRoomForPartition { cylinders, largest_gap } => {
                    &&& tells(line, num(cylinders as int))
                    &&& tells(line, num(largest_gap as int))
                },
                EditError::UnusableGeometry { heads, sectors } => {
                    &&& tells(line, num(heads as int))
                    &&& tells(line, num(sectors as int))
                },
                EditError::RdbAreaWouldShrink { hi, new_hi } => {
                    &&& tells(line, num(hi as int))
                    &&& tells(line, num(new_hi as int))
                },
                EditError::RdbAreaBlocked { index, name, new_hi, move_to_cylinder } => {
                    &&& tells(line, num(index as int))
                    &&& tells(line, text::debug_text(name@))
                    &&& tells(line, num(new_hi as int))
                    &&& tells(line, num(move_to_cylinder as int))
                },
                EditError::LoCylinderBlocked { index, name, low_cyl, lo_cylinder } => {
                    &&& tells(line, num(index as int))
                    &&& tells(line, text::debug_text(name@))
                    &&& tells(line, num(low_cyl as int))
                    &&& tells(line, num(lo_cylinder as int))
                },
                EditError::CylindersBelowPartition { index, name, high_cyl, cylinders } => {
                    &&& tells(line, num(cylinders as int))
                    &&& tells(line, num(high_cyl as int))
                    &&& tells(line, num(index as int))
                    &&& tells(line, text::debug_text(name@))
                },
                EditError::ClaimsBlocksPastEndOfDisk { last_block, disk_blocks } => {
                    &&& tells(line, num(last_block as int))
                    &&& tells(line, num(disk_blocks as int))
                },
            }
        }),
{
    broadcast use group_tells;

    let line = e.line();
    match e {
        EditError::NoSuchPartition { index, count } => {
            assert(tells(line, num(index as int)));
            assert(tells(line, num(count as int)));
        },
        EditError::InvalidName { name, max } => {
            assert(tells(line, text::debug_text(name@)));
            assert(tells(line, num(max as int)));
        },
        EditError::DuplicateName { name } => {
            assert(tells(line, text::debug_text(name@)));
        },
        EditError::IdentityTooLong { field, value, max } => {
            lemma_tells_alone(field@);
            assert(tells(line, field@));
            assert(tells(line, num(max as int)));
            assert(tells(line, text::debug_text(value@)));
        },
        EditError::NoSuchFileSystem { index, count } => {
            assert(tells(line, num(index as int)));
            assert(tells(line, num(count as int)));
        },
        EditError::CylindersInverted { low_cyl, high_cyl } => {
            assert(tells(line, num(low_cyl as int)));
            assert(tells(line, num(high_cyl as int)));
        },
        EditError::PastEndOfDisk { high_cyl, last_cylinder } => {
            assert(tells(line, num(high_cyl as int)));
            assert(tells(line, num(last_cylinder as int)));
        },
        EditError::OverlapsRdbArea { low_cyl, lo_cylinder } => {
            assert(tells(line, num(low_cyl as int)));
            assert(tells(line, num(lo_cylinder as int)));
        },
        EditError::PartitionsOverlap { index, name, start, len } => {
            assert(tells(line, num(index as int)));
            assert(tells(line, text::debug_text(name@)));
            assert(tells(line, num(len as int)));
            assert(tells(line, num(start as int)));
        },
        EditError::PartitionTooSmall { bytes, cylinder_bytes } => {
            lemma_tells_alone(num(bytes as int));
            assert(tells(line, num(bytes as int)));
            assert(tells(line, num(cylinder_bytes as int)));
        },
        EditError::NoRoomForPartition { cylinders, largest_gap } => {
            assert(tells(line, num(cylinders as int)));
            assert(tells(line, num(largest_gap as int)));
        },
        EditError::UnusableGeometry { heads, sectors } => {
            assert(tells(line, num(heads as int)));
            assert(tells(line, num(sectors as int)));
        },
        EditError::RdbAreaWouldShrink { hi, new_hi } => {
            assert(tells(line, num(hi as int)));
            assert(tells(line, num(new_hi as int)));
        },
        EditError::RdbAreaBlocked { index, name, new_hi, move_to_cylinder } => {
            assert(tells(line, num(index as int)));
            assert(tells(line, text::debug_text(name@)));
            assert(tells(line, num(new_hi as int)));
            assert(tells(line, num(move_to_cylinder as int)));
        },
        EditError::LoCylinderBlocked { index, name, low_cyl, lo_cylinder } => {
            assert(tells(line, num(index as int)));
            assert(tells(line, text::debug_text(name@)));
            assert(tells(line, num(low_cyl as int)));
            assert(tells(line, num(lo_cylinder as int)));
        },
        EditError::CylindersBelowPartition { index, name, high_cyl, cylinders } => {
            assert(tells(line, num(cylinders as int)));
            assert(tells(line, num(high_cyl as int)));
            assert(tells(line, num(index as int)));
            assert(tells(line, text::debug_text(name@)));
        },
        EditError::ClaimsBlocksPastEndOfDisk { last_block, disk_blocks } => {
            assert(tells(line, num(last_block as int)));
            assert(tells(line, num(disk_blocks as int)));
        },
    }
}

/// What a commit is refused with tells which numbers it is about.
pub proof fn law_refused_commit_tells_what_it_is_about<E>(e: CommitError<E>, cause: Seq<char>)
    ensures
        ({
            let line = e.line(cause);
            match e {
                CommitError::Io(_) => tells(line, cause),
                CommitError::UnsupportedBlockSize { block_size } => tells(
                    line,
                    num(block_size as int),
                ),
                CommitError::BlockSizeMismatch { rdb, sink } => {
                    &&& tells(line, num(rdb as int))
                    &&& tells(line, num(sink as int))
                },
                CommitError::RdbAreaInvalid { lo, hi } => {
                    &&& tells(line, num(lo as int))
                    &&& tells(line, num(hi as int))
                },
                CommitError::RdskOutsideRdbArea { rdsk_block, hi } => {
                    &&& tells(line, num(rdsk_block as int))
                    &&& tells(line, num(hi as int))
                },
                CommitError::RdbAreaTooSmall { needed, available, lo, hi } => {
                    &&& tells(line, num(lo as int))
                    &&& tells(line, num(hi as int))
                    &&& tells(line, num(available as int))
                    &&& tells(line, num(needed as int))
                },
                CommitError::RdbAreaPastEndOfDisk { hi, block_count } => {
                    &&& tells(line, num(hi as int))
                    &&& tells(line, num(block_count as int))
                },
                CommitError::OutsideRdbArea { lba, hi } => {
                    &&& tells(line, num(lba as int))
                    &&& tells(line, num(hi as int))
                },
                CommitError::Seal(s) => tells(line, s.line()),
            }
        }),
{
    broadcast use group_tells;

    let line = e.line(cause);
    match e {
        CommitError::Io(_) => {
            assert(tells(line, cause));
        },
        CommitError::UnsupportedBlockSize { block_size } => {
            assert(tells(line, num(block_size as int)));
        },
        CommitError::BlockSizeMismatch { rdb, sink } => {
            assert(tells(line, num(rdb as int)));
            assert(tells(line, num(sink as int)));
        },
        CommitError::RdbAreaInvalid { lo, hi } => {
            assert(tells(line, num(lo as int)));
            assert(tells(line, num(hi as int)));
        },
        CommitError::RdskOutsideRdbArea { rdsk_block, hi } => {
            assert(tells(line, num(rdsk_block as int)));
            assert(tells(line, num(hi as int)));
        },
        CommitError::RdbAreaTooSmall { needed, available, lo, hi } => {
            assert(tells(line, num(lo as int)));
            assert(tells(line, num(hi as int)));
            assert(tells(line, num(available as int)));
            assert(tells(line, num(needed as int)));
        },
        CommitError::RdbAreaPastEndOfDisk { hi, block_count } => {
            assert(tells(line, num(hi as int)));
            assert(tells(line, num(block_count as int)));
        },
        CommitError::OutsideRdbArea { lba, hi } => {
            assert(tells(line, num(lba as int)));
            assert(tells(line, num(hi as int)));
        },
        CommitError::Seal(s) => {
            assert(tells(line, s.line()));
        },
    }
}

/// What a build is refused with tells which names and which numbers it is about.
pub proof fn law_refused_build_tells_what_it_is_about<E>(e: BuildError<E>, cause: Seq<char>)
    ensures
        ({
            let line = e.line(cause);
            match e {
                BuildError::Io(_) => tells(line, cause),
                BuildError::UnsupportedBlockSize { block_size } => tells(
                    line,
                    num(block_size as int),
                ),
                BuildError::BlockSizeMismatch { geometry, sink } => {
                    &&& tells(line, num(geometry as int))
                    &&& tells(line, num(sink as int))
                },
                BuildError::EmptyGeometry { geometry } => {
                    &&& tells(line, num(geometry.cylinders as int))
                    &&& tells(line, num(geometry.heads as int))
                    &&& tells(line, num(geometry.sectors as int))
                },
                BuildError::InvalidName { name, max } => {
                    &&& tells(line, text::debug_text(name@))
                    &&& tells(line, num(max as int))
                },
                BuildError::DuplicateName { name } => tells(line, text::debug_text(name@)),
                BuildError::CylindersInverted { name, low_cyl, high_cyl } => {
                    &&& tells(line, text::debug_text(name@))
                    &&& tells(line, num(low_cyl as int))
                    &&& tells(line, num(high_cyl as int))
                },
                BuildError::PartitionTooSmall { name, bytes, cylinder_bytes } => {
                    &&& tells(line, text::debug_text(name@))
                    &&& tells(line, num(bytes as int))
                    &&& tells(line, num(cylinder_bytes as int))
                },
                BuildError::PartitionPastEndOfDisk { name, high_cyl, last_cylinder } => {
                    &&& tells(line, text::debug_text(name@))
                    &&& tells(line, num(high_cyl as int))
                    &&& tells(line, num(last_cylinder as int))
                },
                BuildError::PartitionOverlapsRdbArea { name, low_cyl, lo_cylinder } => {
                    &&& tells(line, text::debug_text(name@))
                    &&& tells(line, num(low_cyl as int))
                    &&& lo_cylinder > 0 ==> {
                        &&& tells(line, num(low_cyl as int))
                        &&& tells(line, num(lo_cylinder - 1))
                    }
                },
                BuildError::PartitionsOverlap { a_name, b_name, low_cyl, high_cyl } => {
                    &&& tells(line, text::debug_text(a_name@))
                    &&& tells(line, text::debug_text(b_name@))
                    &&& tells(line, num(low_cyl as int))
                    &&& tells(line, num(high_cyl as int))
                },
                BuildError::RdbAreaTooSmall { needed, available } => {
                    &&& tells(line, num(available as int))
                    &&& tells(line, num(needed as int))
                },
                BuildError::SinkTooSmall { needed, available } => {
                    &&& tells(line, num(needed as int))
                    &&& tells(line, num(available as int))
                },
                BuildError::Seal(s) => tells(line, s.line()),
            }
        }),
{
    broadcast use group_tells;

    let line = e.line(cause);
    match e {
        BuildError::Io(_) => {
            assert(tells(line, cause));
        },
        BuildError::UnsupportedBlockSize { block_size } => {
            assert(tells(line, num(block_size as int)));
        },
        BuildError::BlockSizeMismatch { geometry, sink } => {
            assert(tells(line, num(geometry as int)));
            assert(tells(line, num(sink as int)));
        },
        BuildError::EmptyGeometry { geometry } => {
            assert(tells(line, num(geometry.cylinders as int)));
            assert(tells(line, num(geometry.heads as int)));
            assert(tells(line, num(geometry.sectors as int)));
        },
        BuildError::InvalidName { name, max } => {
            assert(tells(line, text::debug_text(name@)));
            assert(tells(line, num(max as int)));
        },
        BuildError::DuplicateName { name } => {
            assert(tells(line, text::debug_text(name@)));
        },
        BuildError::CylindersInverted { name, low_cyl, high_cyl } => {
            assert(tells(line, text::debug_text(name@)));
            assert(tells(line, num(low_cyl as int)));
            assert(tells(line, num(high_cyl as int)));
        },
        BuildError::PartitionTooSmall { name, bytes, cylinder_bytes } => {
            assert(tells(line, text::debug_text(name@)));
            assert(tells(line, num(bytes as int)));
            assert(tells(line, num(cylinder_bytes as int)));
        },
        BuildError::PartitionPastEndOfDisk { name, high_cyl, last_cylinder } => {
            assert(tells(line, text::debug_text(name@)));
            assert(tells(line, num(high_cyl as int)));
            assert(tells(line, num(last_cylinder as int)));
        },
        BuildError::PartitionOverlapsRdbArea { name, low_cyl, lo_cylinder } => {
            assert(tells(line, text::debug_text(name@)));
            assert(tells(line, num(low_cyl as int)));
            if lo_cylinder > 0 {
                assert(tells(line, num(lo_cylinder - 1)));
            }
        },
        BuildError::PartitionsOverlap { a_name, b_name, low_cyl, high_cyl } => {
            assert(tells(line, text::debug_text(a_name@)));
            assert(tells(line, text::debug_text(b_name@)));
            assert(tells(line, num(low_cyl as int)));
            assert(tells(line, num(high_cyl as int)));
        },
        BuildError::RdbAreaTooSmall { needed, available } => {
            assert(tells(line, num(available as int)));
            assert(tells(line, num(needed as int)));
        },
        BuildError::SinkTooSmall { needed, available } => {
            assert(tells(line, num(needed as int)));
            assert(tells(line, num(available as int)));
        },
        BuildError::Seal(s) => {
            assert(tells(line, s.line()));
        },
    }
}

/// The other errors tell the numbers they are about too.
pub proof fn law_other_errors_tell_what_they_are_about<E>(
    g: GeometryError,
    s: SealError,
    p: PartitionSourceError<E>,
    cause: Seq<char>,
)
    ensures
        match g {
            GeometryError::UnsupportedBlockSize { block_size } => tells(
                g.line(),
                num(block_size as int),
            ),
            GeometryError::TooSmall { total_bytes, block_size, minimum_bytes } => {
                &&& tells(g.line(), num(total_bytes as int))
                &&& tells(g.line(), num(block_size as int))
                &&& tells(g.line(), num(minimum_bytes as int))
            },
            GeometryError::TooLarge { total_bytes, block_size } => {
                &&& tells(g.line(), num(total_bytes as int))
                &&& tells(g.line(), num(block_size as int))
            },
        },
        match s {
            SealError::SummedLongsTooShort { summed_longs } => tells(
                s.line(),
                num(summed_longs as int),
            ),
            SealError::SummedLongsTooLong { summed_longs, capacity } => {
                &&& tells(s.line(), num(summed_longs as int))
                &&& tells(s.line(), num(capacity as int))
            },
        },
        match p {
            PartitionSourceError::Parent(_) => tells(p.line(cause), cause),
            PartitionSourceError::OutOfRange { lba, len } => {
                &&& tells(p.line(cause), num(lba as int))
                &&& tells(p.line(cause), num(len as int))
            },
            PartitionSourceError::BeyondParent { lba, parent_lba, block_count } => {
                &&& tells(p.line(cause), num(lba as int))
                &&& tells(p.line(cause), num(parent_lba as int))
                &&& tells(p.line(cause), num(block_count as int))
            },
        },
{
    broadcast use group_tells;

    match g {
        GeometryError::UnsupportedBlockSize { block_size } => {
            assert(tells(g.line(), num(block_size as int)));
        },
        GeometryError::TooSmall { total_bytes, block_size, minimum_bytes } => {
            lemma_tells_alone(num(total_bytes as int));
            assert(tells(g.line(), num(total_bytes as int)));
            assert(tells(g.line(), num(block_size as int)));
            assert(tells(g.line(), num(minimum_bytes as int)));
        },
        GeometryError::TooLarge { total_bytes, block_size } => {
            lemma_tells_alone(num(total_bytes as int));
            assert(tells(g.line(), num(total_bytes as int)));
            assert(tells(g.line(), num(block_size as int)));
        },
    }
    match s {
        SealError::SummedLongsTooShort { summed_longs } => {
            assert(tells(s.line(), num(summed_longs as int)));
        },
        SealError::SummedLongsTooLong { summed_longs, capacity } => {
            assert(tells(s.line(), num(summed_longs as int)));
            assert(tells(s.line(), num(capacity as int)));
        },
    }
    match p {
        PartitionSourceError::Parent(_) => {
            assert(tells(p.line(cause), cause));
        },
        PartitionSourceError::OutOfRange { lba, len } => {
            assert(tells(p.line(cause), num(lba as int)));
            assert(tells(p.line(cause), num(len as int)));
        },
        PartitionSourceError::BeyondParent { lba, parent_lba, block_count } => {
            assert(tells(p.line(cause), num(lba as int)));
            assert(tells(p.line(cause), num(parent_lba as int)));
            assert(tells(p.line(cause), num(block_count as int)));
        },
    }
}

} // verus!
