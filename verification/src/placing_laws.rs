//! Where a partition that is added goes, and what it is called.
use vstd::arithmetic::div_mod::*;
use vstd::arithmetic::mul::*;
use vstd::prelude::*;
use vstd::utf8::*;

use crate::edit_error::Rejection;
use crate::model::Rdb;
use crate::specs::{PartitionSpec, Placement};
use crate::{arith, editor, extent, extent_laws, layout_laws, names};

verus! {

/// No partition has any of the cylinders `low..=high`.
pub open spec fn cylinders_are_free(rdb: Rdb, low: int, high: int) -> bool {
    forall|i: int|
        0 <= i < rdb.partitions@.len() ==> {
            let p = #[trigger] rdb.partitions@[i];
            p.block_len == 0 || p.high_cyl < p.low_cyl || p.high_cyl < low || high < p.low_cyl
        }
}

/// A gap may end on the cylinder: it is one that partitions may use, or one of
/// them starts further on.
pub open spec fn may_end(rdb: Rdb, last: int) -> bool {
    last <= extent_laws::last_usable(rdb) || exists|i: int|
        0 <= i < rdb.partitions@.len() && (#[trigger] rdb.partitions@[i]).block_len != 0
            && rdb.partitions@[i].low_cyl > last
}

/// `len` cylinders from `from` on are free, lie where partitions may, and end
/// where a gap may.
pub open spec fn is_room(rdb: Rdb, from: int, len: int) -> bool {
    &&& from >= 0
    &&& len >= 1
    &&& extent_laws::may_start(rdb, from * (rdb.heads * rdb.sectors))
    &&& may_end(rdb, from + len - 1)
    &&& cylinders_are_free(rdb, from, from + len - 1)
}

/// `cylinders` is how many whole cylinders of `cylinder_bytes` bytes there are in
/// `bytes`.
pub open spec fn is_whole_count(bytes: int, cylinder_bytes: int, cylinders: int) -> bool {
    cylinders * cylinder_bytes <= bytes < (cylinders + 1) * cylinder_bytes
}

proof fn lemma_whole_count(bytes: int, cylinder_bytes: int)
    requires
        0 <= bytes,
        0 < cylinder_bytes,
    ensures
        is_whole_count(bytes, cylinder_bytes, bytes / cylinder_bytes),
        bytes >= cylinder_bytes ==> bytes / cylinder_bytes >= 1,
{
    let q = bytes / cylinder_bytes;
    lemma_fundamental_div_mod(bytes, cylinder_bytes);
    lemma_mod_bound(bytes, cylinder_bytes);
    lemma_mul_is_commutative(cylinder_bytes, q);
    assert(q * cylinder_bytes <= bytes < (q + 1) * cylinder_bytes) by (nonlinear_arith)
        requires
            bytes == q * cylinder_bytes + bytes % cylinder_bytes,
            0 <= bytes % cylinder_bytes < cylinder_bytes,
    ;
    if bytes >= cylinder_bytes {
        assert(q >= 1) by (nonlinear_arith)
            requires
                bytes >= cylinder_bytes,
                bytes < (q + 1) * cylinder_bytes,
                cylinder_bytes > 0,
        ;
    }
}

proof fn lemma_may_end(rdb: Rdb, last: int)
    ensures
        may_end(rdb, last) <==> last <= extent::last_cyl(rdb) || extent::some_starts_after(
            rdb,
            last,
        ),
{
    extent_laws::lemma_sizes(rdb);
    if extent::some_starts_after(rdb, last) {
        let i = choose|i: int| extent::starts_after(rdb, i, last);
        assert(rdb.partitions@[i].low_cyl > last);
    }
    if exists|i: int|
        0 <= i < rdb.partitions@.len() && (#[trigger] rdb.partitions@[i]).block_len != 0
            && rdb.partitions@[i].low_cyl > last {
        let i = choose|i: int|
            0 <= i < rdb.partitions@.len() && (#[trigger] rdb.partitions@[i]).block_len != 0
                && rdb.partitions@[i].low_cyl > last;
        assert(extent::starts_after(rdb, i, last));
    }
}

/// Room is a free run.
proof fn lemma_room(rdb: Rdb, from: int, len: int)
    requires
        rdb.heads * rdb.sectors > 0,
        is_room(rdb, from, len),
    ensures
        extent::is_free_run(rdb, rdb.heads * rdb.sectors, from, len),
{
    let cyl = rdb.heads * rdb.sectors;
    lemma_may_end(rdb, from + len - 1);
    let first = extent::first_block(rdb) as int;
    let up = arith::saturated(first + cyl - 1) as int;
    extent_laws::lemma_sizes(rdb);
    assert(extent_laws::may_start(rdb, from * cyl));
    assert(from * cyl >= first);
    assert(up / cyl <= from) by {
        lemma_fundamental_div_mod(up, cyl);
        lemma_mod_bound(up, cyl);
        let q = up / cyl;
        assert(q <= from) by (nonlinear_arith)
            requires
                up == cyl * q + up % cyl,
                0 <= up % cyl < cyl,
                up <= first + cyl - 1,
                from * cyl >= first,
                cyl > 0,
        ;
    }
    assert forall|i: int, c: int|
        0 <= i < rdb.partitions@.len() && from <= c < from + len implies !#[trigger] extent::uses(
        rdb,
        i,
        c,
    ) by {
        let p = rdb.partitions@[i];
        assert(p.block_len == 0 || p.high_cyl < p.low_cyl || p.high_cyl < from || from + len - 1
            < p.low_cyl);
    }
}

/// A free run has no partition in it.
proof fn lemma_run(rdb: Rdb, cyl: int, from: int, len: int)
    requires
        extent::is_free_run(rdb, cyl, from, len),
    ensures
        cylinders_are_free(rdb, from, from + len - 1),
        may_end(rdb, from + len - 1),
{
    lemma_may_end(rdb, from + len - 1);
    assert forall|i: int| 0 <= i < rdb.partitions@.len() implies {
        let p = #[trigger] rdb.partitions@[i];
        p.block_len == 0 || p.high_cyl < p.low_cyl || p.high_cyl < from || from + len - 1
            < p.low_cyl
    } by {
        let p = rdb.partitions@[i];
        let c = if p.low_cyl < from {
            from
        } else {
            p.low_cyl as int
        };
        if from <= c < from + len {
            assert(!extent::uses(rdb, i, c));
        }
    }
}

/// A partition of a size gets as many whole cylinders as the size has, on
/// cylinders that no partition has; no room for it lies further to the front,
/// and where it is told that there is none, there is none. The largest gap that
/// it is told of is no smaller than any room there is, and too small for it.
pub proof fn law_size_takes_the_first_room(
    rdb: Rdb,
    block_size: usize,
    bytes: u64,
    r: Result<(u32, u32), Rejection>,
)
    requires
        extent::size_outcome(rdb, block_size, bytes, rdb.heads * rdb.sectors, r),
        block_size > 0,
    ensures
        ({
            let cyl = rdb.heads * rdb.sectors;
            let cylinder_bytes = extent_laws::capped(cyl * block_size);
            match r {
                Ok((low, high)) => {
                    &&& cyl > 0
                    &&& low <= high
                    &&& is_whole_count(bytes as int, cylinder_bytes, high - low + 1)
                    &&& cylinders_are_free(rdb, low as int, high as int)
                    &&& forall|f: int|
                        0 <= f < low ==> !#[trigger] is_room(rdb, f, high - low + 1)
                },
                Err(Rejection::UnusableGeometry { heads, sectors }) => heads == rdb.heads
                    && sectors == rdb.sectors && cyl == 0,
                Err(Rejection::PartitionTooSmall { bytes: asked, cylinder_bytes: least }) => {
                    &&& cyl > 0
                    &&& asked == bytes < least == cylinder_bytes
                },
                Err(Rejection::NoRoomForPartition { cylinders, largest_gap }) => {
                    &&& cyl > 0
                    &&& is_whole_count(bytes as int, cylinder_bytes, cylinders as int)
                    &&& 0 <= largest_gap < cylinders
                    &&& forall|f: int, n: int| #[trigger]
                        is_room(rdb, f, n) ==> n <= largest_gap
                    &&& largest_gap > 0 ==> exists|f: int| #[trigger]
                        cylinders_are_free(rdb, f, f + largest_gap - 1) && may_end(
                            rdb,
                            f + largest_gap - 1,
                        )
                },
                Err(_) => false,
            }
        }),
{
    let cyl = rdb.heads * rdb.sectors;
    lemma_mul_nonnegative(rdb.heads as int, rdb.sectors as int);
    lemma_mul_nonnegative(cyl, block_size as int);
    if cyl > 0 {
        lemma_mul_strictly_positive(cyl, block_size as int);
        let cylinder_bytes = arith::saturated(cyl * block_size);
        lemma_whole_count(bytes as int, cylinder_bytes as int);
        assert forall|f: int, n: int| #[trigger] is_room(rdb, f, n) implies extent::is_free_run(
            rdb,
            cyl,
            f,
            n,
        ) by {
            lemma_room(rdb, f, n);
        }
        match r {
            Ok((low, high)) => {
                lemma_run(rdb, cyl, low as int, high - low + 1);
            },
            Err(Rejection::NoRoomForPartition { cylinders, largest_gap }) => {
                if largest_gap > 0 {
                    let f = choose|f: int| #[trigger]
                        extent::is_free_run(rdb, cyl, f, largest_gap as int);
                    lemma_run(rdb, cyl, f, largest_gap as int);
                }
            },
            _ => {},
        }
    }
}

/// A partition has this name.
pub open spec fn is_used(rdb: Rdb, name: Seq<char>) -> bool {
    exists|i: int| 0 <= i < rdb.partitions@.len() && (#[trigger] rdb.partitions@[i]).name@ == name
}

/// There is a lowest number whose name is not in use.
proof fn lemma_number(rdb: Rdb) -> (n: int)
    ensures
        n == names::first_free(editor::all_names(rdb), 0),
        0 <= n <= rdb.partitions@.len(),
        !is_used(rdb, layout_laws::numbered(n)),
        forall|m: int| 0 <= m < n ==> is_used(rdb, #[trigger] layout_laws::numbered(m)),
{
    let named = Seq::new(
        rdb.partitions@.len(),
        |i: int| Some(rdb.partitions@[i].name@),
    );
    assert forall|s: Seq<char>| #[trigger]
        names::names_in(named).contains(s) <==> editor::all_names(rdb).contains(s) by {
        if named.contains(Some(s)) {
            let i = choose|i: int| 0 <= i < named.len() && named[i] == Some(s);
            assert(rdb.partitions@[i].name@ == s);
        }
        if editor::all_names(rdb).contains(s) {
            let i = choose|i: int|
                0 <= i < rdb.partitions@.len() && i != -1 && (
                #[trigger] rdb.partitions@[i]).name@ == s;
            assert(named[i] == Some(s));
        }
    }
    assert(names::names_in(named) =~= editor::all_names(rdb));
    let none = Seq::<int>::empty();
    assert(names::accounted(named, none, 0, 0));
    let (n, places) = names::lemma_next_free(named, none, 0, 0);
    names::lemma_first_free(editor::all_names(rdb), 0, n);
    names::lemma_accounted_bound(named, places, n, 0);
    assert(!editor::all_names(rdb).contains(names::dh(n)));
    assert(!is_used(rdb, layout_laws::numbered(n))) by {
        if is_used(rdb, layout_laws::numbered(n)) {
            let i = choose|i: int|
                0 <= i < rdb.partitions@.len() && (#[trigger] rdb.partitions@[i]).name@
                    == layout_laws::numbered(n);
            assert(i != -1);
        }
    }
    assert forall|m: int| 0 <= m < n implies is_used(rdb, #[trigger] layout_laws::numbered(m)) by {
        assert(editor::all_names(rdb).contains(names::dh(m)));
    }
    n
}

/// A partition that is added is called what it asks for, where that fits the
/// field and no partition is called that, and is refused otherwise. One that
/// asks for nothing gets the lowest number that no partition has.
pub proof fn law_added_name_is_free(rdb: Rdb, spec: PartitionSpec)
    ensures
        !is_used(rdb, editor::new_name(rdb, spec)) || editor::new_name_refusal(rdb, spec) is Some,
        match spec.name {
            Some(s) => {
                &&& editor::new_name(rdb, spec) == s@
                &&& match editor::new_name_refusal(rdb, spec) {
                    None => s@.len() > 0 && encode_utf8(s@).len() <= 31 && !is_used(rdb, s@),
                    Some(Rejection::InvalidName { name, max }) => name == s@ && max == 31 && (
                    s@.len() == 0 || encode_utf8(s@).len() > 31),
                    Some(Rejection::DuplicateName { name }) => name == s@ && s@.len() > 0
                        && encode_utf8(s@).len() <= 31 && is_used(rdb, s@),
                    Some(_) => false,
                }
            },
            None => {
                &&& editor::new_name_refusal(rdb, spec) is None
                &&& exists|n: int|
                    {
                        &&& 0 <= n
                        &&& editor::new_name(rdb, spec) == #[trigger] layout_laws::numbered(n)
                        &&& !is_used(rdb, layout_laws::numbered(n))
                        &&& forall|m: int|
                            0 <= m < n ==> is_used(rdb, #[trigger] layout_laws::numbered(m))
                    }
            },
        },
{
    match spec.name {
        Some(s) => {
            if is_used(rdb, s@) {
                let i = choose|i: int|
                    0 <= i < rdb.partitions@.len() && (#[trigger] rdb.partitions@[i]).name@ == s@;
                assert(i != -1);
                assert(editor::all_names(rdb).contains(s@));
            }
        },
        None => {
            let n = lemma_number(rdb);
            assert(editor::new_name(rdb, spec) == layout_laws::numbered(n));
        },
    }
}

/// A partition is added exactly as it asks: on the cylinders it names, or on as
/// many whole cylinders as its size has, in the first room there is, and always
/// where a partition may stand. It is refused only for a reason: a geometry with
/// no blocks in a cylinder, a name that does not fit or is in use, or a place
/// where no partition may stand or for which there is no room.
pub proof fn law_added_partition_is_where_it_asks(
    rdb: Rdb,
    block_size: usize,
    spec: PartitionSpec,
    r: Result<(u32, u32), Rejection>,
)
    requires
        editor::add_outcome(rdb, block_size, spec, r),
        rdb.partitions@.len() <= usize::MAX,
        block_size > 0,
    ensures
        ({
            let cyl = rdb.heads * rdb.sectors;
            let cylinder_bytes = extent_laws::capped(cyl * block_size);
            let is_nameable = match spec.name {
                Some(s) => s@.len() > 0 && encode_utf8(s@).len() <= 31 && !is_used(rdb, s@),
                None => true,
            };
            &&& r matches Ok((low, high)) ==> {
                &&& cyl > 0
                &&& is_nameable
                &&& extent_laws::may_stand(rdb, None, low as int, high as int, cyl)
                &&& match spec.placement {
                    Placement::Cylinders { low: first, high: last } => low == first && high == last,
                    Placement::Size(bytes) => {
                        &&& is_whole_count(bytes as int, cylinder_bytes, high - low + 1)
                        &&& cylinders_are_free(rdb, low as int, high as int)
                        &&& forall|f: int|
                            0 <= f < low ==> !#[trigger] is_room(rdb, f, high - low + 1)
                    },
                }
            }
            &&& r is Err ==> {
                ||| cyl == 0
                ||| !is_nameable
                ||| match spec.placement {
                    Placement::Cylinders { low, high } => !extent_laws::may_stand(
                        rdb,
                        None,
                        low as int,
                        high as int,
                        cyl,
                    ),
                    Placement::Size(bytes) => {
                        ||| bytes < cylinder_bytes
                        ||| forall|f: int, n: int|
                            is_whole_count(bytes as int, cylinder_bytes, n) ==> !#[trigger] is_room(
                                rdb,
                                f,
                                n,
                            )
                        ||| exists|low: u32, high: u32|
                            {
                                &&& is_whole_count(bytes as int, cylinder_bytes, high - low + 1)
                                &&& cylinders_are_free(rdb, low as int, high as int)
                                &&& !#[trigger] extent_laws::may_stand(
                                    rdb,
                                    None,
                                    low as int,
                                    high as int,
                                    cyl,
                                )
                            }
                    },
                }
            }
        }),
{
    let cyl = rdb.heads * rdb.sectors;
    let cylinder_bytes = extent_laws::capped(cyl * block_size);
    lemma_mul_nonnegative(rdb.heads as int, rdb.sectors as int);
    law_added_name_is_free(rdb, spec);
    if cyl > 0 && editor::new_name_refusal(rdb, spec) is None {
        match spec.placement {
            Placement::Cylinders { low, high } => {
                extent_laws::law_extent_is_refused_for_a_reason(rdb, None, low, high, cyl);
            },
            Placement::Size(bytes) => {
                let p = choose|p: Result<(u32, u32), Rejection>|
                    {
                        &&& #[trigger] extent::size_outcome(rdb, block_size, bytes, cyl, p)
                        &&& match p {
                            Ok((low, high)) => r == editor::legal_extent(rdb, low, high),
                            Err(x) => r == Err::<(u32, u32), Rejection>(x),
                        }
                    };
                law_size_takes_the_first_room(rdb, block_size, bytes, p);
                match p {
                    Ok((low, high)) => {
                        extent_laws::law_extent_is_refused_for_a_reason(rdb, None, low, high, cyl);
                        assert(r is Err ==> !extent_laws::may_stand(
                            rdb,
                            None,
                            low as int,
                            high as int,
                            cyl,
                        ));
                    },
                    Err(Rejection::NoRoomForPartition { cylinders, largest_gap }) => {
                        assert forall|f: int, n: int|
                            is_whole_count(
                                bytes as int,
                                cylinder_bytes,
                                n,
                            ) implies !#[trigger] is_room(rdb, f, n) by {
                            lemma_whole_count_unique(
                                bytes as int,
                                cylinder_bytes,
                                n,
                                cylinders as int,
                            );
                        }
                    },
                    Err(_) => {},
                }
            },
        }
    }
}

/// There is one number of whole cylinders.
proof fn lemma_whole_count_unique(bytes: int, cylinder_bytes: int, a: int, b: int)
    requires
        is_whole_count(bytes, cylinder_bytes, a),
        is_whole_count(bytes, cylinder_bytes, b),
    ensures
        a == b,
{
    assert(a == b) by (nonlinear_arith)
        requires
            a * cylinder_bytes <= bytes < (a + 1) * cylinder_bytes,
            b * cylinder_bytes <= bytes < (b + 1) * cylinder_bytes,
    ;
}

} // verus!
