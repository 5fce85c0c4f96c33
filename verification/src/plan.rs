//! Where the blocks of an edited table go.
//!
//! A structure keeps the block it was found on where that block is inside the
//! RDB area and its chain pointers do not change; every other structure takes
//! the lowest block that neither the old layout nor the new one uses, or, where
//! none is left, the lowest that the old layout is vacating.
use std::collections::{BTreeMap, BTreeSet};
use vstd::prelude::*;

use crate::bytes::CHAIN_END;

verus! {

/// Where one block of the published layout pointed when it was read.
#[derive(Debug, Clone, Copy, PartialEq, Eq, Structural)]
pub struct OriginalLinks {
    /// The block this describes.
    pub lba: u64,
    /// Its chain pointer.
    pub next: u32,
    /// For a `FSHD`, the head of its driver chain; [`CHAIN_END`] for every
    /// other block.
    pub seg_list: u32,
}

/// One structure of the new layout, in a list of them all.
#[derive(Debug, Clone, Copy, PartialEq, Eq, Structural)]
pub struct Slot {
    /// Where it was found.
    pub lba: u64,
    /// The structure its chain pointer is to lead to.
    pub next: Option<usize>,
    /// For a `FSHD`, the structure its driver chain is to start with.
    pub seg: Option<usize>,
    /// Whether it is a `FSHD`.
    pub is_fshd: bool,
}

/// The blocks a commit may write, and the one among them that stays put.
#[derive(Debug, Clone, Copy, PartialEq, Eq, Structural)]
pub struct Area {
    /// First block of the RDB area.
    pub lo: u64,
    /// Its last block, inclusive.
    pub hi: u64,
    /// Where the `RDSK` block is.
    pub rdsk: u64,
}

impl Area {
    /// The block is inside the area.
    pub open spec fn holds(self, b: u64) -> bool {
        self.lo <= b <= self.hi
    }

    /// How many blocks the area has.
    pub open spec fn size(self) -> int {
        self.hi - self.lo + 1
    }

    /// How many blocks of the area `n` structures and the `RDSK` need.
    pub open spec fn needed(self, n: nat) -> int {
        if self.rdsk >= self.lo {
            n as int + 1
        } else {
            n as int
        }
    }
}

/// The layout to be planned makes sense: the area is not inverted and reaches
/// up to the `RDSK`, and no two structures were found on one block of it.
pub open spec fn plannable(slots: Seq<Slot>, area: Area) -> bool {
    &&& area.lo <= area.hi
    &&& area.rdsk <= area.hi
    &&& forall|i: int|
        0 <= i < slots.len() && area.holds((#[trigger] slots[i]).lba) ==> slots[i].lba != area.rdsk
    &&& forall|i: int, j: int|
        0 <= i < j < slots.len() && area.holds((#[trigger] slots[i]).lba) ==> slots[i].lba != (
        #[trigger] slots[j]).lba
    &&& forall|i: int|
        #![trigger slots[i]]
        0 <= i < slots.len() ==> {
            &&& slots[i].next matches Some(k) ==> k < slots.len()
            &&& slots[i].seg matches Some(k) ==> k < slots.len()
        }
}

/// Structure `i` stays where it was found.
pub open spec fn keeps(slots: Seq<Slot>, area: Area, relocate: Seq<bool>, i: int) -> bool {
    !relocate[i] && area.holds(slots[i].lba)
}

/// Block `b` is in use when structure `i` is placed: by the `RDSK`, by a
/// structure that stays, or by one that was placed before.
pub open spec fn is_taken(
    slots: Seq<Slot>,
    area: Area,
    relocate: Seq<bool>,
    assigned: Seq<u64>,
    i: int,
    b: u64,
) -> bool {
    b == area.rdsk || exists|j: int|
        0 <= j < slots.len() && (j < i || keeps(slots, area, relocate, j)) && #[trigger] assigned[j]
            == b
}

/// The blocks in use when structure `i` is placed.
pub open spec fn taken_before(
    slots: Seq<Slot>,
    area: Area,
    relocate: Seq<bool>,
    assigned: Seq<u64>,
    i: int,
) -> Set<u64> {
    Set::new(|b: u64| is_taken(slots, area, relocate, assigned, i, b))
}

/// A block of the area is in use by neither layout.
pub open spec fn is_fresh(
    area: Area,
    original: Map<u64, OriginalLinks>,
    taken: Set<u64>,
    b: u64,
) -> bool {
    area.holds(b) && !taken.contains(b) && !original.contains_key(b)
}

/// `b` is the block a structure with nowhere to go takes: the lowest that
/// neither layout uses, or, where there is none, the lowest not in use.
pub open spec fn is_pick(
    area: Area,
    original: Map<u64, OriginalLinks>,
    taken: Set<u64>,
    b: u64,
) -> bool {
    &&& area.holds(b)
    &&& !taken.contains(b)
    &&& if exists|c: u64| is_fresh(area, original, taken, c) {
        &&& is_fresh(area, original, taken, b)
        &&& forall|c: u64| area.lo <= c < b ==> !#[trigger] is_fresh(area, original, taken, c)
    } else {
        forall|c: u64| area.lo <= c < b ==> #[trigger] taken.contains(c)
    }
}

/// `assigned` says where each structure goes when those in `relocate` may not
/// stay.
pub open spec fn is_assignment(
    slots: Seq<Slot>,
    area: Area,
    original: Map<u64, OriginalLinks>,
    relocate: Seq<bool>,
    assigned: Seq<u64>,
) -> bool {
    &&& assigned.len() == slots.len()
    &&& forall|i: int|
        0 <= i < slots.len() ==> if keeps(slots, area, relocate, i) {
            #[trigger] assigned[i] == slots[i].lba
        } else {
            is_pick(
                area,
                original,
                taken_before(slots, area, relocate, assigned, i),
                assigned[i],
            )
        }
}

/// The pointer to a structure.
pub open spec fn pointer(assigned: Seq<u64>, slot: Option<usize>) -> u32 {
    match slot {
        Some(k) => assigned[k as int] as u32,
        None => CHAIN_END,
    }
}

/// Structure `i` would be rewritten where the published table has it, with
/// other pointers than the published table reads there.
pub open spec fn splices(
    slots: Seq<Slot>,
    original: Map<u64, OriginalLinks>,
    assigned: Seq<u64>,
    i: int,
) -> bool {
    &&& assigned[i] == slots[i].lba
    &&& original.contains_key(assigned[i])
    &&& original[assigned[i]].next != pointer(assigned, slots[i].next)
        || original[assigned[i]].seg_list != pointer(assigned, slots[i].seg)
}

/// The structures that may not stay, once those that would splice the new table
/// into the old one have been added.
pub open spec fn more_relocated(
    slots: Seq<Slot>,
    original: Map<u64, OriginalLinks>,
    relocate: Seq<bool>,
    assigned: Seq<u64>,
) -> Seq<bool> {
    Seq::new(slots.len(), |i: int| relocate[i] || splices(slots, original, assigned, i))
}

/// Where each structure goes when those in `relocate` may not stay.
pub open spec fn assignment(
    slots: Seq<Slot>,
    area: Area,
    original: Map<u64, OriginalLinks>,
    relocate: Seq<bool>,
) -> Seq<u64> {
    choose|a: Seq<u64>| is_assignment(slots, area, original, relocate, a)
}

/// The structures that may not stay after `k` rounds: moving one changes what
/// its predecessor must point at, so the rule runs back along the chains.
pub open spec fn relocated(
    slots: Seq<Slot>,
    area: Area,
    original: Map<u64, OriginalLinks>,
    k: nat,
) -> Seq<bool>
    decreases k,
{
    if k == 0 {
        Seq::new(slots.len(), |i: int| false)
    } else {
        let before = relocated(slots, area, original, (k - 1) as nat);
        more_relocated(slots, original, before, assignment(slots, area, original, before))
    }
}

/// Round `k` adds nothing, and `assigned` is its assignment.
pub open spec fn settles_at(
    slots: Seq<Slot>,
    area: Area,
    original: Map<u64, OriginalLinks>,
    assigned: Seq<u64>,
    k: nat,
) -> bool {
    let relocate = relocated(slots, area, original, k);
    &&& is_assignment(slots, area, original, relocate, assigned)
    &&& more_relocated(slots, original, relocate, assigned) == relocate
}

/// `assigned` is where each structure goes in the end.
pub open spec fn is_settled(
    slots: Seq<Slot>,
    area: Area,
    original: Map<u64, OriginalLinks>,
    assigned: Seq<u64>,
) -> bool {
    exists|k: nat| settles_at(slots, area, original, assigned, k)
}

/// Placing a structure does not change what was in use before it.
proof fn lemma_taken_stable(
    slots: Seq<Slot>,
    area: Area,
    relocate: Seq<bool>,
    a: Seq<u64>,
    b: Seq<u64>,
    i: int,
)
    requires
        a.len() == slots.len(),
        b.len() == slots.len(),
        forall|j: int|
            0 <= j < slots.len() && (j < i || keeps(slots, area, relocate, j)) ==> a[j] == b[j],
    ensures
        taken_before(slots, area, relocate, a, i) == taken_before(slots, area, relocate, b, i),
{
    assert forall|c: u64|
        is_taken(slots, area, relocate, a, i, c) == is_taken(
            slots,
            area,
            relocate,
            b,
            i,
            c,
        ) by {
        if is_taken(slots, area, relocate, a, i, c) && c != area.rdsk {
            let j = choose|j: int|
                0 <= j < slots.len() && (j < i || keeps(slots, area, relocate, j))
                    && #[trigger] a[j] == c;
            assert(b[j] == c);
        }
        if is_taken(slots, area, relocate, b, i, c) && c != area.rdsk {
            let j = choose|j: int|
                0 <= j < slots.len() && (j < i || keeps(slots, area, relocate, j))
                    && #[trigger] b[j] == c;
            assert(a[j] == c);
        }
    }
    assert(taken_before(slots, area, relocate, a, i) =~= taken_before(
        slots,
        area,
        relocate,
        b,
        i,
    ));
}

/// One block is picked.
proof fn lemma_pick_unique(
    area: Area,
    original: Map<u64, OriginalLinks>,
    taken: Set<u64>,
    b: u64,
    c: u64,
)
    requires
        is_pick(area, original, taken, b),
        is_pick(area, original, taken, c),
    ensures
        b == c,
{
    if exists|d: u64| is_fresh(area, original, taken, d) {
        assert(is_fresh(area, original, taken, b));
        assert(is_fresh(area, original, taken, c));
    } else {
        if b < c {
            assert(taken.contains(b));
        }
        if c < b {
            assert(taken.contains(c));
        }
    }
}

/// There is one assignment.
pub proof fn lemma_assignment_unique(
    slots: Seq<Slot>,
    area: Area,
    original: Map<u64, OriginalLinks>,
    relocate: Seq<bool>,
    a: Seq<u64>,
    b: Seq<u64>,
)
    requires
        is_assignment(slots, area, original, relocate, a),
        is_assignment(slots, area, original, relocate, b),
    ensures
        a == b,
{
    lemma_assignment_prefix(slots, area, original, relocate, a, b, slots.len() as int);
    assert(a =~= b);
}

/// Two assignments agree on the first `n` structures.
proof fn lemma_assignment_prefix(
    slots: Seq<Slot>,
    area: Area,
    original: Map<u64, OriginalLinks>,
    relocate: Seq<bool>,
    a: Seq<u64>,
    b: Seq<u64>,
    n: int,
)
    requires
        is_assignment(slots, area, original, relocate, a),
        is_assignment(slots, area, original, relocate, b),
        0 <= n <= slots.len(),
    ensures
        forall|i: int| 0 <= i < n ==> a[i] == b[i],
    decreases n,
{
    if n > 0 {
        lemma_assignment_prefix(slots, area, original, relocate, a, b, n - 1);
        assert forall|j: int|
            0 <= j < slots.len() && (j < n - 1 || keeps(slots, area, relocate, j)) implies a[j]
            == b[j] by {
            if keeps(slots, area, relocate, j) {
                assert(a[j] == slots[j].lba);
                assert(b[j] == slots[j].lba);
            }
        }
        lemma_taken_stable(slots, area, relocate, a, b, n - 1);
        assert(a[n - 1] == a[n - 1]);
        if !keeps(slots, area, relocate, n - 1) {
            lemma_pick_unique(
                area,
                original,
                taken_before(slots, area, relocate, a, n - 1),
                a[n - 1],
                b[n - 1],
            );
        }
    }
}

/// No two structures go to one block, none goes where the `RDSK` is, and all
/// stay inside the area.
pub proof fn lemma_assignment_distinct(
    slots: Seq<Slot>,
    area: Area,
    original: Map<u64, OriginalLinks>,
    relocate: Seq<bool>,
    assigned: Seq<u64>,
)
    requires
        plannable(slots, area),
        is_assignment(slots, area, original, relocate, assigned),
    ensures
        assigned.no_duplicates(),
        forall|i: int|
            0 <= i < assigned.len() ==> #[trigger] assigned[i] != area.rdsk && area.holds(
                assigned[i],
            ),
{
    assert forall|i: int| 0 <= i < assigned.len() implies #[trigger] assigned[i] != area.rdsk
        && area.holds(assigned[i]) by {
        if !keeps(slots, area, relocate, i) {
            let taken = taken_before(slots, area, relocate, assigned, i);
            assert(is_pick(area, original, taken, assigned[i]));
            if assigned[i] == area.rdsk {
                assert(taken.contains(assigned[i]));
            }
        }
    }
    assert forall|i: int, j: int|
        0 <= i < assigned.len() && 0 <= j < assigned.len() && i != j implies assigned[i]
        != assigned[j] by {
        let (a, b) = if i < j {
            (i, j)
        } else {
            (j, i)
        };
        lemma_two_distinct(slots, area, original, relocate, assigned, a, b);
    }
}

/// The blocks of two structures differ.
proof fn lemma_two_distinct(
    slots: Seq<Slot>,
    area: Area,
    original: Map<u64, OriginalLinks>,
    relocate: Seq<bool>,
    assigned: Seq<u64>,
    a: int,
    b: int,
)
    requires
        plannable(slots, area),
        is_assignment(slots, area, original, relocate, assigned),
        0 <= a < b < slots.len(),
    ensures
        assigned[a] != assigned[b],
{
    let ka = keeps(slots, area, relocate, a);
    let kb = keeps(slots, area, relocate, b);
    if kb {
        assert(assigned[b] == slots[b].lba);
        if ka {
            assert(assigned[a] == slots[a].lba);
            assert(slots[a].lba != slots[b].lba);
        } else {
            let taken = taken_before(slots, area, relocate, assigned, a);
            assert(is_pick(area, original, taken, assigned[a]));
            if assigned[a] == assigned[b] {
                assert(is_taken(slots, area, relocate, assigned, a, assigned[b]));
            }
        }
    } else {
        let taken = taken_before(slots, area, relocate, assigned, b);
        assert(is_pick(area, original, taken, assigned[b]));
        if assigned[a] == assigned[b] {
            assert(is_taken(slots, area, relocate, assigned, b, assigned[a]));
        }
    }
}

/// What fits the area needs no more blocks than it has.
pub proof fn lemma_assignment_fits(
    slots: Seq<Slot>,
    area: Area,
    original: Map<u64, OriginalLinks>,
    relocate: Seq<bool>,
    assigned: Seq<u64>,
)
    requires
        plannable(slots, area),
        is_assignment(slots, area, original, relocate, assigned),
    ensures
        area.needed(slots.len()) <= area.size(),
{
    lemma_assignment_distinct(slots, area, original, relocate, assigned);
    let blocks = Seq::new(assigned.len(), |i: int| assigned[i] as int);
    let used = if area.rdsk >= area.lo {
        blocks.push(area.rdsk as int)
    } else {
        blocks
    };
    assert(used.no_duplicates());
    used.unique_seq_to_set();
    let range = vstd::set_lib::set_int_range(area.lo as int, area.hi + 1);
    vstd::set_lib::lemma_int_range(area.lo as int, area.hi + 1);
    assert(used.to_set().subset_of(range)) by {
        assert forall|b: int| used.to_set().contains(b) implies range.contains(b) by {
            let k = choose|k: int| 0 <= k < used.len() && used[k] == b;
            if k < assigned.len() {
                assert(area.holds(assigned[k]));
            }
        }
    }
    vstd::set_lib::lemma_len_subset(used.to_set(), range);
}

/// An area that is full before structure `i` is placed is too small.
proof fn lemma_area_too_small(
    slots: Seq<Slot>,
    area: Area,
    relocate: Seq<bool>,
    assigned: Seq<u64>,
    i: int,
)
    requires
        area.lo <= area.hi,
        assigned.len() == slots.len(),
        0 <= i < slots.len(),
        !keeps(slots, area, relocate, i),
        forall|b: u64| area.holds(b) ==> #[trigger] is_taken(slots, area, relocate, assigned, i, b),
    ensures
        area.needed(slots.len()) > area.size(),
{
    let others = assigned.remove(i);
    let blocks = Seq::new(others.len(), |k: int| others[k] as int);
    let used = if area.rdsk >= area.lo {
        blocks.push(area.rdsk as int)
    } else {
        blocks
    };
    let range = vstd::set_lib::set_int_range(area.lo as int, area.hi + 1);
    vstd::set_lib::lemma_int_range(area.lo as int, area.hi + 1);
    assert(range.subset_of(used.to_set())) by {
        assert forall|b: int| range.contains(b) implies used.to_set().contains(b) by {
            let c = b as u64;
            assert(area.holds(c));
            assert(is_taken(slots, area, relocate, assigned, i, c));
            if c == area.rdsk {
                assert(used[used.len() - 1] == b);
            } else {
                let j = choose|j: int|
                    0 <= j < slots.len() && (j < i || keeps(slots, area, relocate, j))
                        && #[trigger] assigned[j] == c;
                assert(j != i);
                let k = if j < i {
                    j
                } else {
                    j - 1
                };
                assert(others[k] == assigned[j]);
                assert(used[k] == b);
            }
        }
    }
    used.lemma_cardinality_of_set();
    vstd::set_lib::lemma_len_subset(range, used.to_set());
}

/// The lowest block from `lo` on of which `p` holds.
proof fn lemma_lowest(lo: u64, b: u64, p: spec_fn(u64) -> bool) -> (c: u64)
    requires
        lo <= b,
        p(b),
    ensures
        lo <= c <= b,
        p(c),
        forall|d: u64| lo <= d < c ==> !#[trigger] p(d),
    decreases b - lo,
{
    if p(lo) {
        lo
    } else {
        lemma_lowest((lo + 1) as u64, b, p)
    }
}

/// Where a block of the area is not in use, there is one to take.
proof fn lemma_pick_exists(
    area: Area,
    original: Map<u64, OriginalLinks>,
    taken: Set<u64>,
    free: u64,
) -> (b: u64)
    requires
        area.holds(free),
        !taken.contains(free),
    ensures
        is_pick(area, original, taken, b),
{
    if exists|c: u64| is_fresh(area, original, taken, c) {
        let c = choose|c: u64| is_fresh(area, original, taken, c);
        let p = |d: u64| is_fresh(area, original, taken, d);
        let b = lemma_lowest(area.lo, c, p);
        assert forall|d: u64| area.lo <= d < b implies !#[trigger] is_fresh(
            area,
            original,
            taken,
            d,
        ) by {
            assert(!p(d));
        }
        b
    } else {
        let p = |d: u64| !taken.contains(d);
        let b = lemma_lowest(area.lo, free, p);
        assert forall|d: u64| area.lo <= d < b implies #[trigger] taken.contains(d) by {
            assert(!p(d));
        }
        b
    }
}

/// The first `n` structures can be placed.
proof fn lemma_first_placed(
    slots: Seq<Slot>,
    area: Area,
    original: Map<u64, OriginalLinks>,
    relocate: Seq<bool>,
    n: nat,
) -> (a: Seq<u64>)
    requires
        area.lo <= area.hi,
        area.needed(slots.len()) <= area.size(),
        n <= slots.len(),
    ensures
        a.len() == slots.len(),
        forall|j: int|
            0 <= j < slots.len() && keeps(slots, area, relocate, j) ==> #[trigger] a[j]
                == slots[j].lba,
        forall|j: int|
            0 <= j < n && !keeps(slots, area, relocate, j) ==> is_pick(
                area,
                original,
                taken_before(slots, area, relocate, a, j),
                #[trigger] a[j],
            ),
    decreases n,
{
    if n == 0 {
        Seq::new(slots.len(), |j: int| slots[j].lba)
    } else {
        let i = n - 1;
        let before = lemma_first_placed(slots, area, original, relocate, i as nat);
        if keeps(slots, area, relocate, i) {
            before
        } else {
            let taken = taken_before(slots, area, relocate, before, i);
            if forall|b: u64|
                area.holds(b) ==> #[trigger] is_taken(slots, area, relocate, before, i, b) {
                lemma_area_too_small(slots, area, relocate, before, i);
            }
            let free = choose|b: u64|
                area.holds(b) && !#[trigger] is_taken(slots, area, relocate, before, i, b);
            let b = lemma_pick_exists(area, original, taken, free);
            let a = before.update(i, b);
            assert forall|j: int| 0 <= j < n && !keeps(slots, area, relocate, j) implies is_pick(
                area,
                original,
                taken_before(slots, area, relocate, a, j),
                #[trigger] a[j],
            ) by {
                lemma_taken_stable(slots, area, relocate, before, a, j);
                assert(j < i ==> a[j] == before[j]);
            }
            a
        }
    }
}

/// Where there is room for them all, every structure can be placed.
pub proof fn lemma_assignment_exists(
    slots: Seq<Slot>,
    area: Area,
    original: Map<u64, OriginalLinks>,
    relocate: Seq<bool>,
)
    requires
        area.lo <= area.hi,
        area.needed(slots.len()) <= area.size(),
    ensures
        is_assignment(
            slots,
            area,
            original,
            relocate,
            assignment(slots, area, original, relocate),
        ),
{
    let a = lemma_first_placed(slots, area, original, relocate, slots.len());
    assert(is_assignment(slots, area, original, relocate, a));
}

/// Once a round adds nothing, no later one does.
proof fn lemma_rounds_stay(
    slots: Seq<Slot>,
    area: Area,
    original: Map<u64, OriginalLinks>,
    assigned: Seq<u64>,
    k: nat,
    n: nat,
)
    requires
        settles_at(slots, area, original, assigned, k),
        k <= n,
    ensures
        relocated(slots, area, original, n) == relocated(slots, area, original, k),
    decreases n,
{
    if k < n {
        lemma_rounds_stay(slots, area, original, assigned, k, (n - 1) as nat);
        let relocate = relocated(slots, area, original, k);
        assert(is_assignment(
            slots,
            area,
            original,
            relocate,
            assignment(slots, area, original, relocate),
        ));
        lemma_assignment_unique(
            slots,
            area,
            original,
            relocate,
            assigned,
            assignment(slots, area, original, relocate),
        );
    }
}

/// There is one layout in the end.
pub proof fn lemma_settled_unique(
    slots: Seq<Slot>,
    area: Area,
    original: Map<u64, OriginalLinks>,
    a: Seq<u64>,
    b: Seq<u64>,
)
    requires
        is_settled(slots, area, original, a),
        is_settled(slots, area, original, b),
    ensures
        a == b,
{
    let k = choose|k: nat| settles_at(slots, area, original, a, k);
    let n = choose|n: nat| settles_at(slots, area, original, b, n);
    if k <= n {
        lemma_rounds_stay(slots, area, original, a, k, n);
    } else {
        lemma_rounds_stay(slots, area, original, b, n, k);
    }
    lemma_assignment_unique(slots, area, original, relocated(slots, area, original, k), a, b);
}

/// How many of the first `n` structures may stay.
spec fn staying(relocate: Seq<bool>, n: nat) -> nat
    decreases n,
{
    if n == 0 {
        0
    } else if relocate[n - 1] {
        staying(relocate, (n - 1) as nat)
    } else {
        staying(relocate, (n - 1) as nat) + 1
    }
}

/// Where more may not stay, fewer do.
proof fn lemma_fewer_stay(a: Seq<bool>, b: Seq<bool>, n: nat)
    requires
        a.len() == b.len(),
        n <= a.len(),
        forall|i: int| 0 <= i < a.len() && a[i] ==> b[i],
    ensures
        staying(b, n) <= staying(a, n),
        (exists|i: int| 0 <= i < n && !a[i] && b[i]) ==> staying(b, n) < staying(a, n),
    decreases n,
{
    if n > 0 {
        lemma_fewer_stay(a, b, (n - 1) as nat);
        if exists|i: int| 0 <= i < n && !a[i] && b[i] {
            let i = choose|i: int| 0 <= i < n && !a[i] && b[i];
            if i < n - 1 {
                assert(!a[i] && b[i]);
            }
        }
    }
}

/// A block that neither layout uses, from `from` on; past the area's end where
/// there is none.
fn next_fresh(
    area: Area,
    original: &BTreeMap<u64, OriginalLinks>,
    taken: &BTreeSet<u64>,
    from: u64,
) -> (b: u64)
    requires
        area.lo <= from <= area.hi + 1,
        area.hi < u64::MAX,
        forall|c: u64| area.lo <= c < from ==> !#[trigger] is_fresh(area, original@, taken@, c),
    ensures
        from <= b <= area.hi + 1,
        b <= area.hi ==> is_fresh(area, original@, taken@, b),
        forall|c: u64| area.lo <= c < b ==> !#[trigger] is_fresh(area, original@, taken@, c),
{
    let mut b: u64 = from;
    while b <= area.hi && (taken.contains(&b) || original.contains_key(&b))
        invariant
            area.lo <= from <= b <= area.hi + 1,
            area.hi < u64::MAX,
            forall|c: u64| area.lo <= c < b ==> !#[trigger] is_fresh(area, original@, taken@, c),
        decreases area.hi + 1 - b,
    {
        b += 1;
    }
    b
}

/// A block not in use, from `from` on; past the area's end where there is none.
fn next_free(area: Area, taken: &BTreeSet<u64>, from: u64) -> (b: u64)
    requires
        area.lo <= from <= area.hi + 1,
        area.hi < u64::MAX,
        forall|c: u64| area.lo <= c < from ==> #[trigger] taken@.contains(c),
    ensures
        from <= b <= area.hi + 1,
        b <= area.hi ==> !taken@.contains(b),
        forall|c: u64| area.lo <= c < b ==> #[trigger] taken@.contains(c),
{
    let mut b: u64 = from;
    while b <= area.hi && taken.contains(&b)
        invariant
            area.lo <= from <= b <= area.hi + 1,
            area.hi < u64::MAX,
            forall|c: u64| area.lo <= c < b ==> #[trigger] taken@.contains(c),
        decreases area.hi + 1 - b,
    {
        b += 1;
    }
    b
}

/// The structures that stay, where they stay, and the blocks they and the
/// `RDSK` use.
fn keep_in_place(slots: &Vec<Slot>, area: Area, relocate: &Vec<bool>) -> (r: (
    Vec<u64>,
    BTreeSet<u64>,
))
    requires
        relocate@.len() == slots@.len(),
    ensures
        r.0@.len() == slots@.len(),
        forall|i: int|
            0 <= i < slots@.len() && keeps(slots@, area, relocate@, i) ==> #[trigger] r.0@[i]
                == slots@[i].lba,
        r.1@ == taken_before(slots@, area, relocate@, r.0@, 0),
{
    let mut assigned: Vec<u64> = Vec::new();
    let mut taken: BTreeSet<u64> = BTreeSet::new();
    taken.insert(area.rdsk);
    let mut i: usize = 0;
    while i < slots.len()
        invariant
            i <= slots.len(),
            relocate@.len() == slots@.len(),
            assigned@.len() == i,
            forall|j: int|
                0 <= j < i && keeps(slots@, area, relocate@, j) ==> #[trigger] assigned@[j]
                    == slots@[j].lba,
            forall|b: u64| #[trigger]
                taken@.contains(b) <==> b == area.rdsk || exists|j: int|
                    0 <= j < i && keeps(slots@, area, relocate@, j) && #[trigger] assigned@[j] == b,
        decreases slots.len() - i,
    {
        let lba: u64 = slots[i].lba;
        let ghost was = taken@;
        let ghost before = assigned@;
        if !relocate[i] && area.lo <= lba && lba <= area.hi {
            assigned.push(lba);
            taken.insert(lba);
        } else {
            assigned.push(0);
        }
        proof {
            assert forall|b: u64| #[trigger]
                taken@.contains(b) <==> b == area.rdsk || exists|j: int|
                    0 <= j < i + 1 && keeps(slots@, area, relocate@, j) && #[trigger] assigned@[j]
                        == b by {
                if was.contains(b) && b != area.rdsk {
                    let j = choose|j: int|
                        0 <= j < i && keeps(slots@, area, relocate@, j) && #[trigger] before[j]
                            == b;
                    assert(assigned@[j] == b);
                }
                if b != area.rdsk && exists|j: int|
                    0 <= j < i + 1 && keeps(slots@, area, relocate@, j) && #[trigger] assigned@[j]
                        == b {
                    let j = choose|j: int|
                        0 <= j < i + 1 && keeps(slots@, area, relocate@, j)
                            && #[trigger] assigned@[j] == b;
                    if j < i {
                        assert(before[j] == b);
                    }
                }
                if keeps(slots@, area, relocate@, i as int) && b == lba {
                    assert(assigned@[i as int] == b);
                }
            }
        }
        i += 1;
    }
    assert(taken@ =~= taken_before(slots@, area, relocate@, assigned@, 0));
    (assigned, taken)
}

/// Where each structure goes when those in `relocate` may not stay; `None`
/// where the area is too small for them all.
fn assign(
    slots: &Vec<Slot>,
    area: Area,
    original: &BTreeMap<u64, OriginalLinks>,
    relocate: &Vec<bool>,
) -> (r: Option<Vec<u64>>)
    requires
        plannable(slots@, area),
        area.hi < u64::MAX,
        relocate@.len() == slots@.len(),
    ensures
        match r {
            Some(assigned) => is_assignment(
                slots@,
                area,
                original@,
                relocate@,
                assigned@,
            ) && area.needed(slots@.len()) <= area.size(),
            None => area.needed(slots@.len()) > area.size(),
        },
{
    let (mut assigned, mut taken) = keep_in_place(slots, area, relocate);
    let mut fresh: u64 = area.lo;
    let mut vacated: u64 = area.lo;
    let mut i: usize = 0;
    while i < slots.len()
        invariant
            i <= slots.len(),
            area.lo <= area.hi < u64::MAX,
            relocate@.len() == slots@.len(),
            assigned@.len() == slots@.len(),
            area.lo <= fresh <= area.hi + 1,
            area.lo <= vacated <= area.hi + 1,
            taken@ == taken_before(slots@, area, relocate@, assigned@, i as int),
            forall|c: u64|
                area.lo <= c < fresh ==> !#[trigger] is_fresh(area, original@, taken@, c),
            forall|c: u64| area.lo <= c < vacated ==> #[trigger] taken@.contains(c),
            forall|j: int|
                0 <= j < slots@.len() && keeps(slots@, area, relocate@, j)
                    ==> #[trigger] assigned@[j] == slots@[j].lba,
            forall|j: int|
                0 <= j < i && !keeps(slots@, area, relocate@, j) ==> is_pick(
                    area,
                    original@,
                    taken_before(slots@, area, relocate@, assigned@, j),
                    #[trigger] assigned@[j],
                ),
        decreases slots.len() - i,
    {
        let lba: u64 = slots[i].lba;
        let ghost before = assigned@;
        let ghost was = taken@;
        if !relocate[i] && area.lo <= lba && lba <= area.hi {
            assert(keeps(slots@, area, relocate@, i as int));
            assert(assigned@[i as int] == lba);
        } else {
            fresh = next_fresh(area, original, &taken, fresh);
            let b: u64 = if fresh <= area.hi {
                fresh
            } else {
                vacated = next_free(area, &taken, vacated);
                if vacated > area.hi {
                    proof {
                        assert forall|b: u64| area.holds(b) implies #[trigger] is_taken(
                            slots@,
                            area,
                            relocate@,
                            assigned@,
                            i as int,
                            b,
                        ) by {
                            assert(taken@.contains(b));
                        }
                        lemma_area_too_small(slots@, area, relocate@, assigned@, i as int);
                    }
                    return None;
                }
                vacated
            };
            assert(is_pick(area, original@, was, b));
            assigned.set(i, b);
            taken.insert(b);
        }
        proof {
            assert forall|j: int| 0 <= j <= i implies taken_before(
                slots@,
                area,
                relocate@,
                assigned@,
                j,
            ) == #[trigger] taken_before(slots@, area, relocate@, before, j) by {
                lemma_taken_stable(slots@, area, relocate@, assigned@, before, j);
            }
            assert(taken_before(slots@, area, relocate@, before, i as int) == was);
            assert forall|j: int|
                0 <= j < i + 1 && !keeps(slots@, area, relocate@, j) implies is_pick(
                area,
                original@,
                taken_before(slots@, area, relocate@, assigned@, j),
                #[trigger] assigned@[j],
            ) by {
                assert(taken_before(slots@, area, relocate@, assigned@, j) == taken_before(
                    slots@,
                    area,
                    relocate@,
                    before,
                    j,
                ));
                if j < i {
                    assert(assigned@[j] == before[j]);
                }
            }
            assert forall|c: u64|
                is_taken(slots@, area, relocate@, assigned@, i + 1, c) <==> is_taken(
                    slots@,
                    area,
                    relocate@,
                    before,
                    i as int,
                    c,
                ) || c == assigned@[i as int] by {
                lemma_taken_next(slots@, area, relocate@, assigned@, before, i as int, c);
            }
            assert(taken@ =~= taken_before(slots@, area, relocate@, assigned@, i + 1));
            assert forall|c: u64| area.lo <= c < fresh implies !#[trigger] is_fresh(
                area,
                original@,
                taken@,
                c,
            ) by {
                assert(!is_fresh(area, original@, was, c));
            }
        }
        i += 1;
    }
    proof {
        lemma_assignment_fits(slots@, area, original@, relocate@, assigned@);
    }
    Some(assigned)
}

/// After structure `i` is placed, its block is in use too.
proof fn lemma_taken_next(
    slots: Seq<Slot>,
    area: Area,
    relocate: Seq<bool>,
    after: Seq<u64>,
    before: Seq<u64>,
    i: int,
    c: u64,
)
    requires
        0 <= i < slots.len(),
        after.len() == slots.len(),
        before.len() == slots.len(),
        forall|j: int| 0 <= j < slots.len() && j != i ==> after[j] == before[j],
        keeps(slots, area, relocate, i) ==> after[i] == before[i],
    ensures
        is_taken(slots, area, relocate, after, i + 1, c) <==> is_taken(
            slots,
            area,
            relocate,
            before,
            i,
            c,
        ) || c == after[i],
{
    if is_taken(slots, area, relocate, after, i + 1, c) && c != area.rdsk {
        let j = choose|j: int|
            0 <= j < slots.len() && (j < i + 1 || keeps(slots, area, relocate, j))
                && #[trigger] after[j] == c;
        if j != i {
            assert(before[j] == c);
        }
    }
    if is_taken(slots, area, relocate, before, i, c) && c != area.rdsk {
        let j = choose|j: int|
            0 <= j < slots.len() && (j < i || keeps(slots, area, relocate, j))
                && #[trigger] before[j] == c;
        assert(after[j] == c);
    }
    if c == after[i] {
        assert(after[i] == c);
    }
}

/// The pointer to a structure.
pub fn pointer_to(assigned: &Vec<u64>, slot: Option<usize>) -> (r: u32)
    requires
        slot matches Some(k) ==> k < assigned@.len(),
    ensures
        r == pointer(assigned@, slot),
{
    match slot {
        Some(k) => assigned[k] as u32,
        None => CHAIN_END,
    }
}

/// The structures that may not stay, once those that would splice the new table
/// into the old one have been added.
fn add_splicing(
    slots: &Vec<Slot>,
    original: &BTreeMap<u64, OriginalLinks>,
    relocate: &Vec<bool>,
    assigned: &Vec<u64>,
    area: Ghost<Area>,
) -> (r: (Vec<bool>, bool))
    requires
        plannable(slots@, area@),
        relocate@.len() == slots@.len(),
        assigned@.len() == slots@.len(),
    ensures
        r.0@ == more_relocated(slots@, original@, relocate@, assigned@),
        r.1 <==> r.0@ != relocate@,
        r.1 ==> exists|i: int| 0 <= i < slots@.len() && !relocate@[i] && r.0@[i],
{
    let mut more: Vec<bool> = Vec::new();
    let mut changed: bool = false;
    let mut i: usize = 0;
    while i < slots.len()
        invariant
            i <= slots.len(),
            plannable(slots@, area@),
            relocate@.len() == slots@.len(),
            assigned@.len() == slots@.len(),
            more@ =~= more_relocated(slots@, original@, relocate@, assigned@).take(i as int),
            changed ==> exists|j: int| 0 <= j < i && !relocate@[j] && more@[j],
            !changed ==> more@ =~= relocate@.take(i as int),
        decreases slots.len() - i,
    {
        let ghost so_far = more@;
        let slot = slots[i];
        assert(slots@[i as int] == slot);
        let mut splice: bool = false;
        if assigned[i] == slot.lba {
            if let Some(old) = original.get(&assigned[i]) {
                splice = old.next != pointer_to(assigned, slot.next) || old.seg_list != pointer_to(
                    assigned,
                    slot.seg,
                );
            }
        }
        assert(splice == splices(slots@, original@, assigned@, i as int));
        more.push(relocate[i] || splice);
        let ghost was = changed;
        if splice && !relocate[i] {
            changed = true;
        }
        proof {
            if changed {
                if was {
                    let j = choose|j: int| 0 <= j < i && !relocate@[j] && so_far[j];
                    assert(!relocate@[j] && more@[j]);
                } else {
                    assert(!relocate@[i as int] && more@[i as int]);
                }
            }
        }
        i += 1;
    }
    proof {
        assert(more@ =~= more_relocated(slots@, original@, relocate@, assigned@));
        if !changed {
            assert(more@ =~= relocate@);
        } else {
            let j = choose|j: int| 0 <= j < slots@.len() && !relocate@[j] && more@[j];
            assert(more@[j] != relocate@[j]);
        }
    }
    (more, changed)
}

/// Where each structure goes; `None` where the area is too small for them all.
pub fn settle(slots: &Vec<Slot>, area: Area, original: &BTreeMap<u64, OriginalLinks>) -> (r: Option<
    Vec<u64>,
>)
    requires
        plannable(slots@, area),
        area.hi < u64::MAX,
    ensures
        match r {
            Some(assigned) => is_settled(slots@, area, original@, assigned@) && area.needed(
                slots@.len(),
            ) <= area.size(),
            None => area.needed(slots@.len()) > area.size(),
        },
{
    let mut relocate: Vec<bool> = vec![false; slots.len()];
    let ghost mut k: nat = 0;
    assert(relocate@ =~= relocated(slots@, area, original@, 0));
    loop
        invariant
            plannable(slots@, area),
            area.hi < u64::MAX,
            relocate@.len() == slots@.len(),
            relocate@ == relocated(slots@, area, original@, k),
        decreases staying(relocate@, slots@.len()),
    {
        let assigned = match assign(slots, area, original, &relocate) {
            Some(assigned) => assigned,
            None => {
                return None;
            },
        };
        let (more, changed) = add_splicing(slots, original, &relocate, &assigned, Ghost(area));
        if !changed {
            assert(settles_at(slots@, area, original@, assigned@, k));
            return Some(assigned);
        }
        proof {
            let a = assignment(slots@, area, original@, relocate@);
            assert(is_assignment(slots@, area, original@, relocate@, a));
            lemma_assignment_unique(slots@, area, original@, relocate@, assigned@, a);
            lemma_fewer_stay(relocate@, more@, slots@.len());
            k = k + 1;
        }
        relocate = more;
    }
}

/// Block `b` is in use by the new layout.
pub open spec fn is_used(area: Area, assigned: Seq<u64>, b: u64) -> bool {
    b == area.rdsk || assigned.contains(b)
}

/// The highest block the new layout uses.
pub open spec fn highest(area: Area, assigned: Seq<u64>) -> u64
    decreases assigned.len(),
{
    if assigned.len() == 0 {
        area.rdsk
    } else {
        let before = highest(area, assigned.drop_last());
        if assigned.last() > before {
            assigned.last()
        } else {
            before
        }
    }
}

/// The highest block the new layout uses.
pub fn highest_used(area: Area, assigned: &Vec<u64>) -> (h: u64)
    ensures
        h == highest(area, assigned@),
{
    let mut h: u64 = area.rdsk;
    let mut i: usize = 0;
    while i < assigned.len()
        invariant
            i <= assigned.len(),
            h == highest(area, assigned@.take(i as int)),
        decreases assigned.len() - i,
    {
        assert(assigned@.take(i + 1).drop_last() =~= assigned@.take(i as int));
        if assigned[i] > h {
            h = assigned[i];
        }
        i += 1;
    }
    assert(assigned@.take(assigned@.len() as int) =~= assigned@);
    h
}

/// The highest block is one of those in use, and none of them is above it.
pub proof fn lemma_highest(area: Area, assigned: Seq<u64>)
    ensures
        is_used(area, assigned, highest(area, assigned)),
        forall|b: u64| #[trigger] is_used(area, assigned, b) ==> b <= highest(area, assigned),
    decreases assigned.len(),
{
    if assigned.len() > 0 {
        let rest = assigned.drop_last();
        lemma_highest(area, rest);
        assert(assigned[assigned.len() - 1] == assigned.last());
        assert forall|b: u64| #[trigger] is_used(area, assigned, b) implies b <= highest(
            area,
            assigned,
        ) by {
            if b != area.rdsk {
                let j = choose|j: int| 0 <= j < assigned.len() && assigned[j] == b;
                if j < rest.len() {
                    assert(rest[j] == b);
                    assert(is_used(area, rest, b));
                }
            } else {
                assert(is_used(area, rest, b));
            }
        }
        if highest(area, assigned) != assigned.last() {
            let h = highest(area, rest);
            if h != area.rdsk {
                let j = choose|j: int| 0 <= j < rest.len() && rest[j] == h;
                assert(assigned[j] == h);
            }
        }
    }
}

/// `zeroed` lists, in ascending order, the blocks of the area that the old
/// layout used and the new one does not.
pub open spec fn is_zeroed(
    area: Area,
    original: Map<u64, OriginalLinks>,
    assigned: Seq<u64>,
    zeroed: Seq<u64>,
) -> bool {
    &&& forall|i: int, j: int| 0 <= i < j < zeroed.len() ==> zeroed[i] < zeroed[j]
    &&& forall|b: u64| #[trigger]
        zeroed.contains(b) <==> area.holds(b) && original.contains_key(b) && !is_used(
            area,
            assigned,
            b,
        )
}

/// Ascending lists of the same blocks start alike.
proof fn lemma_ascending_prefix(a: Seq<u64>, b: Seq<u64>, k: int)
    requires
        0 <= k <= a.len(),
        forall|i: int, j: int| 0 <= i < j < a.len() ==> a[i] < a[j],
        forall|i: int, j: int| 0 <= i < j < b.len() ==> b[i] < b[j],
        forall|x: u64| #[trigger] a.contains(x) <==> b.contains(x),
    ensures
        k <= b.len(),
        forall|i: int| 0 <= i < k ==> #[trigger] a[i] == b[i],
    decreases k,
{
    if k > 0 {
        lemma_ascending_prefix(a, b, k - 1);
        assert(a.contains(a[k - 1]));
        let j = choose|j: int| 0 <= j < b.len() && b[j] == a[k - 1];
        if j < k - 1 {
            assert(a[j] == b[j]);
        }
        assert(b.contains(b[k - 1]));
        assert(a.contains(b[k - 1]));
        let i = choose|i: int| 0 <= i < a.len() && a[i] == b[k - 1];
        if i < k - 1 {
            assert(a[i] == b[i]);
        }
    }
}

/// There is one ascending list of the blocks to be zeroed.
pub proof fn lemma_zeroed_unique(
    area: Area,
    original: Map<u64, OriginalLinks>,
    assigned: Seq<u64>,
    a: Seq<u64>,
    b: Seq<u64>,
)
    requires
        is_zeroed(area, original, assigned, a),
        is_zeroed(area, original, assigned, b),
    ensures
        a == b,
{
    assert forall|x: u64| #[trigger] a.contains(x) <==> b.contains(x) by {}
    assert forall|x: u64| #[trigger] b.contains(x) <==> a.contains(x) by {}
    lemma_ascending_prefix(a, b, a.len() as int);
    lemma_ascending_prefix(b, a, b.len() as int);
    assert(a =~= b);
}

/// The keys of `original`, in ascending order.
fn sorted_keys(original: &BTreeMap<u64, OriginalLinks>) -> (r: Vec<u64>)
    ensures
        forall|i: int, j: int| 0 <= i < j < r@.len() ==> r@[i] < r@[j],
        forall|k: u64| #[trigger] r@.contains(k) <==> original@.contains_key(k),
{
    let mut r: Vec<u64> = Vec::new();
    let entries = original.iter();
    let ghost s = vstd::std_specs::iter::IteratorSpec::remaining(&entries);
    let ghost keys = s.map_values(|kv: (&u64, &OriginalLinks)| *kv.0);
    assert forall|i: int, j: int| 0 <= i < j < keys.len() implies keys[i] < keys[j] by {
        assert(vstd::laws_cmp::obeys_cmp::<u64>());
        assert(vstd::std_specs::btree::increasing_seq(keys));
        assert(vstd::std_specs::cmp::OrdSpec::cmp_spec(&keys[i], &keys[j]) is Less);
    }
    for kv in it: entries
        invariant
            it.seq() == s,
            keys == s.map_values(|kv: (&u64, &OriginalLinks)| *kv.0),
            r@ == keys.take(it.index()),
    {
        r.push(*kv.0);
        assert(r@ =~= keys.take(it.index() + 1));
    }
    assert(r@ =~= keys);
    assert forall|k: u64| #[trigger] r@.contains(k) <==> original@.contains_key(k) by {
        if original@.contains_key(k) {
            assert(s.contains((&k, &original@[k])));
            let i = choose|i: int| 0 <= i < s.len() && s[i] == (&k, &original@[k]);
            assert(r@[i] == k);
        }
        if r@.contains(k) {
            let i = choose|i: int| 0 <= i < r@.len() && r@[i] == k;
            assert(original@.contains_key(*s[i].0));
        }
    }
    r
}

/// The blocks of the area that the old layout used and the new one does not, in
/// ascending order.
pub fn blocks_to_zero(
    area: Area,
    original: &BTreeMap<u64, OriginalLinks>,
    assigned: &Vec<u64>,
) -> (zeroed: Vec<u64>)
    ensures
        is_zeroed(area, original@, assigned@, zeroed@),
{
    let mut used: BTreeSet<u64> = BTreeSet::new();
    used.insert(area.rdsk);
    let mut i: usize = 0;
    while i < assigned.len()
        invariant
            i <= assigned.len(),
            forall|b: u64| #[trigger]
                used@.contains(b) <==> is_used(area, assigned@.take(i as int), b),
        decreases assigned.len() - i,
    {
        let ghost before = assigned@.take(i as int);
        let ghost after = assigned@.take(i + 1);
        let ghost was = used@;
        used.insert(assigned[i]);
        proof {
            assert(after =~= before.push(assigned@[i as int]));
            assert forall|b: u64| #[trigger] used@.contains(b) <==> is_used(area, after, b) by {
                if before.contains(b) {
                    let j = choose|j: int| 0 <= j < before.len() && before[j] == b;
                    assert(after[j] == b);
                }
                if after.contains(b) {
                    let j = choose|j: int| 0 <= j < after.len() && after[j] == b;
                    if j < i {
                        assert(before[j] == b);
                    }
                }
                assert(after[i as int] == assigned@[i as int]);
                assert(was.contains(b) <==> is_used(area, before, b));
            }
        }
        i += 1;
    }
    assert(assigned@.take(assigned@.len() as int) =~= assigned@);
    let keys = sorted_keys(original);
    let mut zeroed: Vec<u64> = Vec::new();
    let mut k: usize = 0;
    while k < keys.len()
        invariant
            k <= keys.len(),
            forall|b: u64| #[trigger] used@.contains(b) <==> is_used(area, assigned@, b),
            forall|i: int, j: int| 0 <= i < j < keys@.len() ==> keys@[i] < keys@[j],
            forall|i: int, j: int| 0 <= i < j < zeroed@.len() ==> zeroed@[i] < zeroed@[j],
            forall|j: int, n: int|
                0 <= j < zeroed@.len() && k <= n < keys@.len() ==> zeroed@[j] < keys@[n],
            forall|b: u64| #[trigger]
                zeroed@.contains(b) <==> keys@.take(k as int).contains(b) && area.holds(b)
                    && !is_used(area, assigned@, b),
        decreases keys.len() - k,
    {
        let b: u64 = keys[k];
        let ghost before = keys@.take(k as int);
        let ghost after = keys@.take(k + 1);
        let ghost list = zeroed@;
        if area.lo <= b && b <= area.hi && !used.contains(&b) {
            zeroed.push(b);
        }
        proof {
            assert(after =~= before.push(b));
            assert forall|c: u64| #[trigger]
                zeroed@.contains(c) <==> after.contains(c) && area.holds(c) && !is_used(
                    area,
                    assigned@,
                    c,
                ) by {
                assert(list.contains(c) <==> before.contains(c) && area.holds(c) && !is_used(
                    area,
                    assigned@,
                    c,
                ));
                assert(used@.contains(b) <==> is_used(area, assigned@, b));
                if before.contains(c) {
                    let j = choose|j: int| 0 <= j < before.len() && before[j] == c;
                    assert(after[j] == c);
                }
                if after.contains(c) && c != b {
                    let j = choose|j: int| 0 <= j < after.len() && after[j] == c;
                    assert(before[j] == c);
                }
                assert(after[k as int] == b);
                if list.contains(c) {
                    let j = choose|j: int| 0 <= j < list.len() && list[j] == c;
                    assert(zeroed@[j] == c);
                }
                if zeroed@.contains(c) && c != b {
                    let j = choose|j: int| 0 <= j < zeroed@.len() && zeroed@[j] == c;
                    assert(list[j] == c);
                }
                if zeroed@.len() > list.len() {
                    assert(zeroed@[list.len() as int] == b);
                }
            }
        }
        k += 1;
    }
    assert(keys@.take(keys@.len() as int) =~= keys@);
    zeroed
}

} // verus!
