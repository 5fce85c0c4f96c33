//! Sorting extents by where they start.
use vstd::prelude::*;
use vstd::seq_lib::*;

verus! {

/// An extent's start and end, and the position it came from.
pub type Extent = (u64, u64, usize);

/// `a` comes no later than `b`: by start, then by end, then by position.
pub open spec fn no_later(a: Extent, b: Extent) -> bool {
    a.0 < b.0 || a.0 == b.0 && (a.1 < b.1 || a.1 == b.1 && a.2 <= b.2)
}

/// `s` is in order.
pub open spec fn sorted(s: Seq<Extent>) -> bool {
    forall|i: int, j: int| 0 <= i <= j < s.len() ==> no_later(#[trigger] s[i], #[trigger] s[j])
}

/// Does `a` come no later than `b`?
fn comes_no_later(a: Extent, b: Extent) -> (r: bool)
    ensures
        r == no_later(a, b),
{
    a.0 < b.0 || a.0 == b.0 && (a.1 < b.1 || a.1 == b.1 && a.2 <= b.2)
}

/// Merge two sorted lists.
fn merge(a: Vec<Extent>, b: Vec<Extent>) -> (r: Vec<Extent>)
    requires
        sorted(a@),
        sorted(b@),
    ensures
        sorted(r@),
        r@.to_multiset() == a@.to_multiset().add(b@.to_multiset()),
{
    broadcast use group_to_multiset_ensures;

    let mut out: Vec<Extent> = Vec::new();
    let mut i: usize = 0;
    let mut j: usize = 0;
    assert(a@.take(0) =~= Seq::<Extent>::empty());
    assert(b@.take(0) =~= Seq::<Extent>::empty());
    assert(out@.to_multiset() =~= a@.take(0).to_multiset().add(b@.take(0).to_multiset()));
    while i < a.len() || j < b.len()
        invariant
            i <= a.len(),
            j <= b.len(),
            sorted(a@),
            sorted(b@),
            sorted(out@),
            out@.to_multiset() == a@.take(i as int).to_multiset().add(
                b@.take(j as int).to_multiset(),
            ),
            forall|k: int, l: int|
                0 <= k < out@.len() && i <= l < a@.len() ==> no_later(
                    #[trigger] out@[k],
                    #[trigger] a@[l],
                ),
            forall|k: int, l: int|
                0 <= k < out@.len() && j <= l < b@.len() ==> no_later(
                    #[trigger] out@[k],
                    #[trigger] b@[l],
                ),
        decreases a.len() - i + b.len() - j,
    {
        broadcast use group_to_multiset_ensures;

        let from_a: bool = if i >= a.len() {
            false
        } else if j >= b.len() {
            true
        } else {
            comes_no_later(a[i], b[j])
        };
        let ghost before = out@;
        if from_a {
            out.push(a[i]);
            assert(a@.take(i + 1) =~= a@.take(i as int).push(a@[i as int]));
            assert(out@.to_multiset() =~= a@.take(i + 1).to_multiset().add(
                b@.take(j as int).to_multiset(),
            ));
            i += 1;
        } else {
            out.push(b[j]);
            assert(b@.take(j + 1) =~= b@.take(j as int).push(b@[j as int]));
            assert(out@.to_multiset() =~= a@.take(i as int).to_multiset().add(
                b@.take(j + 1).to_multiset(),
            ));
            j += 1;
        }
    }
    assert(a@.take(a@.len() as int) =~= a@);
    assert(b@.take(b@.len() as int) =~= b@);
    out
}

/// The extents in order.
pub fn sort_extents(v: Vec<Extent>) -> (r: Vec<Extent>)
    ensures
        sorted(r@),
        r@.to_multiset() == v@.to_multiset(),
    decreases v@.len(),
{
    let n: usize = v.len();
    if n <= 1 {
        return v;
    }
    let ghost all = v@;
    let mut left = v;
    let right = left.split_off(n / 2);
    proof {
        lemma_multiset_commutative(left@, right@);
        assert(left@ + right@ =~= all);
    }
    merge(sort_extents(left), sort_extents(right))
}

/// Sorting extents that carry their own positions gives each of them once.
pub proof fn lemma_sorted_positions(v: Seq<Extent>, r: Seq<Extent>)
    requires
        forall|i: int| 0 <= i < v.len() ==> (#[trigger] v[i]).2 == i,
        r.to_multiset() == v.to_multiset(),
    ensures
        r.len() == v.len(),
        forall|k: int| 0 <= k < r.len() ==> (#[trigger] r[k]).2 < v.len() && r[k] == v[r[k].2 as int],
        forall|k: int, l: int|
            0 <= k < r.len() && 0 <= l < r.len() && k != l ==> (#[trigger] r[k]).2 != (
            #[trigger] r[l]).2,
        forall|i: int| 0 <= i < v.len() ==> #[trigger] r.contains(v[i]),
{
    broadcast use group_to_multiset_ensures;

    assert(v.no_duplicates()) by {
        assert forall|i: int, j: int| 0 <= i < v.len() && 0 <= j < v.len() && i != j implies v[i]
            != v[j] by {
            assert(v[i].2 == i && v[j].2 == j);
        }
    }
    v.lemma_multiset_has_no_duplicates();
    assert(r.len() == r.to_multiset().len());
    assert(v.len() == v.to_multiset().len());
    assert forall|k: int| 0 <= k < r.len() implies (#[trigger] r[k]).2 < v.len() && r[k]
        == v[r[k].2 as int] by {
        assert(r.contains(r[k]));
        assert(r.to_multiset().count(r[k]) > 0);
        assert(v.contains(r[k]));
        let i = choose|i: int| 0 <= i < v.len() && v[i] == r[k];
        assert(v[i].2 == i);
    }
    assert(r.no_duplicates()) by {
        r.lemma_multiset_has_no_duplicates_conv();
    }
    assert forall|i: int| 0 <= i < v.len() implies #[trigger] r.contains(v[i]) by {
        assert(v.contains(v[i]));
        assert(v.to_multiset().count(v[i]) > 0);
    }
}

/// Lists with the same multiset have the same items.
pub proof fn lemma_same_items(v: Seq<Extent>, r: Seq<Extent>)
    requires
        r.to_multiset() == v.to_multiset(),
    ensures
        forall|x: Extent| #[trigger] v.contains(x) <==> r.contains(x),
{
    broadcast use group_to_multiset_ensures;

    assert forall|x: Extent| #[trigger] v.contains(x) <==> r.contains(x) by {
        assert(v.contains(x) <==> v.to_multiset().count(x) > 0);
        assert(r.contains(x) <==> r.to_multiset().count(x) > 0);
    }
}

} // verus!
