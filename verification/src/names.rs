//! Drive names: which are accepted, and which are handed out.
use vstd::prelude::*;
use vstd::string::*;
use vstd::utf8::*;

use crate::image::MAX_DRIVE_NAME;
use crate::text;
use crate::text::put_number;

verus! {

/// The name with number `n`.
pub open spec fn dh(n: int) -> Seq<char> {
    "DH"@ + text::decimal(n)
}

/// The name is not empty and fits the `pb_DriveName` field.
pub open spec fn name_fits(name: Seq<char>) -> bool {
    name.len() > 0 && encode_utf8(name).len() <= MAX_DRIVE_NAME
}

/// The names of a list.
pub open spec fn set_of(names: Seq<String>) -> Set<Seq<char>> {
    Set::new(|n: Seq<char>| exists|i: int| 0 <= i < names.len() && (#[trigger] names[i])@ == n)
}

/// `n` is the lowest number from `from` on whose name is not in use.
pub open spec fn is_first_free(used: Set<Seq<char>>, from: int, n: int) -> bool {
    &&& from <= n
    &&& !used.contains(dh(n))
    &&& forall|m: int| from <= m < n ==> used.contains(#[trigger] dh(m))
}

/// The lowest number from `from` on whose name is not in use.
pub open spec fn first_free(used: Set<Seq<char>>, from: int) -> int {
    choose|n: int| is_first_free(used, from, n)
}

/// There is one lowest number.
pub proof fn lemma_first_free(used: Set<Seq<char>>, from: int, n: int)
    requires
        is_first_free(used, from, n),
    ensures
        first_free(used, from) == n,
{
    let c = first_free(used, from);
    assert(is_first_free(used, from, c));
    if c < n {
        assert(used.contains(dh(c)));
    }
    if n < c {
        assert(used.contains(dh(n)));
    }
}

/// A number has at least one digit, and one above nine at least two.
proof fn lemma_decimal_len(n: int)
    requires
        0 <= n,
    ensures
        text::decimal(n).len() >= 1,
        n >= 10 ==> text::decimal(n).len() >= 2,
    decreases n,
{
    if n >= 10 {
        lemma_decimal_len(n / 10);
    }
}

/// Different numbers are written differently.
pub proof fn lemma_decimal_injective(a: int, b: int)
    requires
        0 <= a,
        0 <= b,
        text::decimal(a) == text::decimal(b),
    ensures
        a == b,
    decreases a,
{
    lemma_decimal_len(a);
    lemma_decimal_len(b);
    let s = text::decimal(a);
    let t = text::decimal(b);
    assert(s[s.len() - 1] == t[t.len() - 1]);
    if a < 10 && b < 10 {
        assert(text::digit(a) == text::digit(b));
    } else if a >= 10 && b >= 10 {
        let p = text::decimal(a / 10);
        let q = text::decimal(b / 10);
        assert(p =~= s.drop_last());
        assert(q =~= t.drop_last());
        lemma_decimal_injective(a / 10, b / 10);
        assert(text::digit(a % 10) == text::digit(b % 10));
    }
}

/// Different numbers have different names.
pub proof fn lemma_dh_injective(a: int, b: int)
    requires
        0 <= a,
        0 <= b,
        dh(a) == dh(b),
    ensures
        a == b,
{
    let prefix = "DH"@;
    assert(text::decimal(a) =~= dh(a).skip(prefix.len() as int));
    assert(text::decimal(b) =~= dh(b).skip(prefix.len() as int));
    lemma_decimal_injective(a, b);
}

/// The names of a list in which some places have none.
pub open spec fn names_in(named: Seq<Option<Seq<char>>>) -> Set<Seq<char>> {
    Set::new(|n: Seq<char>| named.contains(Some(n)))
}

/// Place `j` of the list accounts for a number below `below`: it has the name
/// with such a number, or it has none and comes before place `i`.
pub open spec fn accounts(named: Seq<Option<Seq<char>>>, j: int, below: int, i: int) -> bool {
    &&& 0 <= j < named.len()
    &&& match named[j] {
        Some(name) => exists|m: int| 0 <= m < below && name == #[trigger] dh(m),
        None => j < i,
    }
}

/// Each of the numbers below `below` has a place of its own to account for it.
pub open spec fn accounted(
    named: Seq<Option<Seq<char>>>,
    places: Seq<int>,
    below: int,
    i: int,
) -> bool {
    &&& places.len() == below
    &&& places.no_duplicates()
    &&& forall|k: int| 0 <= k < places.len() ==> accounts(named, #[trigger] places[k], below, i)
}

/// No more numbers are accounted for than there are places.
pub proof fn lemma_accounted_bound(
    named: Seq<Option<Seq<char>>>,
    places: Seq<int>,
    below: int,
    i: int,
)
    requires
        accounted(named, places, below, i),
    ensures
        below <= named.len(),
{
    places.unique_seq_to_set();
    let range = vstd::set_lib::set_int_range(0, named.len() as int);
    vstd::set_lib::lemma_int_range(0, named.len() as int);
    assert(places.to_set().subset_of(range)) by {
        assert forall|j: int| places.to_set().contains(j) implies range.contains(j) by {
            let k = choose|k: int| 0 <= k < places.len() && places[k] == j;
            assert(accounts(named, places[k], below, i));
        }
    }
    vstd::set_lib::lemma_len_subset(places.to_set(), range);
}

/// One more place accounts for the next number.
pub proof fn lemma_accounted_push(
    named: Seq<Option<Seq<char>>>,
    places: Seq<int>,
    below: int,
    i: int,
    j: int,
    next_i: int,
)
    requires
        accounted(named, places, below, i),
        i <= next_i,
        0 <= j < named.len(),
        match named[j] {
            Some(name) => name == dh(below),
            None => i <= j < next_i,
        },
    ensures
        accounted(named, places.push(j), below + 1, next_i),
{
    let more = places.push(j);
    assert forall|k: int| 0 <= k < more.len() implies accounts(
        named,
        #[trigger] more[k],
        below + 1,
        next_i,
    ) by {
        if k < places.len() {
            assert(accounts(named, places[k], below, i));
            if let Some(name) = named[places[k]] {
                let m = choose|m: int| 0 <= m < below && name == #[trigger] dh(m);
                assert(0 <= m < below + 1 && name == dh(m));
            }
        } else if let Some(name) = named[j] {
            assert(0 <= below < below + 1 && name == dh(below));
        }
    }
    assert forall|k: int| 0 <= k < places.len() implies places[k] != j by {
        assert(accounts(named, places[k], below, i));
        if let Some(name) = named[places[k]] {
            let m = choose|m: int| 0 <= m < below && name == #[trigger] dh(m);
            if places[k] == j {
                lemma_dh_injective(m, below);
            }
        }
    }
    assert(more.no_duplicates());
}

/// There is a lowest number from `from` on whose name is not in the list, and
/// the numbers below it are accounted for where those below `from` are.
pub proof fn lemma_next_free(
    named: Seq<Option<Seq<char>>>,
    places: Seq<int>,
    from: int,
    i: int,
) -> (r: (int, Seq<int>))
    requires
        accounted(named, places, from, i),
    ensures
        is_first_free(names_in(named), from, r.0),
        accounted(named, r.1, r.0, i),
    decreases named.len() - places.len(),
{
    lemma_accounted_bound(named, places, from, i);
    if names_in(named).contains(dh(from)) {
        let j = choose|j: int| 0 <= j < named.len() && named[j] == Some(dh(from));
        lemma_accounted_push(named, places, from, i, j, i);
        lemma_accounted_bound(named, places.push(j), from + 1, i);
        let (n, all) = lemma_next_free(named, places.push(j), from + 1, i);
        assert forall|m: int| from <= m < n implies names_in(named).contains(#[trigger] dh(m)) by {
            if m > from {
                assert(from + 1 <= m < n);
            }
        }
        (n, all)
    } else {
        (from, places)
    }
}

/// A name with a number of at most twenty digits fits the field.
pub proof fn lemma_dh_fits(n: int)
    requires
        0 <= n <= u64::MAX,
    ensures
        name_fits(dh(n)),
{
    reveal_strlit("DH");
    lemma_decimal_bound(n, 20);
    lemma_decimal_ascii(n);
    assert(is_ascii_chars(dh(n)));
    is_ascii_chars_encode_utf8(dh(n));
}

/// `10` to the power of `digits`.
spec fn power_of_ten(digits: nat) -> int
    decreases digits,
{
    if digits == 0 {
        1
    } else {
        10 * power_of_ten((digits - 1) as nat)
    }
}

/// A number below a power of ten has no more digits than its exponent.
proof fn lemma_decimal_digits(n: int, digits: nat)
    requires
        0 <= n < power_of_ten(digits),
        digits > 0,
    ensures
        text::decimal(n).len() <= digits,
    decreases digits,
{
    if n >= 10 {
        assert(digits > 1) by {
            if digits == 1 {
                assert(power_of_ten(1) == 10 * power_of_ten(0));
            }
        }
        lemma_decimal_digits(n / 10, (digits - 1) as nat);
    }
}

/// A 64-bit number has at most twenty digits.
proof fn lemma_decimal_bound(n: int, digits: nat)
    requires
        0 <= n <= u64::MAX,
        digits == 20,
    ensures
        text::decimal(n).len() <= digits,
{
    reveal_with_fuel(power_of_ten, 21);
    lemma_decimal_digits(n, digits);
}

/// Digits are ASCII.
proof fn lemma_decimal_ascii(n: int)
    requires
        0 <= n,
    ensures
        is_ascii_chars(text::decimal(n)),
    decreases n,
{
    if n >= 10 {
        lemma_decimal_ascii(n / 10);
    }
}

/// Whether a name is in the list.
pub fn contains_name(names: &Vec<String>, name: &String) -> (found: bool)
    ensures
        found == set_of(names@).contains(name@),
{
    let mut i: usize = 0;
    while i < names.len()
        invariant
            i <= names.len(),
            forall|j: int| 0 <= j < i ==> (#[trigger] names@[j])@ != name@,
        decreases names.len() - i,
    {
        if names[i] == *name {
            return true;
        }
        i += 1;
    }
    false
}

/// Whether `name` is not empty and fits the `pb_DriveName` field.
pub fn drive_name_fits(name: &str) -> (ok: bool)
    ensures
        ok == name_fits(name@),
{
    let bytes: &[u8] = name.as_bytes();
    assert(bytes@.len() == bytes.len());
    !name.is_empty() && bytes.len() <= MAX_DRIVE_NAME
}

/// The name with number `n`.
pub fn dh_name(n: u64) -> (name: String)
    ensures
        name@ == dh(n as int),
{
    let mut name: String = String::from_str("DH");
    put_number(&mut name, n);
    name
}

/// The lowest number from `from` on whose name is not in the list, which is
/// `free`.
pub(crate) fn find_free(names: &Vec<String>, from: u64, free: Ghost<int>) -> (n: u64)
    requires
        is_first_free(set_of(names@), from as int, free@),
        free@ <= u64::MAX,
    ensures
        n == free@,
{
    let mut n: u64 = from;
    loop
        invariant
            from <= n <= free@,
            is_first_free(set_of(names@), from as int, free@),
            free@ <= u64::MAX,
        decreases free@ - n,
    {
        let candidate: String = dh_name(n);
        if !contains_name(names, &candidate) {
            return n;
        }
        n += 1;
    }
}

} // verus!
