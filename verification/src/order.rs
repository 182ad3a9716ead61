//! Sets of numbers, enumerated from the smallest to the largest.
use std::collections::{BTreeMap, BTreeSet};
use vstd::prelude::*;
use vstd::std_specs::cmp::OrdSpec;
use vstd::std_specs::iter::IteratorSpec;

verus! {

/// Whether each element of `s` is smaller than every later one.
pub open spec fn strictly_ascending(s: Seq<u32>) -> bool {
    forall|i: int, j: int| 0 <= i < j < s.len() ==> s[i] < s[j]
}

/// The elements of a finite set, from the smallest to the largest.
pub open spec fn ascending(set: Set<u32>) -> Seq<u32> {
    choose|s: Seq<u32>| strictly_ascending(s) && #[trigger] s.to_set() == set
}

/// Consecutive numbers for the elements of `s`, starting at `first`.
pub open spec fn numbered(s: Seq<u32>, first: nat) -> Map<u32, u32> {
    Map::new(|x: u32| s.contains(x), |x: u32| (first + s.index_of(x)) as u32)
}

/// Every finite set has an ascending enumeration, and it has one entry per element.
pub proof fn lemma_ascending(set: Set<u32>)
    requires
        set.finite(),
    ensures
        strictly_ascending(ascending(set)),
        ascending(set).to_set() == set,
        ascending(set).no_duplicates(),
        ascending(set).len() == set.len(),
{
    let s = lemma_ascending_exists(set);
    assert(strictly_ascending(s) && s.to_set() == set);
    ascending(set).unique_seq_to_set();
}

/// A set has no more than one ascending enumeration.
pub proof fn lemma_ascending_unique(s: Seq<u32>, set: Set<u32>)
    requires
        strictly_ascending(s),
        s.to_set() == set,
    ensures
        s == ascending(set),
{
    lemma_same_elements(s, ascending(set));
}

proof fn lemma_ascending_exists(set: Set<u32>) -> (s: Seq<u32>)
    requires
        set.finite(),
    ensures
        strictly_ascending(s),
        s.to_set() == set,
    decreases set.len(),
{
    if set.len() == 0 {
        let s = Seq::<u32>::empty();
        assert(s.to_set() =~= set);
        s
    } else {
        let x = set.choose();
        let rest = lemma_ascending_exists(set.remove(x));
        let at = lemma_insertion_point(rest, x);
        let s = rest.insert(at, x);
        assert forall|y: u32| set.contains(y) implies s.to_set().contains(y) by {
            if y == x {
                assert(s[at] == y);
            } else {
                assert(rest.to_set().contains(y));
                let i = choose|i: int| 0 <= i < rest.len() && rest[i] == y;
                assert(s[if i < at { i } else { i + 1 }] == y);
            }
        }
        assert forall|y: u32| s.to_set().contains(y) implies set.contains(y) by {
            let i = choose|i: int| 0 <= i < s.len() && s[i] == y;
            if i != at {
                assert(rest.to_set().contains(rest[if i < at { i } else { i - 1 }]));
            }
        }
        assert(s.to_set() =~= set);
        s
    }
}

/// Where a new element goes in an ascending sequence.
proof fn lemma_insertion_point(s: Seq<u32>, x: u32) -> (at: int)
    requires
        strictly_ascending(s),
        !s.to_set().contains(x),
    ensures
        0 <= at <= s.len(),
        forall|i: int| 0 <= i < at ==> s[i] < x,
        forall|i: int| at <= i < s.len() ==> x < s[i],
    decreases s.len(),
{
    if s.len() == 0 || s.last() < x {
        s.len() as int
    } else {
        assert(s.to_set().contains(s.last()));
        assert forall|y: u32| s.drop_last().to_set().contains(y) implies s.to_set().contains(y) by {
            let i = choose|i: int| 0 <= i < s.drop_last().len() && s.drop_last()[i] == y;
            assert(s[i] == y);
        }
        let at = lemma_insertion_point(s.drop_last(), x);
        assert forall|i: int| 0 <= i < at implies s[i] < x by {
            assert(s.drop_last()[i] < x);
        }
        assert forall|i: int| at <= i < s.len() implies x < s[i] by {
            if i < s.len() - 1 {
                assert(x < s.drop_last()[i]);
            }
        }
        at
    }
}

proof fn lemma_same_elements(a: Seq<u32>, b: Seq<u32>)
    requires
        strictly_ascending(a),
        strictly_ascending(b),
        a.to_set() == b.to_set(),
    ensures
        a == b,
    decreases a.len(),
{
    if a.len() == 0 {
        if b.len() > 0 {
            assert(b.to_set().contains(b[0]));
        }
        assert(a =~= b);
    } else {
        assert(a.to_set().contains(a.last()));
        let i = choose|i: int| 0 <= i < b.len() && b[i] == a.last();
        assert(b.to_set().contains(b.last()));
        let j = choose|j: int| 0 <= j < a.len() && a[j] == b.last();
        assert(a.last() == b.last());
        assert forall|y: u32| a.drop_last().to_set().contains(y) == b.drop_last().to_set().contains(
            y,
        ) by {
            assert(a.drop_last().to_set().contains(y) == (a.to_set().contains(y) && y != a.last()))
                by {
                lemma_drop_last_elements(a, y);
            }
            lemma_drop_last_elements(b, y);
        }
        assert(a.drop_last().to_set() =~= b.drop_last().to_set());
        lemma_same_elements(a.drop_last(), b.drop_last());
        assert(a =~= a.drop_last().push(a.last()));
        assert(b =~= b.drop_last().push(b.last()));
    }
}

proof fn lemma_drop_last_elements(s: Seq<u32>, y: u32)
    requires
        strictly_ascending(s),
        s.len() > 0,
    ensures
        s.drop_last().to_set().contains(y) == (s.to_set().contains(y) && y != s.last()),
{
    if s.drop_last().to_set().contains(y) {
        let i = choose|i: int| 0 <= i < s.drop_last().len() && s.drop_last()[i] == y;
        assert(s[i] == y);
    }
    if s.to_set().contains(y) && y != s.last() {
        let i = choose|i: int| 0 <= i < s.len() && s[i] == y;
        assert(s.drop_last()[i] == y);
    }
}

/// What the numbering gives to each element of a sequence without duplicates.
pub proof fn lemma_numbered(s: Seq<u32>, first: nat)
    requires
        s.no_duplicates(),
        first + s.len() <= u32::MAX + 1,
    ensures
        numbered(s, first).dom() == s.to_set(),
        forall|k: int| 0 <= k < s.len() ==> #[trigger] numbered(s, first)[s[k]] == first + k,
{
    assert(numbered(s, first).dom() =~= s.to_set());
    assert forall|k: int| 0 <= k < s.len() implies #[trigger] numbered(s, first)[s[k]] == first
        + k by {
        assert(s.contains(s[k]));
        assert(s.index_of(s[k]) == k);
    }
}

/// The order of `u32` carries over to references.
proof fn lemma_ref_order()
    ensures
        vstd::laws_cmp::obeys_cmp::<&u32>(),
{
    broadcast use vstd::laws_cmp::group_laws_cmp;
    broadcast use vstd::laws_eq::group_laws_eq;

    assert(vstd::laws_cmp::obeys_cmp::<u32>());
    reveal(vstd::laws_eq::obeys_eq_spec_properties);
    reveal(vstd::laws_cmp::obeys_partial_cmp_spec_properties);
    reveal(vstd::laws_cmp::obeys_cmp_partial_ord);
    reveal(vstd::laws_cmp::obeys_cmp_ord);
}

/// Adds an element to a set.
pub(crate) fn add_element(set: &mut BTreeSet<u32>, x: u32)
    ensures
        final(set)@ == old(set)@.insert(x),
{
    broadcast use vstd::laws_cmp::group_laws_cmp;

    set.insert(x);
}

/// Adds an entry to a map.
pub(crate) fn add_entry(map: &mut BTreeMap<u32, u32>, k: u32, v: u32)
    ensures
        final(map)@ == old(map)@.insert(k, v),
{
    broadcast use vstd::laws_cmp::group_laws_cmp;

    map.insert(k, v);
}

/// Whether a map has a key.
pub(crate) fn has_key(map: &BTreeMap<u32, u32>, k: u32) -> (r: bool)
    ensures
        r == map@.contains_key(k),
{
    broadcast use vstd::laws_cmp::group_laws_cmp;

    map.contains_key(&k)
}

/// The value of a key that is known to be there.
pub(crate) fn value_of(map: &BTreeMap<u32, u32>, k: u32) -> (v: u32)
    requires
        map@.contains_key(k),
    ensures
        v == map@[k],
{
    broadcast use vstd::laws_cmp::group_laws_cmp;

    match map.get(&k) {
        Some(v) => *v,
        None => {
            assert(false);
            0
        },
    }
}

/// The value of a key, if it is there.
pub(crate) fn find_value(map: &BTreeMap<u32, u32>, k: u32) -> (r: Option<u32>)
    ensures
        r == (if map@.contains_key(k) {
            Some(map@[k])
        } else {
            None
        }),
{
    broadcast use vstd::laws_cmp::group_laws_cmp;

    match map.get(&k) {
        Some(v) => Some(*v),
        None => None,
    }
}

/// The elements of a set, from the smallest to the largest.
pub(crate) fn elements(set: &BTreeSet<u32>) -> (r: Vec<u32>)
    ensures
        set@.finite(),
        r@ == ascending(set@),
{
    let mut r: Vec<u32> = Vec::new();
    let ghost all = set.iter().remaining();
    for x in it: set.iter()
        invariant
            it.seq() == all,
            r@ == all.unref().take(it.index()),
    {
        r.push(*x);
        proof {
            assert(r@ =~= all.unref().take(it.index() + 1));
        }
    }
    proof {
        assert(r@ =~= all.unref());
        lemma_ref_order();
        assert(vstd::std_specs::btree::increasing_seq(all));
        assert forall|i: int, j: int| 0 <= i < j < r@.len() implies r@[i] < r@[j] by {
            assert(OrdSpec::cmp_spec(&all[i], &all[j]) is Less);
        }
        vstd::seq_lib::seq_to_set_is_finite(r@);
        lemma_ascending_unique(r@, set@);
    }
    r
}

/// The entries of a map, from the smallest key to the largest.
pub(crate) fn entries(map: &BTreeMap<u32, u32>) -> (r: Vec<(u32, u32)>)
    ensures
        r@ == ascending(map@.dom()).map_values(|k: u32| (k, map@[k])),
{
    broadcast use vstd::laws_cmp::group_laws_cmp;

    let mut r: Vec<(u32, u32)> = Vec::new();
    let ghost all = map.iter().remaining();
    for kv in it: map.iter()
        invariant
            it.seq() == all,
            r@.len() == it.index(),
            forall|i: int| 0 <= i < r@.len() ==> #[trigger] r@[i] == (*all[i].0, *all[i].1),
    {
        r.push((*kv.0, *kv.1));
    }
    proof {
        let keys = all.map_values(|kv: (&u32, &u32)| *kv.0);
        assert(vstd::laws_cmp::obeys_cmp::<u32>());
        assert(vstd::std_specs::btree::increasing_seq(keys));
        assert forall|i: int, j: int| 0 <= i < j < keys.len() implies keys[i] < keys[j] by {
            assert(keys[i].cmp_spec(&keys[j]) is Less);
        }
        assert forall|k: u32| map@.dom().contains(k) implies keys.to_set().contains(k) by {
            assert(map@.contains_key(k));
            let i = choose|i: int| 0 <= i < all.len() && all[i] == (&k, &map@[k]);
            assert(keys[i] == k);
        }
        assert forall|k: u32| keys.to_set().contains(k) implies map@.dom().contains(k) by {
            let i = choose|i: int| 0 <= i < keys.len() && keys[i] == k;
            assert(map@.contains_key(*all[i].0));
        }
        assert(keys.to_set() =~= map@.dom());
        lemma_ascending_unique(keys, map@.dom());
        assert forall|i: int| 0 <= i < r@.len() implies #[trigger] r@[i] == (
            keys[i],
            map@[keys[i]],
        ) by {
            assert(map@.contains_key(*all[i].0));
        }
        assert(r@ =~= ascending(map@.dom()).map_values(|k: u32| (k, map@[k])));
    }
    r
}

} // verus!
