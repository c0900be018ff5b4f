//! Set operations on `HashSet<u32>`, each with its result stated over the sets' views.
use vstd::prelude::*;
use std::collections::HashSet;
use vstd::std_specs::iter::IteratorSpec;

verus! {

broadcast use vstd::std_specs::hash::group_hash_axioms;

/// Whether every element of `a` belongs to `b`.
pub fn is_subset(a: &HashSet<u32>, b: &HashSet<u32>) -> (r: bool)
    ensures
        r == a@.subset_of(b@),
{
    let ghost keys = a.iter().remaining().unref();
    let mut result = true;
    for s in it: a.iter()
        invariant
            it.seq().unref() == keys,
            keys.to_set() == a@,
            result == (forall|j: int| 0 <= j < it.index() ==> b@.contains(keys[j])),
    {
        if !b.contains(s) {
            result = false;
        }
    }
    proof {
        if result {
            assert forall|e: u32| a@.contains(e) implies b@.contains(e) by {
                assert(keys.contains(e));
            }
        } else {
            let j = choose|j: int| 0 <= j < keys.len() && !b@.contains(keys[j]);
            assert(a@.contains(keys[j]));
        }
    }
    result
}

/// Whether `a` and `b` have no element in common.
pub fn is_disjoint(a: &HashSet<u32>, b: &HashSet<u32>) -> (r: bool)
    ensures
        r == a@.disjoint(b@),
{
    let ghost keys = a.iter().remaining().unref();
    let mut result = true;
    for s in it: a.iter()
        invariant
            it.seq().unref() == keys,
            keys.to_set() == a@,
            result == (forall|j: int| 0 <= j < it.index() ==> !b@.contains(keys[j])),
    {
        if b.contains(s) {
            result = false;
        }
    }
    proof {
        if result {
            assert forall|e: u32| a@.contains(e) implies !b@.contains(e) by {
                assert(keys.contains(e));
            }
        } else {
            let j = choose|j: int| 0 <= j < keys.len() && b@.contains(keys[j]);
            assert(a@.contains(keys[j]));
        }
    }
    result
}

/// A fresh set with the elements of `a`.
pub fn copy_of(a: &HashSet<u32>) -> (r: HashSet<u32>)
    ensures
        r@ == a@,
{
    let ghost keys = a.iter().remaining().unref();
    let mut result: HashSet<u32> = HashSet::new();
    for s in it: a.iter()
        invariant
            it.seq().unref() == keys,
            keys.to_set() == a@,
            result@ == keys.take(it.index()).to_set(),
    {
        result.insert(*s);
        proof {
            let i = it.index();
            assert(keys.take(i + 1) == keys.take(i).push(keys[i]));
            keys.take(i).lemma_push_to_set_commute(keys[i]);
        }
    }
    proof {
        assert(keys.take(keys.len() as int) == keys);
    }
    result
}

/// The elements of `a` whose membership in `b` is `in_b`: the intersection of `a` and `b`
/// when `in_b` holds, their difference otherwise.
pub fn filter_by(a: &HashSet<u32>, b: &HashSet<u32>, in_b: bool) -> (r: HashSet<u32>)
    ensures
        r@ == a@.filter(|e: u32| b@.contains(e) == in_b),
{
    let ghost keys = a.iter().remaining().unref();
    let ghost keep = |e: u32| b@.contains(e) == in_b;
    let mut result: HashSet<u32> = HashSet::new();
    for s in it: a.iter()
        invariant
            it.seq().unref() == keys,
            keys.to_set() == a@,
            keep == (|e: u32| b@.contains(e) == in_b),
            result@ == keys.take(it.index()).to_set().filter(keep),
    {
        proof {
            let i = it.index();
            assert(keys.take(i + 1) == keys.take(i).push(keys[i]));
            keys.take(i).lemma_push_to_set_commute(keys[i]);
        }
        if b.contains(s) == in_b {
            result.insert(*s);
        }
        proof {
            let i = it.index();
            assert(result@ =~= keys.take(i + 1).to_set().filter(keep));
        }
    }
    proof {
        assert(keys.take(keys.len() as int) == keys);
    }
    result
}

/// The intersection of `a` and `b`.
pub fn intersection(a: &HashSet<u32>, b: &HashSet<u32>) -> (r: HashSet<u32>)
    ensures
        r@ == a@.intersect(b@),
{
    let r = filter_by(a, b, true);
    assert(r@ =~= a@.intersect(b@));
    r
}

/// The elements of `a` that are not in `b`.
pub fn difference(a: &HashSet<u32>, b: &HashSet<u32>) -> (r: HashSet<u32>)
    ensures
        r@ == a@.difference(b@),
{
    let r = filter_by(a, b, false);
    assert(r@ =~= a@.difference(b@));
    r
}

/// Adds every element of `b` to `a`.
pub fn extend_with(a: &mut HashSet<u32>, b: &HashSet<u32>)
    ensures
        final(a)@ == old(a)@.union(b@),
{
    let ghost keys = b.iter().remaining().unref();
    let ghost start = a@;
    for s in it: b.iter()
        invariant
            it.seq().unref() == keys,
            keys.to_set() == b@,
            a@ == start.union(keys.take(it.index()).to_set()),
    {
        proof {
            let i = it.index();
            assert(keys.take(i + 1) == keys.take(i).push(keys[i]));
            keys.take(i).lemma_push_to_set_commute(keys[i]);
        }
        a.insert(*s);
        proof {
            let i = it.index();
            assert(a@ =~= start.union(keys.take(i + 1).to_set()));
        }
    }
    proof {
        assert(keys.take(keys.len() as int) == keys);
    }
}

/// The set holding `x` alone.
pub fn singleton(x: u32) -> (r: HashSet<u32>)
    ensures
        r@ == set![x],
{
    let mut r: HashSet<u32> = HashSet::new();
    r.insert(x);
    assert(r@ =~= set![x]);
    r
}

} // verus!
