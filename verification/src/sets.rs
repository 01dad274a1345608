//! Set algebra on the executable sets of entity indices.

use std::collections::HashSet;
use vstd::prelude::*;
use vstd::std_specs::hash::{into_iter_hash_keys, spec_hash_keys_iter};

verus! {

broadcast use vstd::std_specs::hash::group_hash_axioms;

/// A fresh set with the members of `a`.
pub fn copy_of(a: &HashSet<usize>) -> (r: HashSet<usize>)
    ensures
        r@ == a@,
{
    let ghost keys = into_iter_hash_keys(spec_hash_keys_iter(a));
    let mut out: HashSet<usize> = HashSet::new();
    for x in it: a.iter()
        invariant
            it.seq().unref() == keys,
            keys.to_set() == a@,
            forall|k: usize|
                out@.contains(k) <==> exists|i: int| 0 <= i < it.index() && keys[i] == k,
    {
        out.insert(*x);
    }
    assert(out@ =~= a@);
    out
}

/// The members of `a` together with those of `b`.
pub fn union(a: &HashSet<usize>, b: &HashSet<usize>) -> (r: HashSet<usize>)
    ensures
        r@ == a@.union(b@),
{
    let ghost keys = into_iter_hash_keys(spec_hash_keys_iter(b));
    let mut out = copy_of(a);
    for x in it: b.iter()
        invariant
            it.seq().unref() == keys,
            keys.to_set() == b@,
            forall|k: usize|
                out@.contains(k) <==> a@.contains(k) || exists|i: int|
                    0 <= i < it.index() && keys[i] == k,
    {
        out.insert(*x);
    }
    assert(out@ =~= a@.union(b@));
    out
}

/// The members of `a` that `b` lacks.
pub fn difference(a: &HashSet<usize>, b: &HashSet<usize>) -> (r: HashSet<usize>)
    ensures
        r@ == a@.difference(b@),
{
    let ghost keys = into_iter_hash_keys(spec_hash_keys_iter(a));
    let mut out: HashSet<usize> = HashSet::new();
    for x in it: a.iter()
        invariant
            it.seq().unref() == keys,
            keys.to_set() == a@,
            forall|k: usize|
                out@.contains(k) <==> !b@.contains(k) && exists|i: int|
                    0 <= i < it.index() && keys[i] == k,
    {
        if !b.contains(x) {
            out.insert(*x);
        }
    }
    assert(out@ =~= a@.difference(b@));
    out
}

/// Whether every member of `a` is one of `b`.
pub fn is_subset(a: &HashSet<usize>, b: &HashSet<usize>) -> (r: bool)
    ensures
        r == a@.subset_of(b@),
{
    let ghost keys = into_iter_hash_keys(spec_hash_keys_iter(a));
    let mut inside = true;
    for x in it: a.iter()
        invariant
            it.seq().unref() == keys,
            keys.to_set() == a@,
            inside == forall|i: int| 0 <= i < it.index() ==> b@.contains(#[trigger] keys[i]),
    {
        if !b.contains(x) {
            inside = false;
        }
    }
    proof {
        if inside {
            assert forall|k: usize| a@.contains(k) implies b@.contains(k) by {
                let i = choose|i: int| 0 <= i < keys.len() && keys[i] == k;
                assert(b@.contains(keys[i]));
            }
        } else {
            let i = choose|i: int| 0 <= i < keys.len() && !b@.contains(#[trigger] keys[i]);
            assert(a@.contains(keys[i]));
        }
    }
    inside
}

/// Whether `a` and `b` have the same members.
pub fn same(a: &HashSet<usize>, b: &HashSet<usize>) -> (r: bool)
    ensures
        r == (a@ == b@),
{
    let r = is_subset(a, b) && is_subset(b, a);
    assert(r == (a@ =~= b@));
    r
}

} // verus!
