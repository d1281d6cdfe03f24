use std::collections::BTreeSet;
use vstd::prelude::*;
use vstd::std_specs::iter::IteratorSpec;
use vstd::std_specs::cmp::OrdSpec;

verus! {

use crate::sorted::strictly_increasing;

/// `usize` keys are totally ordered, so `BTreeSet<usize>` behaves as a set.
pub proof fn lemma_usize_ordered()
    ensures
        vstd::laws_cmp::obeys_cmp::<usize>(),
{
    broadcast use vstd::laws_cmp::group_laws_cmp;
}

spec fn ordered_before<K: Ord>(a: K, b: K) -> bool {
    a.cmp_spec(&b) is Less
}

pub fn set_to_sorted_vec(set: &BTreeSet<usize>) -> (res: Vec<usize>)
    ensures
        res@.to_set() == set@,
        res@.no_duplicates(),
        strictly_increasing(res@),
{
    let mut res: Vec<usize> = Vec::new();
    let ghost keys = vstd::std_specs::btree::spec_btree_keys_iter(set).remaining();
    for x in it: set.iter()
        invariant
            it.seq() == keys,
            res.len() == it.index(),
            forall|k: int| 0 <= k < it.index() ==> res[k] == *keys[k],
    {
        res.push(*x);
    }
    proof {
        assert(res@ =~= keys.unref());
        assert(keys.unref().to_set() == set@);
        broadcast use vstd::laws_cmp::group_laws_cmp, vstd::std_specs::btree::group_btree_axioms;
        assert(vstd::laws_cmp::obeys_cmp::<&usize>());
        assert(vstd::std_specs::btree::increasing_seq(keys));
        assert forall|i: int, j: int| 0 <= i < j < res.len() implies res[i] < res[j] by {
            assert(0 <= i < j < keys.len());
            assert(ordered_before(keys[i], keys[j]));
        }
    }
    res
}

} // verus!
