//! Sorted, duplicate-free lists of plain values, collected in std's
//! `BTreeSet`, whose iteration visits its elements in increasing order.
use std::collections::BTreeSet;
use vstd::prelude::*;
use vstd::std_specs::iter::IteratorSpec;

use crate::order::{key_set, keys, strictly_sorted};

verus! {

broadcast use vstd::std_specs::btree::group_btree_axioms, vstd::laws_cmp::group_laws_cmp;

/// `u32` and pairs of `u32` are ordered as vstd models `Ord`, so the
/// specifications of `BTreeSet` hold for them.
pub proof fn lemma_plain_keys_ordered()
    ensures
        vstd::laws_cmp::obeys_cmp::<u32>(),
        vstd::laws_cmp::obeys_cmp::<(u32, u32)>(),
        vstd::std_specs::btree::key_obeys_cmp_spec::<u32>(),
        vstd::std_specs::btree::key_obeys_cmp_spec::<(u32, u32)>(),
{
    assert(vstd::laws_cmp::obeys_cmp::<u32>());
    assert(vstd::laws_cmp::obeys_cmp::<(u32, u32)>());
}

proof fn lemma_increasing_numbers(keys: Seq<&u32>)
    requires
        vstd::std_specs::btree::increasing_seq(keys),
    ensures
        forall|a: int, b: int| 0 <= a < b < keys.len() ==> *keys[a] < *keys[b],
{
    assert(vstd::laws_cmp::obeys_cmp::<u32>());
    assert(vstd::laws_cmp::obeys_cmp::<&u32>());
    assert forall|a: int, b: int| 0 <= a < b < keys.len() implies *keys[a] < *keys[b] by {
        assert(vstd::std_specs::cmp::OrdSpec::cmp_spec(&keys[a], &keys[b]) is Less);
    }
}

proof fn lemma_increasing_pairs(keys: Seq<&(u32, u32)>)
    requires
        vstd::std_specs::btree::increasing_seq(keys),
    ensures
        forall|a: int, b: int|
            0 <= a < b < keys.len() ==> keys[a].0 < keys[b].0 || (keys[a].0 == keys[b].0
                && keys[a].1 < keys[b].1),
{
    assert(vstd::laws_cmp::obeys_cmp::<(u32, u32)>());
    assert(vstd::laws_cmp::obeys_cmp::<&(u32, u32)>());
    assert forall|a: int, b: int| 0 <= a < b < keys.len() implies keys[a].0 < keys[b].0 || (
    keys[a].0 == keys[b].0 && keys[a].1 < keys[b].1) by {
        assert(vstd::std_specs::cmp::OrdSpec::cmp_spec(&keys[a], &keys[b]) is Less);
    }
}

/// The elements of a set of numbers, in increasing order.
pub fn sorted_numbers(set: &BTreeSet<u32>) -> (r: Vec<u32>)
    ensures
        strictly_sorted(r@),
        key_set(r@) == set@,
{
    proof {
        lemma_plain_keys_ordered();
    }
    let mut out: Vec<u32> = Vec::new();
    for x in it: set.iter()
        invariant
            out@ == it.seq().take(it.index()).map_values(|r: &u32| *r),
            it.seq() == vstd::std_specs::btree::spec_btree_keys_iter(set).remaining(),
    {
        out.push(*x);
        assert(out@ =~= it.seq().take(it.index() + 1).map_values(|r: &u32| *r));
    }
    let ghost ks = vstd::std_specs::btree::spec_btree_keys_iter(set).remaining();
    assert(out@ =~= ks.map_values(|r: &u32| *r));
    assert(ks.unref() =~= ks.map_values(|r: &u32| *r));
    assert(keys(out@) =~= out@);
    assert(key_set(out@) =~= set@);
    proof {
        lemma_increasing_numbers(ks);
    }
    out
}

/// The elements of a set of pairs of numbers, ordered by the first number,
/// then by the second.
pub fn sorted_pairs(set: &BTreeSet<(u32, u32)>) -> (r: Vec<(u32, u32)>)
    ensures
        strictly_sorted(r@),
        key_set(r@) == set@,
{
    proof {
        lemma_plain_keys_ordered();
    }
    let mut out: Vec<(u32, u32)> = Vec::new();
    for x in it: set.iter()
        invariant
            out@ == it.seq().take(it.index()).map_values(|r: &(u32, u32)| *r),
            it.seq() == vstd::std_specs::btree::spec_btree_keys_iter(set).remaining(),
    {
        out.push(*x);
        assert(out@ =~= it.seq().take(it.index() + 1).map_values(|r: &(u32, u32)| *r));
    }
    let ghost ks = vstd::std_specs::btree::spec_btree_keys_iter(set).remaining();
    assert(out@ =~= ks.map_values(|r: &(u32, u32)| *r));
    assert(ks.unref() =~= ks.map_values(|r: &(u32, u32)| *r));
    assert(keys(out@) =~= out@);
    assert(key_set(out@) =~= set@);
    proof {
        lemma_increasing_pairs(ks);
    }
    out
}

} // verus!
