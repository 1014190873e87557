//! Reading the means of a grouping in order.

use std::collections::BTreeMap;
use vstd::prelude::*;
use vstd::std_specs::cmp::OrdSpec;
use vstd::std_specs::iter::IteratorSpec;

verus! {

/// The keys of `by_mean`, each once, smallest first.
pub(crate) fn ascending_means(by_mean: &BTreeMap<u64, Vec<String>>) -> (means: Vec<u64>)
    ensures
        means@.to_set() =~= by_mean@.dom(),
        forall|i: int, j: int| 0 <= i < j < means.len() ==> means[i] < means[j],
{
    let mut means: Vec<u64> = Vec::new();
    for mean in walk: by_mean.keys()
        invariant
            means@.len() == walk.index(),
            forall|i: int| 0 <= i < means.len() ==> means[i] == *walk.seq()[i],
            walk.seq() == by_mean.keys().remaining(),
    {
        means.push(*mean);
    }
    proof {
        broadcast use vstd::laws_cmp::group_laws_cmp;

        let keys = by_mean.keys().remaining();
        assert(means@ =~= keys.unref());
        assert(vstd::laws_cmp::obeys_cmp::<&u64>());
        assert(vstd::std_specs::btree::increasing_seq(keys));
        assert forall|i: int, j: int| 0 <= i < j < means.len() implies means[i] < means[j] by {
            assert((&keys[i]).cmp_spec(&keys[j]) is Less);
        }
    }
    means
}

} // verus!
