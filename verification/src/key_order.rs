//! Facts about the order in which a `BTreeMap` with `usize` keys is walked.

use vstd::prelude::*;
use vstd::std_specs::cmp::OrdSpec;

verus! {

broadcast use vstd::std_specs::btree::group_btree_axioms;

/// The keys that a walk over a `BTreeMap<usize, V>` yields come in strictly increasing order.
pub proof fn lemma_walk_keys_increase<V>(s: Seq<(&usize, &V)>)
    requires
        vstd::std_specs::btree::increasing_seq(s.map_values(|kv: (&usize, &V)| *kv.0)),
    ensures
        forall|i: int, j: int| 0 <= i < j < s.len() ==> *(#[trigger] s[i]).0 < *(#[trigger] s[j]).0,
{
    let keys = s.map_values(|kv: (&usize, &V)| *kv.0);
    assert(vstd::laws_cmp::obeys_cmp::<usize>());
    assert forall|i: int, j: int| 0 <= i < j < s.len() implies *(#[trigger] s[i]).0 < *(#[trigger] s[j]).0 by {
        assert(keys[i] == *s[i].0);
        assert(keys[j] == *s[j].0);
        assert(keys[i].cmp_spec(&keys[j]) is Less);
    }
}

} // verus!
