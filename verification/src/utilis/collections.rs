//! Walking maps that are keyed by node ids.
use crate::utilis::types::NodeId;
use std::collections::HashMap;
use vstd::prelude::*;

verus! {

broadcast use vstd::std_specs::hash::group_hash_axioms;

/// A sequence that is one element longer holds that element and what it held before.
pub proof fn lemma_push_contains<T>(s: Seq<T>, last: T, t: T)
    ensures
        s.push(last).contains(t) <==> s.contains(t) || t == last,
{
    if s.contains(t) {
        let j = choose|j: int| 0 <= j < s.len() && s[j] == t;
        assert(s.push(last)[j] == t);
    }
    if t == last {
        assert(s.push(last)[s.len() as int] == t);
    }
}

/// The keys of a map, each once, in no particular order.
pub fn map_keys<V>(map: &HashMap<NodeId, V>) -> (keys: Vec<NodeId>)
    ensures
        keys@.no_duplicates(),
        keys@.to_set() == map@.dom(),
{
    let mut keys: Vec<NodeId> = Vec::new();
    let ghost all = vstd::std_specs::iter::IteratorSpec::remaining(
        &vstd::std_specs::hash::spec_keys_iter(map),
    );
    for id in iter: map.keys()
        invariant
            iter.seq() == all,
            keys@ == all.unref().take(iter.index() as int),
    {
        keys.push(*id);
        assert(keys@ =~= all.unref().take(iter.index() + 1));
    }
    assert(keys@ =~= all.unref());
    keys
}

} // verus!
