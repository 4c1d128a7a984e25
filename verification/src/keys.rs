//! The keys of a hash map, as a list.

use std::collections::HashMap;
use std::hash::Hash;
use vstd::prelude::*;

verus! {

broadcast use vstd::std_specs::hash::group_hash_axioms;

/// The keys of `map`, each once, in no particular order.
pub fn keys_of<K: Eq + Hash + Copy, V>(map: &HashMap<K, V>) -> (keys: Vec<K>)
    requires
        vstd::std_specs::hash::obeys_key_model::<K>(),
    ensures
        keys@.no_duplicates(),
        forall|key: K| keys@.contains(key) <==> map@.contains_key(key),
        forall|i: int| 0 <= i < keys@.len() ==> map@.contains_key(#[trigger] keys@[i]),
        keys@.to_set() == map@.dom(),
{
    let mut keys: Vec<K> = Vec::new();
    for key in it: map.keys()
        invariant
            vstd::std_specs::hash::obeys_key_model::<K>(),
            it.seq().unref().to_set() == map@.dom(),
            it.seq().no_duplicates(),
            keys@.len() == it.index(),
            forall|i: int| 0 <= i < keys@.len() ==> #[trigger] keys@[i] == *it.seq()[i],
            keys@.no_duplicates(),
            it.index() == it.seq().len() ==> keys@.to_set() == map@.dom(),
    {
        keys.push(*key);
        assert(keys@.len() == it.seq().len() ==> keys@ =~= it.seq().unref());
    }
    proof {
        assert forall|key: K| keys@.contains(key) <==> map@.contains_key(key) by {
            assert(keys@.contains(key) <==> keys@.to_set().contains(key));
        }
        assert forall|i: int| 0 <= i < keys@.len() implies map@.contains_key(
            #[trigger] keys@[i],
        ) by {
            assert(keys@.contains(keys@[i]));
        }
    }
    keys
}

} // verus!
