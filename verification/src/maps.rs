//! Walking hash maps.

use std::collections::HashMap;
use std::hash::Hash;
use vstd::prelude::*;
use vstd::std_specs::hash::obeys_key_model;

verus! {

broadcast use vstd::std_specs::hash::group_hash_axioms;

/// The keys of a map, each once, in no particular order.
pub(crate) fn keys_of<K: Copy + Eq + Hash, V>(map: &HashMap<K, V>) -> (keys: Vec<K>)
    requires
        obeys_key_model::<K>(),
    ensures
        keys@.no_duplicates(),
        forall|key: K| #[trigger] keys@.contains(key) <==> map@.contains_key(key),
{
    let mut keys: Vec<K> = Vec::new();
    for key in it: map.keys()
        invariant
            it.seq().unref().to_set() == map@.dom(),
            it.seq().no_duplicates(),
            keys@ == it.seq().unref().take(it.index() as int),
            it.index() == it.seq().len() ==> keys@.to_set() == map@.dom(),
    {
        let ghost all = it.seq().unref();
        keys.push(*key);
        assert(all.len() == it.seq().len());
        assert(keys@ =~= all.take(it.index() + 1));
        assert(all.take(all.len() as int) =~= all);
    }
    assert forall|key: K| #[trigger] keys@.contains(key) <==> map@.contains_key(key) by {
        assert(keys@.to_set().contains(key) == keys@.contains(key));
    }
    keys
}

/// Taking one more item of a sequence adds that item.
pub proof fn lemma_take_contains<T>(items: Seq<T>, n: int)
    requires
        0 <= n < items.len(),
    ensures
        forall|item: T| #[trigger]
            items.take(n + 1).contains(item) <==> items.take(n).contains(item) || item == items[n],
{
    let (short, long) = (items.take(n), items.take(n + 1));
    assert forall|item: T| #[trigger] long.contains(item) <==> short.contains(item) || item
        == items[n] by {
        if short.contains(item) {
            let j = choose|j: int| 0 <= j < short.len() && short[j] == item;
            assert(long[j] == item);
        }
        if item == items[n] {
            assert(long[n] == item);
        }
        if long.contains(item) {
            let j = choose|j: int| 0 <= j < long.len() && long[j] == item;
            if j < n {
                assert(short[j] == item);
            }
        }
    }
}

} // verus!
