use vstd::prelude::*;
use vstd::laws_cmp::obeys_cmp;
use vstd::std_specs::btree::{increasing_seq, key_obeys_cmp_spec, spec_btree_map_iter};
use vstd::std_specs::cmp::OrdSpec;
use vstd::std_specs::iter::IteratorSpec;

use std::cmp::Ordering;
use std::collections::BTreeMap;

verus! {

/// The entry with the smallest key of a map, if it has any. The keys must be
/// ordered as `Ord` promises (as those of std's types are).
pub fn get_first_element<K: Ord, V>(collection: &BTreeMap<K, V>) -> (r: Option<(&K, &V)>)
    requires
        obeys_cmp::<K>(),
        key_obeys_cmp_spec::<K>(),
    ensures
        r is None <==> collection@.dom().len() == 0,
        r matches Some((k, v)) ==> collection@.contains_key(*k) && collection@[*k] == *v
            && forall|k2: K| #[trigger] collection@.contains_key(k2) && k2 != *k ==> k.cmp_spec(&k2)
            == Ordering::Less,
{
    for kv in it: collection.iter()
        invariant
            obeys_cmp::<K>(),
            it.index() == 0,
            it.seq() == spec_btree_map_iter(collection).remaining(),
            increasing_seq(spec_btree_map_iter(collection).remaining().map_values(|kv: (&K, &V)| *kv.0)),
    {
        let (k, v) = kv;
        let ghost s = spec_btree_map_iter(collection).remaining();
        let ghost keys = s.map_values(|kv: (&K, &V)| *kv.0);
        assert(s.len() > 0);
        assert forall|k2: K| #[trigger] collection@.contains_key(k2) && k2 != *k implies k.cmp_spec(&k2)
            == Ordering::Less by {
            assert(s.contains((&k2, &collection@[k2])));
            let i = choose|i: int| 0 <= i < s.len() && s[i] == (&k2, &collection@[k2]);
            assert(keys[0] == *k);
            assert(keys[i] == k2);
            assert(i != 0);
            assert(increasing_seq(keys));
            assert(keys[0].cmp_spec(&keys[i]) is Less);
        }
        return Some((k, v));
    }
    None
}

} // verus!
