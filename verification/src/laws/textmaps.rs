//! Laws of maps that are keyed by text.
use vstd::prelude::*;
use vstd::utf8::*;
use crate::laws::graphs;
use crate::textmap::TextMap;

verus! {

/// A map starts out without keys.
pub proof fn maps_start_empty<V>(map: TextMap<V>, key: Seq<char>)
    requires
        call_ensures(TextMap::<V>::new, (), map),
    ensures
        !map@.contains_key(key),
        map.wf(),
{
}

/// What is put under a key is found there, and what stands under the others stays.
pub proof fn values_are_found_where_they_were_put<V>(
    map: &mut TextMap<V>,
    key: String,
    value: V,
    previous: Option<V>,
    wanted: &str,
    before: Option<&V>,
    after: Option<&V>,
)
    requires
        call_ensures(TextMap::<V>::get, (&*old(map), wanted), before),
        call_ensures(TextMap::<V>::insert, (map, key, value), previous),
        call_ensures(TextMap::<V>::get, (&*final(map), wanted), after),
    ensures
        if wanted@ == key@ {
            &&& after matches Some(found) && *found == value
            &&& match before {
                Some(replaced) => previous == Some(*replaced),
                None => previous is None,
            }
        } else {
            match before {
                Some(kept) => after matches Some(found) && *found == *kept,
                None => after is None,
            }
        },
{
}

/// What is taken out is no longer found, and what stands under the other keys stays.
pub proof fn values_are_taken_from_where_they_are<V>(
    map: &mut TextMap<V>,
    key: &str,
    taken: Option<V>,
    wanted: &str,
    before: Option<&V>,
    after: Option<&V>,
)
    requires
        call_ensures(TextMap::<V>::get, (&*old(map), wanted), before),
        call_ensures(TextMap::<V>::remove, (map, key), taken),
        call_ensures(TextMap::<V>::get, (&*final(map), wanted), after),
    ensures
        if wanted@ == key@ {
            &&& after is None
            &&& match before {
                Some(found) => taken == Some(*found),
                None => taken is None,
            }
        } else {
            match before {
                Some(kept) => after matches Some(found) && *found == *kept,
                None => after is None,
            }
        },
{
}

/// Values stand in the order of the bytes of their keys, and each is found under its key.
pub proof fn values_stand_in_the_order_of_their_keys<V>(
    map: TextMap<V>,
    values: &Vec<V>,
    i: int,
    j: int,
)
    requires
        map.wf(),
        call_ensures(TextMap::<V>::values, (&map,), values),
        0 <= i < j < values@.len(),
    ensures
        values@.len() == map.names().len(),
        graphs::comes_first(encode_utf8(map.names()[i]), encode_utf8(map.names()[j])),
        map@.contains_pair(map.names()[i], values@[i]),
        map@.contains_pair(map.names()[j], values@[j]),
        forall|key: Seq<char>| #[trigger] map@.contains_key(key) ==> map.names().contains(key),
{
    assert(crate::text::text_before(map.names()[i], map.names()[j]));
    graphs::lemma_comes_first(encode_utf8(map.names()[i]), encode_utf8(map.names()[j]));
    map.lemma_entry(i);
    map.lemma_entry(j);
}

} // verus!
