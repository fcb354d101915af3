//! A map from text to values, ordered by key.
use vstd::prelude::*;
use vstd::utf8::*;
use crate::text;
use crate::text::{is_text_before, same_text};

verus! {

/// Values under text keys. Each key occurs once, and keys stand in dictionary order.
#[derive(Debug)]
pub struct TextMap<V> {
    keys: Vec<String>,
    values: Vec<V>,
}

impl<V> View for TextMap<V> {
    type V = Map<Seq<char>, V>;

    /// What stands under each key.
    open spec fn view(&self) -> Map<Seq<char>, V> {
        Map::new(
            |key: Seq<char>| self.names().contains(key),
            |key: Seq<char>| self.entries()[self.names().index_of(key)],
        )
    }
}

impl<V> TextMap<V> {
    /// The keys in order.
    pub closed spec fn names(&self) -> Seq<Seq<char>> {
        Seq::new(self.keys@.len(), |i: int| self.keys@[i]@)
    }

    /// The values in the order of their keys.
    pub closed spec fn entries(&self) -> Seq<V> {
        self.values@
    }

    /// There is a value for each key, and the keys ascend.
    pub open spec fn wf(&self) -> bool {
        &&& self.names().len() == self.entries().len()
        &&& forall|i: int, j: int|
            0 <= i < j < self.names().len() ==> text::text_before(
                #[trigger] self.names()[i],
                #[trigger] self.names()[j],
            )
    }

    /// No key occurs twice.
    pub proof fn lemma_distinct(&self, i: int, j: int)
        requires
            self.wf(),
            0 <= i < self.names().len(),
            0 <= j < self.names().len(),
            self.names()[i] == self.names()[j],
        ensures
            i == j,
    {
        if i != j {
            let key = encode_utf8(self.names()[i]);
            text::lemma_bytes_before_total(key, key);
        }
    }

    /// The value at a place is the value under the key at that place.
    pub proof fn lemma_entry(&self, i: int)
        requires
            self.wf(),
            0 <= i < self.names().len(),
        ensures
            self@.contains_key(self.names()[i]),
            self@[self.names()[i]] == self.entries()[i],
    {
        let key = self.names()[i];
        assert(self.names().contains(key));
        self.lemma_distinct(i, self.names().index_of(key));
    }

    /// Every key has a place.
    pub proof fn lemma_place(&self, key: Seq<char>) -> (i: int)
        requires
            self.wf(),
            self@.contains_key(key),
        ensures
            0 <= i < self.names().len(),
            self.names()[i] == key,
            self.entries()[i] == self@[key],
    {
        self.names().index_of(key)
    }

    /// A map without keys.
    pub fn new() -> (map: Self)
        ensures
            map.wf(),
            map@ == Map::<Seq<char>, V>::empty(),
            map.names().len() == 0,
    {
        let map = TextMap { keys: Vec::new(), values: Vec::new() };
        assert(map@ =~= Map::<Seq<char>, V>::empty());
        map
    }

    /// How many keys there are.
    pub fn len(&self) -> (len: usize)
        requires
            self.wf(),
        ensures
            len == self.names().len(),
    {
        self.values.len()
    }

    /// The value at a place.
    pub fn value_at(&self, i: usize) -> (value: &V)
        requires
            self.wf(),
            i < self.names().len(),
        ensures
            *value == self.entries()[i as int],
    {
        &self.values[i]
    }

    /// All values, in the order of their keys.
    pub fn values(&self) -> (values: &Vec<V>)
        ensures
            values@ == self.entries(),
    {
        &self.values
    }

    /// Where `key` stands, or where it would.
    fn position(&self, key: &str) -> (place: (bool, usize))
        requires
            self.wf(),
        ensures
            place.1 <= self.names().len(),
            forall|k: int| 0 <= k < place.1 ==> text::text_before(#[trigger] self.names()[k], key@),
            place.0 ==> place.1 < self.names().len() && self.names()[place.1 as int] == key@,
            !place.0 ==> forall|k: int|
                place.1 <= k < self.names().len() ==> text::text_before(
                    key@,
                    #[trigger] self.names()[k],
                ),
            place.0 == self@.contains_key(key@),
    {
        let mut i: usize = 0;
        while i < self.keys.len()
            invariant
                self.wf(),
                i <= self.names().len(),
                self.names().len() == self.keys@.len(),
                forall|k: int| 0 <= k < i ==> text::text_before(#[trigger] self.names()[k], key@),
            decreases self.keys.len() - i,
        {
            assert(self.names()[i as int] == self.keys@[i as int]@);
            if same_text(self.keys[i].as_str(), key) {
                assert(self.names().contains(key@));
                return (true, i);
            }
            if !is_text_before(self.keys[i].as_str(), key) {
                proof {
                    let here = self.names()[i as int];
                    assert(text::text_before(key@, here)) by {
                        text::lemma_bytes_before_total(encode_utf8(here), encode_utf8(key@));
                        if encode_utf8(here) == encode_utf8(key@) {
                            text::lemma_encode_injective(here, key@);
                        }
                    }
                    assert forall|k: int| i <= k < self.names().len() implies text::text_before(
                        key@,
                        #[trigger] self.names()[k],
                    ) by {
                        if k > i {
                            text::lemma_bytes_before_transitive(
                                encode_utf8(key@),
                                encode_utf8(here),
                                encode_utf8(self.names()[k]),
                            );
                        }
                    }
                    self.lemma_absent(key@, i as int);
                }
                return (false, i);
            }
            i = i + 1;
        }
        proof {
            self.lemma_absent(key@, i as int);
        }
        (false, i)
    }

    /// A key that fits between two neighbours is not there.
    proof fn lemma_absent(&self, key: Seq<char>, place: int)
        requires
            0 <= place <= self.names().len(),
            forall|k: int| 0 <= k < place ==> text::text_before(#[trigger] self.names()[k], key),
            forall|k: int|
                place <= k < self.names().len() ==> text::text_before(
                    key,
                    #[trigger] self.names()[k],
                ),
        ensures
            !self.names().contains(key),
    {
        text::lemma_bytes_before_total(encode_utf8(key), encode_utf8(key));
        if self.names().contains(key) {
            let i = choose|i: int| 0 <= i < self.names().len() && self.names()[i] == key;
            assert(text::text_before(key, key));
        }
    }

    /// Tells whether there is a value under `key`.
    pub fn contains_key(&self, key: &str) -> (found: bool)
        requires
            self.wf(),
        ensures
            found == self@.contains_key(key@),
    {
        self.position(key).0
    }

    /// The value under `key`.
    pub fn get(&self, key: &str) -> (value: Option<&V>)
        requires
            self.wf(),
        ensures
            match value {
                Some(value) => self@.contains_key(key@) && *value == self@[key@],
                None => !self@.contains_key(key@),
            },
    {
        let (found, i) = self.position(key);
        if found {
            proof {
                self.lemma_entry(i as int);
            }
            Some(&self.values[i])
        } else {
            None
        }
    }

    /// Puts a value under `key`, and gives back the one that stood there.
    pub fn insert(&mut self, key: String, value: V) -> (previous: Option<V>)
        requires
            old(self).wf(),
        ensures
            final(self).wf(),
            final(self)@ == old(self)@.insert(key@, value),
            previous == (if old(self)@.contains_key(key@) {
                Some(old(self)@[key@])
            } else {
                None
            }),
    {
        let (found, i) = self.position(key.as_str());
        let ghost before = *self;
        if found {
            proof {
                before.lemma_entry(i as int);
            }
            let previous = self.values.remove(i);
            self.values.insert(i, value);
            proof {
                assert(self.names() =~= before.names());
                assert(self.entries() =~= before.entries().update(i as int, value));
                assert forall|k: Seq<char>| self.names().contains(k) implies self@[k]
                    == before@.insert(key@, value)[k] by {
                    let at = self.names().index_of(k);
                    if k == key@ {
                        before.lemma_distinct(i as int, at);
                    }
                }
                assert(self@ =~= before@.insert(key@, value));
            }
            Some(previous)
        } else {
            let ghost name = key@;
            self.keys.insert(i, key);
            self.values.insert(i, value);
            proof {
                assert(self.names() =~= before.names().insert(i as int, name));
                assert(self.entries() =~= before.entries().insert(i as int, value));
                assert forall|a: int, b: int| 0 <= a < b < self.names().len() implies
                    text::text_before(#[trigger] self.names()[a], #[trigger] self.names()[b]) by {
                    let from = if a < i {
                        a
                    } else {
                        a - 1
                    };
                    let to = if b < i {
                        b
                    } else {
                        b - 1
                    };
                    if a == i {
                        assert(text::text_before(name, before.names()[to]));
                    } else if b == i {
                        assert(text::text_before(before.names()[from], name));
                    } else {
                        assert(text::text_before(before.names()[from], before.names()[to]));
                    }
                }
                assert(self.wf());
                assert forall|k: Seq<char>| #[trigger] self.names().contains(k) <==> (k == name
                    || before.names().contains(k)) by {
                    if before.names().contains(k) {
                        let at = before.names().index_of(k);
                        assert(self.names()[if at < i { at } else { at + 1 }] == k);
                    }
                    if k == name {
                        assert(self.names()[i as int] == k);
                    }
                    if self.names().contains(k) && k != name {
                        let at = self.names().index_of(k);
                        assert(before.names()[if at < i { at } else { at - 1 }] == k);
                    }
                }
                assert forall|k: Seq<char>| self.names().contains(k) implies self@[k]
                    == before@.insert(name, value)[k] by {
                    let at = self.names().index_of(k);
                    if k == name {
                        self.lemma_distinct(i as int, at);
                    } else {
                        let from = if at < i { at } else { at - 1 };
                        assert(before.names()[from] == k);
                        before.lemma_entry(from);
                    }
                }
                assert(self@ =~= before@.insert(name, value));
            }
            None
        }
    }

    /// Takes the value under `key` out.
    pub fn remove(&mut self, key: &str) -> (value: Option<V>)
        requires
            old(self).wf(),
        ensures
            final(self).wf(),
            final(self)@ == old(self)@.remove(key@),
            value == (if old(self)@.contains_key(key@) {
                Some(old(self)@[key@])
            } else {
                None
            }),
    {
        let (found, i) = self.position(key);
        let ghost before = *self;
        if found {
            proof {
                before.lemma_entry(i as int);
            }
            let _ = self.keys.remove(i);
            let value = self.values.remove(i);
            proof {
                assert(self.names() =~= before.names().remove(i as int));
                assert(self.entries() =~= before.entries().remove(i as int));
                assert forall|a: int, b: int| 0 <= a < b < self.names().len() implies
                    text::text_before(#[trigger] self.names()[a], #[trigger] self.names()[b]) by {
                    let from = if a < i { a } else { a + 1 };
                    let to = if b < i { b } else { b + 1 };
                    assert(text::text_before(before.names()[from], before.names()[to]));
                }
                assert(self.wf());
                assert forall|k: Seq<char>| #[trigger] self.names().contains(k) <==> (k != key@
                    && before.names().contains(k)) by {
                    if before.names().contains(k) && k != key@ {
                        let at = before.names().index_of(k);
                        assert(self.names()[if at < i { at } else { at - 1 }] == k);
                    }
                    if self.names().contains(k) {
                        let at = self.names().index_of(k);
                        let from = if at < i { at } else { at + 1 };
                        assert(before.names()[from] == k);
                        if k == key@ {
                            before.lemma_distinct(i as int, from);
                        }
                    }
                }
                assert forall|k: Seq<char>| self.names().contains(k) implies self@[k]
                    == before@.remove(key@)[k] by {
                    let at = self.names().index_of(k);
                    let from = if at < i { at } else { at + 1 };
                    assert(before.names()[from] == k);
                    before.lemma_entry(from);
                }
                assert(self@ =~= before@.remove(key@));
            }
            Some(value)
        } else {
            assert(self@ =~= before@.remove(key@));
            None
        }
    }
}

impl<V: Clone> Clone for TextMap<V> {
    fn clone(&self) -> (copy: Self)
        ensures
            copy.names() == self.names(),
            copy.entries().len() == self.entries().len(),
            forall|i: int|
                0 <= i < self.entries().len() ==> cloned::<V>(
                    self.entries()[i],
                    #[trigger] copy.entries()[i],
                ),
    {
        let copy = TextMap { keys: self.keys.clone(), values: self.values.clone() };
        assert(copy.names() =~= self.names());
        copy
    }
}

/// Two maps with the same contents list the same keys and values in the same order.
pub proof fn order_follows_contents<V>(left: TextMap<V>, right: TextMap<V>)
    requires
        left.wf(),
        right.wf(),
        left@ == right@,
    ensures
        left.names() == right.names(),
        left.entries() == right.entries(),
    decreases left.names().len(),
{
    lemma_same_names(left, right, left.names().len() as int);
    lemma_same_names(right, left, right.names().len() as int);
    assert(left.names() =~= right.names());
    assert forall|i: int| 0 <= i < left.entries().len() implies left.entries()[i]
        == right.entries()[i] by {
        left.lemma_entry(i);
        right.lemma_entry(i);
    }
    assert(left.entries() =~= right.entries());
}

/// The first keys of two maps with the same contents agree.
proof fn lemma_same_names<V>(left: TextMap<V>, right: TextMap<V>, n: int)
    requires
        left.wf(),
        right.wf(),
        left@ == right@,
        0 <= n <= left.names().len(),
    ensures
        n <= right.names().len(),
        forall|i: int| 0 <= i < n ==> left.names()[i] == right.names()[i],
    decreases n,
{
    if n > 0 {
        lemma_same_names(left, right, n - 1);
        let key = left.names()[n - 1];
        left.lemma_entry(n - 1);
        let at = right.lemma_place(key);
        if at < n - 1 {
            left.lemma_distinct(at, n - 1);
        }
        assert(at >= n - 1);
        if at > n - 1 {
            let other = right.names()[n - 1];
            right.lemma_entry(n - 1);
            let back = left.lemma_place(other);
            if back < n - 1 {
                right.lemma_distinct(back, n - 1);
            } else if back == n - 1 {
                right.lemma_distinct(at, n - 1);
            } else {
                assert(text::text_before(other, key));
                assert(text::text_before(key, other));
                text::lemma_bytes_before_total(encode_utf8(key), encode_utf8(other));
            }
        }
    }
}

} // verus!
