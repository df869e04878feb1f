//! Values found by text, which can also be walked in a fixed order.

use vstd::hash_map::StringHashMap;
use vstd::prelude::*;
use vstd::string::*;

verus! {

/// Values under texts, each text at most once.
#[verifier::reject_recursive_types(V)]
pub struct TextMap<V> {
    index: StringHashMap<usize>,
    keys: Vec<String>,
    values: Vec<V>,
}

impl<V> TextMap<V> {
    /// The index and the slots describe the same pairs.
    pub closed spec fn wf(&self) -> bool {
        &&& self.keys.len() == self.values.len()
        &&& forall|i: int| 0 <= i < self.keys.len() ==> self.index@.dom().contains((#[trigger] self.keys[i])@) && self.index@[self.keys[i]@] == i
        &&& forall|key: Seq<char>| #[trigger] self.index@.dom().contains(key) ==> self.index@[key] < self.keys.len() && self.keys[self.index@[key] as int]@ == key
    }

    /// The stored pairs.
    pub closed spec fn view(&self) -> Map<Seq<char>, V> {
        Map::new(|key: Seq<char>| self.index@.dom().contains(key), |key: Seq<char>| self.values[self.index@[key] as int])
    }

    /// The texts in the order in which they were first put in.
    pub closed spec fn slots(&self) -> Seq<Seq<char>> {
        Seq::new(self.keys@.len(), |i: int| self.keys@[i]@)
    }

    /// The slots hold exactly the texts of the map, each once.
    pub proof fn slots_match(&self)
        requires
            self.wf(),
        ensures
            self.slots().no_duplicates(),
            forall|key: Seq<char>| self@.dom().contains(key) <==> #[trigger] self.slots().contains(key),
    {
        let slots = self.slots();
        assert forall|i: int, j: int| 0 <= i < slots.len() && 0 <= j < slots.len() && i != j implies slots[i] != slots[j] by {
            assert(self.index@[self.keys[i]@] == i);
            assert(self.index@[self.keys[j]@] == j);
        }
        assert forall|key: Seq<char>| self@.dom().contains(key) <==> #[trigger] slots.contains(key) by {
            if self@.dom().contains(key) {
                let i = self.index@[key] as int;
                assert(self.keys[i]@ == key);
                assert(slots[i] == key);
            }
            if slots.contains(key) {
                let i = choose|i: int| 0 <= i < slots.len() && slots[i] == key;
                assert(self.index@.dom().contains(self.keys[i]@));
            }
        }
    }

    /// A map without pairs.
    pub fn new() -> (map: Self)
        ensures
            map.wf(),
            map@ == Map::<Seq<char>, V>::empty(),
            map.slots() == Seq::<Seq<char>>::empty(),
    {
        let map = TextMap { index: StringHashMap::new(), keys: Vec::new(), values: Vec::new() };
        assert(map@ =~= Map::<Seq<char>, V>::empty());
        assert(map.slots() =~= Seq::<Seq<char>>::empty());
        map
    }

    /// Number of pairs.
    pub fn len(&self) -> (len: usize)
        requires
            self.wf(),
        ensures
            len == self.slots().len(),
    {
        self.keys.len()
    }

    /// The text in a slot.
    pub fn key_at(&self, slot: usize) -> (key: &String)
        requires
            self.wf(),
            slot < self.slots().len(),
        ensures
            key@ == self.slots()[slot as int],
            self@.dom().contains(key@),
    {
        assert(self.index@.dom().contains(self.keys[slot as int]@));
        &self.keys[slot]
    }

    /// The value in a slot.
    pub fn value_at(&self, slot: usize) -> (value: &V)
        requires
            self.wf(),
            slot < self.slots().len(),
        ensures
            self@.dom().contains(self.slots()[slot as int]),
            *value == self@[self.slots()[slot as int]],
    {
        assert(self.index@.dom().contains(self.keys[slot as int]@));
        &self.values[slot]
    }

    /// The value under a text.
    pub fn get(&self, key: &str) -> (value: Option<&V>)
        requires
            self.wf(),
        ensures
            value is Some <==> self@.dom().contains(key@),
            value is Some ==> *value->0 == self@[key@],
    {
        match self.index.get(key) {
            Some(slot) => Some(&self.values[*slot]),
            None => None,
        }
    }

    /// Puts a value under a text, in place of what was there.
    pub fn insert(&mut self, key: String, value: V)
        requires
            old(self).wf(),
        ensures
            final(self).wf(),
            final(self)@ == old(self)@.insert(key@, value),
            final(self).slots() == (if old(self)@.dom().contains(key@) { old(self).slots() } else { old(self).slots().push(key@) }),
    {
        let known: Option<usize> = match self.index.get(key.as_str()) {
            Some(slot) => Some(*slot),
            None => None,
        };
        match known {
            Some(slot) => {
                self.values.set(slot, value);
                assert(self@ =~= old(self)@.insert(key@, value));
                assert(self.slots() =~= old(self).slots());
            },
            None => {
                let slot: usize = self.keys.len();
                let ghost text = key@;
                self.index.insert(key.clone(), slot);
                self.keys.push(key);
                self.values.push(value);
                proof {
                    assert forall|i: int| 0 <= i < self.keys.len() implies self.index@.dom().contains((#[trigger] self.keys[i])@) && self.index@[self.keys[i]@] == i by {
                        if i < slot {
                            assert(old(self).index@.dom().contains(old(self).keys[i]@));
                        }
                    }
                    assert(self@ =~= old(self)@.insert(text, value));
                    assert(self.slots() =~= old(self).slots().push(text));
                }
            },
        }
    }
}

impl TextMap<Vec<usize>> {
    /// The lists of a map as sequences.
    pub open spec fn lists(&self) -> Map<Seq<char>, Seq<usize>> {
        Map::new(|key: Seq<char>| self@.dom().contains(key), |key: Seq<char>| self@[key]@)
    }

    /// Puts a number at the end of the list under a text, which begins empty.
    pub fn push_to(&mut self, key: String, item: usize)
        requires
            old(self).wf(),
        ensures
            final(self).wf(),
            final(self).lists() == old(self).lists().insert(
                key@,
                (if old(self).lists().dom().contains(key@) { old(self).lists()[key@] } else { Seq::empty() }).push(item),
            ),
    {
        let known: Option<usize> = match self.index.get(key.as_str()) {
            Some(slot) => Some(*slot),
            None => None,
        };
        let ghost text = key@;
        match known {
            Some(slot) => {
                self.values[slot].push(item);
                proof {
                    assert(self.lists() =~= old(self).lists().insert(text, old(self).lists()[text].push(item)));
                }
            },
            None => {
                let mut list: Vec<usize> = Vec::new();
                list.push(item);
                let ghost made = list@;
                self.insert(key, list);
                proof {
                    assert(made =~= Seq::<usize>::empty().push(item));
                    assert(self.lists() =~= old(self).lists().insert(text, Seq::<usize>::empty().push(item)));
                }
            },
        }
    }
}

} // verus!
