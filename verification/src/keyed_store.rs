//! A dense store of values found by composite key.
//!
//! The positions of the values are kept in a `DashMap`; the values themselves
//! lie in a `Vec`, so that they can be walked in a fixed order.

use dashmap::DashMap;
use vstd::prelude::*;

verus! {

/// A key: a day or tag, and two numbers that mean what the user of the store
/// says (a destination and a source, a trip and a position).
pub type StoreKey = (i32, u64, u64);

#[verifier::external_type_specification]
#[verifier::external_body]
#[verifier::reject_recursive_types(K)]
#[verifier::reject_recursive_types(V)]
#[verifier::reject_recursive_types(S)]
pub struct ExDashMap<K, V, S>(DashMap<K, V, S>);

/// What an index holds: the key-value pairs of the map.
pub uninterp spec fn index_contents(index: DashMap<StoreKey, usize>) -> Map<StoreKey, usize>;

/// An index without entries.
pub open spec fn no_slots() -> Map<StoreKey, usize> {
    Map::empty()
}

/// `DashMap::new`: a map without entries.
#[verifier::external_body]
fn index_new() -> (index: DashMap<StoreKey, usize>)
    ensures
        index_contents(index) == no_slots(),
{
    DashMap::new()
}

/// `DashMap::get`, with the value copied out: the value under the key, if the
/// key is present.
#[verifier::external_body]
fn index_get(index: &DashMap<StoreKey, usize>, key: StoreKey) -> (slot: Option<usize>)
    ensures
        slot is Some <==> index_contents(*index).dom().contains(key),
        slot is Some ==> slot->0 == index_contents(*index)[key],
{
    index.get(&key).map(|entry| *entry.value())
}

/// `DashMap::insert`: the key maps to the value afterwards, every other entry
/// stays. Taken by `&mut`, so that no other holder sees the map meanwhile.
#[verifier::external_body]
fn index_insert(index: &mut DashMap<StoreKey, usize>, key: StoreKey, slot: usize)
    ensures
        index_contents(*final(index)) == index_contents(*old(index)).insert(key, slot),
{
    index.insert(key, slot);
}

/// `DashMap::remove`: the key is absent afterwards, every other entry stays.
#[verifier::external_body]
fn index_remove(index: &mut DashMap<StoreKey, usize>, key: StoreKey)
    ensures
        index_contents(*final(index)) == index_contents(*old(index)).remove(key),
{
    index.remove(&key);
}

/// Values under composite keys, each key at most once.
#[verifier::reject_recursive_types(V)]
pub struct KeyedStore<V> {
    index: DashMap<StoreKey, usize>,
    keys: Vec<StoreKey>,
    values: Vec<V>,
}

impl<V> KeyedStore<V> {
    /// The index and the slots describe the same pairs.
    pub closed spec fn wf(&self) -> bool {
        &&& self.keys.len() == self.values.len()
        &&& forall|i: int|
            0 <= i < self.keys.len() ==> {
                &&& index_contents(self.index).dom().contains(#[trigger] self.keys[i])
                &&& index_contents(self.index)[self.keys[i]] == i
            }
        &&& forall|key: StoreKey| #[trigger]
            index_contents(self.index).dom().contains(key) ==> {
                &&& index_contents(self.index)[key] < self.keys.len()
                &&& self.keys[index_contents(self.index)[key] as int] == key
            }
    }

    /// The stored pairs.
    pub closed spec fn view(&self) -> Map<StoreKey, V> {
        Map::new(
            |key: StoreKey| index_contents(self.index).dom().contains(key),
            |key: StoreKey| self.values[index_contents(self.index)[key] as int],
        )
    }

    /// The keys in the order in which the slots hold them.
    pub closed spec fn slots(&self) -> Seq<StoreKey> {
        self.keys@
    }

    /// The slots hold exactly the keys of the store, each once.
    pub proof fn slots_match(&self)
        requires
            self.wf(),
        ensures
            self.slots().no_duplicates(),
            forall|key: StoreKey| self@.dom().contains(key) <==> #[trigger] self.slots().contains(key),
            self@.dom().finite(),
            self@.dom().len() == self.slots().len(),
    {
        assert(self.slots().no_duplicates());
        assert forall|key: StoreKey| self@.dom().contains(key) <==> #[trigger] self.slots().contains(key) by {
            if self@.dom().contains(key) {
                assert(self.keys[index_contents(self.index)[key] as int] == key);
            }
        }
        assert(self@.dom() =~= self.slots().to_set());
        self.slots().unique_seq_to_set();
    }

    /// An empty store.
    pub fn new() -> (store: Self)
        ensures
            store.wf(),
            store@ == Map::<StoreKey, V>::empty(),
            store.slots() == Seq::<StoreKey>::empty(),
    {
        let store = KeyedStore { index: index_new(), keys: Vec::new(), values: Vec::new() };
        assert(store@ =~= Map::<StoreKey, V>::empty());
        assert(store.slots() =~= Seq::<StoreKey>::empty());
        store
    }

    /// Number of stored pairs.
    pub fn len(&self) -> (len: usize)
        requires
            self.wf(),
        ensures
            len == self.slots().len(),
            len == self@.dom().len(),
    {
        proof {
            self.slots_match();
        }
        self.keys.len()
    }

    /// The key in the given slot.
    pub fn key_at(&self, slot: usize) -> (key: StoreKey)
        requires
            self.wf(),
            slot < self.slots().len(),
        ensures
            key == self.slots()[slot as int],
            self@.dom().contains(key),
    {
        self.keys[slot]
    }

    /// The value in the given slot.
    pub fn value_at(&self, slot: usize) -> (value: &V)
        requires
            self.wf(),
            slot < self.slots().len(),
        ensures
            self@.dom().contains(self.slots()[slot as int]),
            *value == self@[self.slots()[slot as int]],
    {
        assert(index_contents(self.index).dom().contains(self.keys[slot as int]));
        &self.values[slot]
    }

    /// The value under a key.
    pub fn get(&self, key: StoreKey) -> (value: Option<&V>)
        requires
            self.wf(),
        ensures
            value is Some <==> self@.dom().contains(key),
            value is Some ==> *value->0 == self@[key],
    {
        match index_get(&self.index, key) {
            Some(slot) => Some(&self.values[slot]),
            None => None,
        }
    }

    /// Puts a value under a key, in place of what was there.
    pub fn insert(&mut self, key: StoreKey, value: V)
        requires
            old(self).wf(),
        ensures
            final(self).wf(),
            final(self)@ == old(self)@.insert(key, value),
            old(self)@.dom().contains(key) ==> final(self).slots() == old(self).slots(),
            !old(self)@.dom().contains(key) ==> final(self).slots() == old(self).slots().push(key),
    {
        match index_get(&self.index, key) {
            Some(slot) => {
                self.values.set(slot, value);
            },
            None => {
                let slot: usize = self.keys.len();
                index_insert(&mut self.index, key, slot);
                self.keys.push(key);
                self.values.push(value);
            },
        }
        assert(self@ =~= old(self)@.insert(key, value));
    }

    /// Takes a key out of the store, with its value.
    pub fn remove(&mut self, key: StoreKey) -> (value: Option<V>)
        requires
            old(self).wf(),
        ensures
            final(self).wf(),
            final(self)@ == old(self)@.remove(key),
            value is Some <==> old(self)@.dom().contains(key),
            value is Some ==> value->0 == old(self)@[key],
    {
        match index_get(&self.index, key) {
            Some(slot) => {
                let last: usize = self.keys.len() - 1;
                let moved: StoreKey = self.keys[last];
                index_remove(&mut self.index, key);
                if slot != last {
                    index_insert(&mut self.index, moved, slot);
                }
                let _ = self.keys.swap_remove(slot);
                let value: V = self.values.swap_remove(slot);
                assert(self@ =~= old(self)@.remove(key));
                Some(value)
            },
            None => {
                assert(self@ =~= old(self)@.remove(key));
                None
            },
        }
    }

    /// Takes every pair out of the store.
    pub fn clear(&mut self)
        requires
            old(self).wf(),
        ensures
            final(self).wf(),
            final(self)@ == Map::<StoreKey, V>::empty(),
            final(self).slots() == Seq::<StoreKey>::empty(),
    {
        self.index = index_new();
        self.keys.clear();
        self.values.clear();
        assert(self@ =~= Map::<StoreKey, V>::empty());
        assert(self.slots() =~= Seq::<StoreKey>::empty());
    }
}

} // verus!
