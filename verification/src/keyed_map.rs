//! A map from string keys to values that can be changed in place.
use vstd::hash_map::StringHashMap;
use vstd::prelude::*;

verus! {

/// One key and its value.
pub struct Entry<V> {
    pub key: String,
    pub value: V,
}

/// A map from strings to values.
///
/// The values lie in a vector without gaps; an index says where each key
/// has its value.
pub struct KeyedMap<V> {
    index: StringHashMap<usize>,
    entries: Vec<Entry<V>>,
}

impl<V> View for KeyedMap<V> {
    type V = Map<Seq<char>, V>;

    closed spec fn view(&self) -> Map<Seq<char>, V> {
        Map::new(
            |k: Seq<char>| self.index@.contains_key(k),
            |k: Seq<char>| self.entries@[self.index@[k] as int].value,
        )
    }
}

impl<V> KeyedMap<V> {
    /// The index leads from every key to the entry with that key, and from
    /// the key of every entry back to it.
    pub closed spec fn valid(&self) -> bool {
        &&& forall|k: Seq<char>|
            #![trigger self.index@.contains_key(k)]
            #![trigger self.index@[k]]
            self.index@.contains_key(k) ==> self.index@[k] < self.entries@.len()
                && self.entries@[self.index@[k] as int].key@ == k
        &&& forall|i: int|
            0 <= i < self.entries@.len() ==> self.index@.contains_key(
                #[trigger] self.entries@[i].key@,
            ) && self.index@[self.entries@[i].key@] == i
    }

    /// A map without keys.
    pub fn new() -> (m: KeyedMap<V>)
        ensures
            m.valid(),
            m@ == Map::<Seq<char>, V>::empty(),
    {
        let m = KeyedMap { index: StringHashMap::new(), entries: Vec::new() };
        assert(m@ =~= Map::<Seq<char>, V>::empty());
        m
    }

    /// The value of `key`, to be changed in place.
    pub fn get_mut(&mut self, key: &str) -> (r: Option<&mut V>)
        requires
            old(self).valid(),
        ensures
            final(self).valid(),
            match r {
                Some(v) => {
                    &&& old(self)@.contains_key(key@)
                    &&& *v == old(self)@[key@]
                    &&& final(self)@ == old(self)@.insert(key@, *final(v))
                },
                None => !old(self)@.contains_key(key@) && final(self)@ == old(self)@,
            },
    {
        match self.index.get(key) {
            Some(i) => {
                let i: usize = *i;
                Some(&mut self.entries[i].value)
            },
            None => None,
        }
    }

    /// Gives `key`, which has no value yet, the value `value`.
    pub fn insert_new(&mut self, key: &str, value: V)
        requires
            old(self).valid(),
            !old(self)@.contains_key(key@),
        ensures
            final(self).valid(),
            final(self)@ == old(self)@.insert(key@, value),
    {
        let position: usize = self.entries.len();
        self.index.insert(key.to_owned(), position);
        self.entries.push(Entry { key: key.to_owned(), value });
        assert(self@ =~= old(self)@.insert(key@, value));
    }

    /// Takes `key` and its value out of the map.
    pub fn remove(&mut self, key: &str)
        requires
            old(self).valid(),
        ensures
            final(self).valid(),
            final(self)@ == old(self)@.remove(key@),
    {
        let position: usize = match self.index.get(key) {
            Some(i) => *i,
            None => {
                assert(self@ =~= old(self)@.remove(key@));
                return;
            },
        };
        self.index.remove(key);
        let _ = self.entries.swap_remove(position);
        if position < self.entries.len() {
            let moved = self.entries[position].key.clone();
            self.index.insert(moved, position);
        }
        assert(self@ =~= old(self)@.remove(key@));
    }
}

} // verus!
