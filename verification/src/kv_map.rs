//! A purely in-memory, non-persistent key-value map: a trivial alternate
//! implementation of the store capability (new, set, get, remove).  It
//! shares no state or invariants with the log-structured engine.

use vstd::hash_map::StringHashMap;
use vstd::prelude::*;

verus! {

/// The capability interface of an in-memory store over string keys and
/// values.
pub trait KvStore: Sized {
    /// The abstract contents of the store.
    spec fn kv(&self) -> Map<Seq<char>, Seq<char>>;

    /// An empty store.
    fn new() -> (s: Self)
        ensures
            s.kv() == Map::<Seq<char>, Seq<char>>::empty(),
    ;

    /// Stores `value` under `key`, overwriting any previous value.
    fn set(&mut self, key: String, value: String)
        ensures
            final(self).kv() == old(self).kv().insert(key@, value@),
    ;

    /// Looks `key` up; absence is `None`, never an error or a panic.
    fn get(&mut self, key: String) -> (r: Option<String>)
        ensures
            *final(self) == *old(self),
            match r {
                Some(v) => old(self).kv().contains_key(key@) && v@ == old(self).kv()[key@],
                None => !old(self).kv().contains_key(key@),
            },
    ;

    /// Drops `key`; removing an absent key is a no-op here.
    fn remove(&mut self, key: String)
        ensures
            final(self).kv() == old(self).kv().remove(key@),
    ;
}

/// The hash-map-backed store.
pub struct KvStoreMap {
    map_store: StringHashMap<String>,
}

impl KvStore for KvStoreMap {
    closed spec fn kv(&self) -> Map<Seq<char>, Seq<char>> {
        Map::new(
            |k: Seq<char>| self.map_store@.dom().contains(k),
            |k: Seq<char>| self.map_store@[k]@,
        )
    }

    fn new() -> (s: Self) {
        let s = KvStoreMap { map_store: StringHashMap::new() };
        proof {
            assert(s.kv() =~= Map::<Seq<char>, Seq<char>>::empty());
        }
        s
    }

    fn set(&mut self, key: String, value: String) {
        let ghost pre = self.kv();
        let ghost value_view = value@;
        self.map_store.insert(key, value);
        proof {
            assert(self.kv() =~= pre.insert(key@, value_view));
        }
    }

    fn get(&mut self, key: String) -> (r: Option<String>) {
        match self.map_store.get(key.as_str()) {
            Some(v) => Some(v.clone()),
            None => None,
        }
    }

    fn remove(&mut self, key: String) {
        let ghost pre = self.kv();
        self.map_store.remove(key.as_str());
        proof {
            assert(self.kv() =~= pre.remove(key@));
        }
    }
}

} // verus!
