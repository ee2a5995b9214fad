//! A store in memory.

use vstd::prelude::*;
use vstd::hash_map::StringHashMap;
use crate::entry::{Entry, EntryView};
use crate::store::storage::Storage;

verus! {

pub struct MemStorage {
    map: StringHashMap<Entry>,
}

impl MemStorage {
    /// An empty store.
    pub fn new() -> (r: MemStorage)
        ensures
            r.contents() == Map::<Seq<char>, EntryView>::empty(),
    {
        let r = MemStorage { map: StringHashMap::new() };
        assert(r.contents() =~= Map::<Seq<char>, EntryView>::empty());
        r
    }
}

impl Storage for MemStorage {
    closed spec fn contents(&self) -> Map<Seq<char>, EntryView> {
        self.map@.map_values(|e: Entry| e@)
    }

    fn set(&mut self, key: String, value: Entry) {
        self.map.insert(key, value);
        assert(self.contents() =~= old(self).contents().insert(key@, value@));
    }

    fn get(&self, key: &String) -> (r: Option<Entry>) {
        match self.map.get(key.as_str()) {
            Some(e) => Some(e.clone()),
            None => None,
        }
    }

    fn pull_out(&mut self, key: &String) -> (r: Option<Entry>) {
        let r = match self.map.get(key.as_str()) {
            Some(e) => Some(e.clone()),
            None => None,
        };
        self.map.remove(key.as_str());
        assert(self.contents() =~= old(self).contents().remove(key@));
        r
    }

    fn remove(&mut self, key: &String) {
        self.map.remove(key.as_str());
        assert(self.contents() =~= old(self).contents().remove(key@));
    }
}

} // verus!
