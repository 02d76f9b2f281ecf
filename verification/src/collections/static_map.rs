//! A fixed-capacity key-value map that never grows.
use vstd::prelude::*;
use crate::collections::open_address::{
    Bucket, all_empty, bucket_map, count_nonempty, count_occupied, has_key, key_at, keys_unique,
    lemma_all_empty, lemma_bucket_map_contains, lemma_bucket_map_len, lemma_bucket_map_value,
    lemma_count_all_nonempty, lemma_count_bounds, lemma_count_update, lemma_update_insert,
    lemma_update_replace, lemma_update_vacate, lemma_occupied_entries_list, lists_map, occupied_entries,
};
use crate::collections::traits::KernelMap;

verus! {

/// A fixed-capacity map: at most `CAPACITY` entries, each in its own slot.
/// Inserting a new key into a full map leaves it unchanged.
pub struct StaticMap<V, const CAPACITY: usize> {
    entries: Vec<Bucket<V>>,
    len: usize,
}

impl<V, const CAPACITY: usize> StaticMap<V, CAPACITY> {
    pub closed spec fn view(&self) -> Map<u64, V> {
        bucket_map(self.entries@)
    }

    /// Occupied slots in slot order.
    pub closed spec fn slot_entries(&self) -> Seq<(u64, V)> {
        occupied_entries(self.entries@)
    }

    /// The number of occupied slots.
    pub closed spec fn used(&self) -> nat {
        count_occupied(self.entries@)
    }

    pub closed spec fn well_formed(&self) -> bool {
        &&& self.entries@.len() == CAPACITY
        &&& keys_unique(self.entries@)
        &&& self.len == count_occupied(self.entries@)
        &&& count_nonempty(self.entries@) == count_occupied(self.entries@)
    }

    pub fn new() -> (r: Self)
        ensures
            r.well_formed(),
            r@ == Map::<u64, V>::empty(),
    {
        let mut entries: Vec<Bucket<V>> = Vec::new();
        let mut n: usize = 0;
        while n < CAPACITY
            invariant
                n <= CAPACITY,
                entries@.len() == n,
                all_empty(entries@),
            decreases CAPACITY - n,
        {
            entries.push(Bucket::Empty);
            n = n + 1;
        }
        proof {
            lemma_all_empty(entries@);
        }
        StaticMap { entries, len: 0 }
    }

    pub fn capacity(&self) -> (r: usize)
        ensures
            r == CAPACITY,
    {
        CAPACITY
    }

    /// The entries, in slot order.
    pub fn iter(&self) -> (r: Vec<(u64, &V)>)
        ensures
            r@.len() == self.slot_entries().len(),
            forall|i: int|
                0 <= i < r@.len() ==> (#[trigger] r@[i]).0 == self.slot_entries()[i].0 && *r@[i].1
                    == self.slot_entries()[i].1,
            self.well_formed() ==> lists_map(self.slot_entries(), self@) && self@.len() <= CAPACITY,
    {
        proof {
            if self.well_formed() {
                lemma_occupied_entries_list(self.entries@);
                lemma_count_bounds(self.entries@);
                lemma_bucket_map_len(self.entries@);
            }
        }
        let mut r: Vec<(u64, &V)> = Vec::new();
        let mut i: usize = 0;
        while i < self.entries.len()
            invariant
                i <= self.entries@.len(),
                r@.len() == occupied_entries(self.entries@.subrange(0, i as int)).len(),
                forall|j: int|
                    0 <= j < r@.len() ==> (#[trigger] r@[j]).0 == occupied_entries(
                        self.entries@.subrange(0, i as int),
                    )[j].0 && *r@[j].1 == occupied_entries(self.entries@.subrange(0, i as int))[j].1,
            decreases self.entries@.len() - i,
        {
            proof {
                assert(self.entries@.subrange(0, i as int + 1).drop_last() =~= self.entries@.subrange(
                    0,
                    i as int,
                ));
            }
            match &self.entries[i] {
                Bucket::Occupied(k, v) => {
                    r.push((*k, v));
                },
                _ => {},
            }
            i = i + 1;
        }
        proof {
            assert(self.entries@.subrange(0, i as int) =~= self.entries@);
        }
        r
    }

    /// Index of the slot holding `key`, if any.
    fn find(&self, key: u64) -> (r: Option<usize>)
        requires
            self.well_formed(),
        ensures
            r matches Some(i) ==> key_at(self.entries@, i as int, key),
            r is None ==> !has_key(self.entries@, key),
    {
        let mut i: usize = 0;
        while i < self.entries.len()
            invariant
                i <= self.entries@.len(),
                forall|j: int| 0 <= j < i ==> !key_at(self.entries@, j, key),
            decreases self.entries@.len() - i,
        {
            let hit = match &self.entries[i] {
                Bucket::Occupied(k, _) => *k == key,
                _ => false,
            };
            if hit {
                return Some(i);
            }
            i = i + 1;
        }
        None
    }
}

impl<V, const CAPACITY: usize> Default for StaticMap<V, CAPACITY> {
    fn default() -> (r: Self)
        ensures
            r.well_formed(),
            r@ == Map::<u64, V>::empty(),
    {
        Self::new()
    }
}

impl<V, const CAPACITY: usize> KernelMap<V> for StaticMap<V, CAPACITY> {
    open spec fn wf(&self) -> bool {
        self.well_formed()
    }

    open spec fn entries(&self) -> Map<u64, V> {
        self@
    }

    open spec fn has_room(&self, key: u64) -> bool {
        self@.contains_key(key) || self@.len() < CAPACITY
    }

    open spec fn within_limits(&self) -> bool {
        true
    }

    fn insert(&mut self, key: u64, value: V) -> (r: Option<V>) {
        let ghost b = self.entries@;
        proof {
            lemma_bucket_map_contains(b, key);
            lemma_bucket_map_len(b);
        }
        match self.find(key) {
            Some(i) => {
                let mut replaced = Bucket::Occupied(key, value);
                std::mem::swap(&mut self.entries[i], &mut replaced);
                proof {
                    lemma_update_replace(b, i as int, value);
                    lemma_count_update(b, i as int, Bucket::Occupied(key, value));
                    lemma_bucket_map_value(b, i as int);
                    assert(self.entries@ == b.update(i as int, Bucket::Occupied(b[i as int]->0, value)));
                    lemma_bucket_map_len(self.entries@);
                }
                match replaced {
                    Bucket::Occupied(_, v) => Some(v),
                    _ => None,
                }
            },
            None => {
                let mut i: usize = 0;
                while i < self.entries.len()
                    invariant
                        self.entries@ == b,
                        self.well_formed(),
                        !has_key(b, key),
                        bucket_map(b) == old(self)@,
                        old(self).entries@ == b,
                        i <= b.len(),
                        forall|j: int| 0 <= j < i ==> !(#[trigger] b[j] is Empty),
                    decreases b.len() - i,
                {
                    let empty = match &self.entries[i] {
                        Bucket::Empty => true,
                        _ => false,
                    };
                    if empty {
                        self.entries[i] = Bucket::Occupied(key, value);
                        proof {
                            lemma_update_insert(b, i as int, key, value);
                            lemma_count_update(b, i as int, Bucket::Occupied(key, value));
                            lemma_count_bounds(self.entries@);
                            lemma_bucket_map_contains(b, key);
                            lemma_bucket_map_len(b);
                        }
                        self.len = self.len + 1;
                        proof {
                            lemma_bucket_map_len(self.entries@);
                        }
                        return None;
                    }
                    i = i + 1;
                }
                proof {
                    lemma_count_all_nonempty(b);
                    lemma_bucket_map_len(b);
                }
                None
            },
        }
    }

    fn get(&self, key: u64) -> (r: Option<&V>) {
        proof {
            lemma_bucket_map_contains(self.entries@, key);
        }
        match self.find(key) {
            Some(i) => {
                proof {
                    lemma_bucket_map_value(self.entries@, i as int);
                }
                match &self.entries[i] {
                    Bucket::Occupied(_, v) => Some(v),
                    _ => None,
                }
            },
            None => None,
        }
    }

    fn remove(&mut self, key: u64) -> (r: Option<V>) {
        let ghost b = self.entries@;
        proof {
            lemma_bucket_map_contains(b, key);
            lemma_bucket_map_len(b);
        }
        match self.find(key) {
            Some(i) => {
                let mut removed = Bucket::Empty;
                std::mem::swap(&mut self.entries[i], &mut removed);
                proof {
                    lemma_update_vacate(b, i as int, Bucket::Empty);
                    lemma_count_update(b, i as int, Bucket::Empty);
                    lemma_bucket_map_value(b, i as int);
                    assert(self.entries@ == b.update(i as int, Bucket::Empty));
                    lemma_bucket_map_len(self.entries@);
                }
                self.len = self.len - 1;
                match removed {
                    Bucket::Occupied(_, v) => Some(v),
                    _ => None,
                }
            },
            None => {
                proof {
                    assert(bucket_map(b).remove(key) =~= bucket_map(b));
                }
                None
            },
        }
    }

    fn len(&self) -> (r: usize) {
        proof {
            lemma_bucket_map_len(self.entries@);
        }
        self.len
    }

    fn clear(&mut self) {
        let mut i: usize = 0;
        while i < self.entries.len()
            invariant
                i <= self.entries@.len(),
                self.entries@.len() == CAPACITY,
                forall|j: int| 0 <= j < i ==> #[trigger] self.entries@[j] is Empty,
            decreases self.entries@.len() - i,
        {
            self.entries[i] = Bucket::Empty;
            i = i + 1;
        }
        proof {
            lemma_all_empty(self.entries@);
        }
        self.len = 0;
    }
}

} // verus!
