//! A hash set of integers backed by the open-addressing map.
use vstd::prelude::*;
use crate::collections::hasher::{BuildFnvHasher, KeyHashBuilder};
use crate::collections::open_address::{OpenAddressMap, bucket_limit, least_pow2_at_least};
use crate::collections::traits::{KernelMap, KernelSet};

verus! {

pub struct HashSet<S = BuildFnvHasher> {
    map: OpenAddressMap<(), S>,
}

impl HashSet<BuildFnvHasher> {
    pub fn new() -> (r: Self)
        ensures
            r.wf(),
            r.elements() == Set::<u64>::empty(),
    {
        let map = OpenAddressMap::new();
        proof {
            assert(map@.dom() =~= Set::<u64>::empty());
        }
        HashSet { map }
    }

    pub fn with_capacity(capacity: usize) -> (r: Self)
        requires
            capacity <= bucket_limit() / 2,
        ensures
            r.wf(),
            r.elements() == Set::<u64>::empty(),
            least_pow2_at_least(r.bucket_count() as int, if capacity < 4 { 4 } else { capacity as int }),
    {
        let map = OpenAddressMap::with_capacity(capacity);
        proof {
            assert(map@.dom() =~= Set::<u64>::empty());
        }
        HashSet { map }
    }
}

impl<S: KeyHashBuilder> HashSet<S> {
    pub closed spec fn bucket_count(&self) -> nat {
        self.map.bucket_count()
    }

    pub fn with_hasher(hasher_builder: S) -> (r: Self)
        ensures
            r.wf(),
            r.elements() == Set::<u64>::empty(),
    {
        let map = OpenAddressMap::with_hasher(hasher_builder);
        proof {
            assert(map@.dom() =~= Set::<u64>::empty());
        }
        HashSet { map }
    }

    /// The elements in bucket order.
    pub closed spec fn ordered(&self) -> Seq<u64> {
        self.map.bucket_entries().map_values(|e: (u64, ())| e.0)
    }

    /// The elements, in bucket order.
    pub fn iter(&self) -> (r: Vec<u64>)
        requires
            self.wf(),
        ensures
            r@ == self.ordered(),
    {
        let entries = self.map.iter();
        let mut r: Vec<u64> = Vec::new();
        let mut i: usize = 0;
        while i < entries.len()
            invariant
                i <= entries@.len(),
                r@.len() == i,
                entries@.len() == self.map.bucket_entries().len(),
                forall|j: int|
                    0 <= j < entries@.len() ==> (#[trigger] entries@[j]).0 == self.map.bucket_entries()[j].0,
                forall|j: int| 0 <= j < i ==> #[trigger] r@[j] == self.map.bucket_entries()[j].0,
            decreases entries@.len() - i,
        {
            r.push(entries[i].0);
            i = i + 1;
        }
        proof {
            assert(r@ =~= self.ordered());
        }
        r
    }
}

impl Default for HashSet<BuildFnvHasher> {
    fn default() -> (r: Self)
        ensures
            r.wf(),
            r.elements() == Set::<u64>::empty(),
    {
        Self::new()
    }
}

impl<S: KeyHashBuilder> HashSet<S> {
    /// Whether the set may still grow (`within_limits`).
    pub fn room_to_grow(&self) -> (r: bool)
        ensures
            r == self.within_limits(),
    {
        self.map.room_to_grow()
    }
}

impl<S: KeyHashBuilder> KernelSet for HashSet<S> {
    closed spec fn wf(&self) -> bool {
        self.map.wf()
    }

    closed spec fn elements(&self) -> Set<u64> {
        self.map.entries().dom()
    }

    closed spec fn within_limits(&self) -> bool {
        self.map.within_limits()
    }

    fn insert(&mut self, value: u64) -> (r: bool) {
        let r = self.map.insert(value, ()).is_none();
        proof {
            assert(self.map.entries().dom() =~= old(self).map.entries().dom().insert(value));
        }
        r
    }

    fn contains(&self, value: u64) -> (r: bool) {
        self.map.contains_key(value)
    }

    fn remove(&mut self, value: u64) -> (r: bool) {
        let r = self.map.remove(value).is_some();
        proof {
            assert(self.map.entries().dom() =~= old(self).map.entries().dom().remove(value));
        }
        r
    }

    fn len(&self) -> (r: usize) {
        self.map.len()
    }

    fn clear(&mut self) {
        self.map.clear();
        proof {
            assert(self.map.entries().dom() =~= Set::<u64>::empty());
        }
    }
}

} // verus!
