//! Collection interfaces shared by the kernel's maps and sets.
use vstd::prelude::*;

verus! {

/// An associative key-value map with integer keys.
pub trait KernelMap<V>: Sized {
    /// The well-formedness invariant of the implementation.
    spec fn wf(&self) -> bool;

    /// The contents as a mathematical map.
    spec fn entries(&self) -> Map<u64, V>;

    /// Whether inserting `key` takes effect (a fixed-capacity map that is
    /// full drops inserts of new keys).
    spec fn has_room(&self, key: u64) -> bool;

    /// Machine limits under which an insert cannot overflow.
    spec fn within_limits(&self) -> bool;

    /// Inserts `key -> value`; returns the previous value of `key`, if any.
    fn insert(&mut self, key: u64, value: V) -> (r: Option<V>)
        requires
            old(self).wf(),
            old(self).within_limits(),
        ensures
            final(self).wf(),
            old(self).has_room(key) ==> final(self).entries() == old(self).entries().insert(key, value),
            !old(self).has_room(key) ==> final(self).entries() == old(self).entries(),
            final(self).entries().dom().finite(),
            final(self).entries().len() == old(self).entries().len() + (if old(self).has_room(key)
                && !old(self).entries().contains_key(key) {
                1int
            } else {
                0
            }),
            r == (if old(self).entries().contains_key(key) {
                Some(old(self).entries()[key])
            } else {
                None::<V>
            }),
    ;

    fn get(&self, key: u64) -> (r: Option<&V>)
        requires
            self.wf(),
        ensures
            r == (if self.entries().contains_key(key) {
                Some(&self.entries()[key])
            } else {
                None::<&V>
            }),
    ;

    /// Removes `key`; returns its value, if it was present.
    fn remove(&mut self, key: u64) -> (r: Option<V>)
        requires
            old(self).wf(),
        ensures
            final(self).wf(),
            final(self).entries() == old(self).entries().remove(key),
            final(self).entries().dom().finite(),
            final(self).entries().len() == old(self).entries().len() - (if old(self).entries().contains_key(key) {
                1int
            } else {
                0
            }),
            r == (if old(self).entries().contains_key(key) {
                Some(old(self).entries()[key])
            } else {
                None::<V>
            }),
    ;

    fn contains_key(&self, key: u64) -> (r: bool)
        requires
            self.wf(),
        ensures
            r == self.entries().contains_key(key),
    {
        self.get(key).is_some()
    }

    fn len(&self) -> (r: usize)
        requires
            self.wf(),
        ensures
            r == self.entries().len(),
            self.entries().dom().finite(),
    ;

    fn is_empty(&self) -> (r: bool)
        requires
            self.wf(),
        ensures
            r == (self.entries().len() == 0),
    {
        self.len() == 0
    }

    /// Removes every entry.
    fn clear(&mut self)
        requires
            old(self).wf(),
        ensures
            final(self).wf(),
            final(self).entries() == Map::<u64, V>::empty(),
    ;
}

/// A set of integers.
pub trait KernelSet: Sized {
    spec fn wf(&self) -> bool;

    spec fn elements(&self) -> Set<u64>;

    /// Machine limits under which an insert cannot overflow.
    spec fn within_limits(&self) -> bool;

    /// Adds `value`; returns whether it was newly inserted.
    fn insert(&mut self, value: u64) -> (r: bool)
        requires
            old(self).wf(),
            old(self).within_limits(),
        ensures
            final(self).wf(),
            final(self).elements() == old(self).elements().insert(value),
            r == !old(self).elements().contains(value),
            final(self).elements().finite(),
            final(self).elements().len() == old(self).elements().len() + (if r { 1int } else { 0 }),
    ;

    fn contains(&self, value: u64) -> (r: bool)
        requires
            self.wf(),
        ensures
            r == self.elements().contains(value),
    ;

    /// Removes `value`; returns whether it was present.
    fn remove(&mut self, value: u64) -> (r: bool)
        requires
            old(self).wf(),
        ensures
            final(self).wf(),
            final(self).elements() == old(self).elements().remove(value),
            r == old(self).elements().contains(value),
            final(self).elements().finite(),
            final(self).elements().len() == old(self).elements().len() - (if r { 1int } else { 0 }),
    ;

    fn len(&self) -> (r: usize)
        requires
            self.wf(),
        ensures
            r == self.elements().len(),
            self.elements().finite(),
    ;

    fn is_empty(&self) -> (r: bool)
        requires
            self.wf(),
        ensures
            r == (self.elements().len() == 0),
    {
        self.len() == 0
    }

    fn clear(&mut self)
        requires
            old(self).wf(),
        ensures
            final(self).wf(),
            final(self).elements() == Set::<u64>::empty(),
    ;
}

} // verus!
