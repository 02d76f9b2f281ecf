//! Open-addressing hash map with linear probing and tombstones.
use vstd::prelude::*;
use crate::collections::hasher::{BuildFnvHasher, KeyHashBuilder};
use crate::collections::traits::KernelMap;

verus! {

pub const INITIAL_CAPACITY: usize = 16;
pub const MAX_LOAD_FACTOR_PERCENT: usize = 70;
/// Bucket-count bound under which the load arithmetic cannot overflow: a
/// bucket takes at least 16 bytes, so a table of `usize::MAX / 256` buckets
/// would need sixteen times the whole address space.
pub open spec fn bucket_limit() -> int {
    usize::MAX as int / 256
}

pub enum Bucket<V> {
    Empty,
    Occupied(u64, V),
    Tombstone,
}

// ---------------------------------------------------------------------------
// The model of a bucket array.

pub open spec fn key_at<V>(b: Seq<Bucket<V>>, i: int, k: u64) -> bool {
    &&& 0 <= i < b.len()
    &&& b[i] is Occupied
    &&& b[i]->0 == k
}

pub open spec fn has_key<V>(b: Seq<Bucket<V>>, k: u64) -> bool {
    exists|i: int| key_at(b, i, k)
}

/// No key occupies two buckets.
pub open spec fn keys_unique<V>(b: Seq<Bucket<V>>) -> bool {
    forall|i: int, j: int, k: u64| #[trigger] key_at(b, i, k) && #[trigger] key_at(b, j, k) ==> i == j
}

/// The key-value pairs held by the occupied buckets.
pub open spec fn bucket_map<V>(b: Seq<Bucket<V>>) -> Map<u64, V>
    decreases b.len(),
{
    if b.len() == 0 {
        Map::empty()
    } else {
        let m = bucket_map(b.drop_last());
        match b.last() {
            Bucket::Occupied(k, v) => m.insert(k, v),
            _ => m,
        }
    }
}

pub open spec fn occupied_weight<V>(x: Bucket<V>) -> nat {
    if x is Occupied {
        1
    } else {
        0
    }
}

pub open spec fn nonempty_weight<V>(x: Bucket<V>) -> nat {
    if x is Empty {
        0
    } else {
        1
    }
}

pub open spec fn count_occupied<V>(b: Seq<Bucket<V>>) -> nat
    decreases b.len(),
{
    if b.len() == 0 {
        0
    } else {
        count_occupied(b.drop_last()) + occupied_weight(b.last())
    }
}

pub open spec fn count_nonempty<V>(b: Seq<Bucket<V>>) -> nat
    decreases b.len(),
{
    if b.len() == 0 {
        0
    } else {
        count_nonempty(b.drop_last()) + nonempty_weight(b.last())
    }
}

/// The bucket visited `d` steps after `h` in a table of `cap` buckets.
pub open spec fn probe(h: int, d: int, cap: int) -> int {
    if h + d < cap {
        h + d
    } else {
        h + d - cap
    }
}

/// Number of steps from `h` to `i`, wrapping around.
pub open spec fn dist(h: int, i: int, cap: int) -> int {
    if i >= h {
        i - h
    } else {
        i + cap - h
    }
}

pub open spec fn all_empty<V>(b: Seq<Bucket<V>>) -> bool {
    forall|i: int| 0 <= i < b.len() ==> #[trigger] b[i] is Empty
}

// ---------------------------------------------------------------------------
// Lemmas about the model.

pub(crate) proof fn lemma_drop_last_unique<V>(b: Seq<Bucket<V>>)
    requires
        b.len() > 0,
        keys_unique(b),
    ensures
        keys_unique(b.drop_last()),
{
    let s = b.drop_last();
    assert forall|i: int, j: int, k: u64| #[trigger] key_at(s, i, k) && #[trigger] key_at(s, j, k) implies i
        == j by {
        assert(key_at(b, i, k));
        assert(key_at(b, j, k));
    }
}

pub(crate) proof fn lemma_bucket_map_contains<V>(b: Seq<Bucket<V>>, k: u64)
    ensures
        bucket_map(b).contains_key(k) == has_key(b, k),
    decreases b.len(),
{
    if b.len() > 0 {
        let s = b.drop_last();
        lemma_bucket_map_contains(s, k);
        if has_key(s, k) {
            let i = choose|i: int| key_at(s, i, k);
            assert(key_at(b, i, k));
        }
        if has_key(b, k) {
            let i = choose|i: int| key_at(b, i, k);
            if i < b.len() - 1 {
                assert(key_at(s, i, k));
            }
        }
        if b.last() is Occupied && b.last()->0 == k {
            assert(key_at(b, b.len() - 1, k));
        }
    }
}

pub(crate) proof fn lemma_bucket_map_value<V>(b: Seq<Bucket<V>>, i: int)
    requires
        keys_unique(b),
        0 <= i < b.len(),
        b[i] is Occupied,
    ensures
        bucket_map(b).contains_key(b[i]->0),
        bucket_map(b)[b[i]->0] == b[i]->1,
    decreases b.len(),
{
    let s = b.drop_last();
    let k = b[i]->0;
    if i < b.len() - 1 {
        lemma_drop_last_unique(b);
        lemma_bucket_map_value(s, i);
        if b.last() is Occupied {
            assert(key_at(b, i, k));
            if b.last()->0 == k {
                assert(key_at(b, b.len() - 1, k));
            }
        }
    }
}

pub(crate) proof fn lemma_bucket_map_len<V>(b: Seq<Bucket<V>>)
    requires
        keys_unique(b),
    ensures
        bucket_map(b).dom().finite(),
        bucket_map(b).len() == count_occupied(b),
    decreases b.len(),
{
    if b.len() > 0 {
        let s = b.drop_last();
        lemma_drop_last_unique(b);
        lemma_bucket_map_len(s);
        if b.last() is Occupied {
            let k = b.last()->0;
            lemma_bucket_map_contains(s, k);
            if has_key(s, k) {
                let i = choose|i: int| key_at(s, i, k);
                assert(key_at(b, i, k));
                assert(key_at(b, b.len() - 1, k));
            }
        }
    }
}

pub(crate) proof fn lemma_update_drop_last<V>(b: Seq<Bucket<V>>, t: int, x: Bucket<V>)
    requires
        0 <= t < b.len() - 1,
    ensures
        b.update(t, x).drop_last() == b.drop_last().update(t, x),
        b.update(t, x).last() == b.last(),
{
    assert(b.update(t, x).drop_last() =~= b.drop_last().update(t, x));
}

/// Writing a new key into a non-occupied bucket inserts it into the map.
pub(crate) proof fn lemma_update_insert<V>(b: Seq<Bucket<V>>, t: int, k: u64, v: V)
    requires
        keys_unique(b),
        0 <= t < b.len(),
        !(b[t] is Occupied),
        !has_key(b, k),
    ensures
        keys_unique(b.update(t, Bucket::Occupied(k, v))),
        bucket_map(b.update(t, Bucket::Occupied(k, v))) == bucket_map(b).insert(k, v),
    decreases b.len(),
{
    let x = Bucket::Occupied(k, v);
    let b2 = b.update(t, x);
    assert forall|i: int, j: int, kk: u64| #[trigger] key_at(b2, i, kk) && #[trigger] key_at(b2, j, kk) implies i
        == j by {
        if i != t && j != t {
            assert(key_at(b, i, kk));
            assert(key_at(b, j, kk));
        } else if i == t && j != t {
            assert(key_at(b, j, k));
        } else if j == t && i != t {
            assert(key_at(b, i, k));
        }
    }
    let s = b.drop_last();
    if t == b.len() - 1 {
        assert(b2.drop_last() =~= s);
    } else {
        lemma_update_drop_last(b, t, x);
        lemma_drop_last_unique(b);
        assert(!has_key(s, k)) by {
            if has_key(s, k) {
                let i = choose|i: int| key_at(s, i, k);
                assert(key_at(b, i, k));
            }
        }
        lemma_update_insert(s, t, k, v);
        if b.last() is Occupied {
            let k2 = b.last()->0;
            if k2 == k {
                assert(key_at(b, b.len() - 1, k));
            }
            assert(bucket_map(s).insert(k, v).insert(k2, b.last()->1) =~= bucket_map(s).insert(
                k2,
                b.last()->1,
            ).insert(k, v));
        }
    }
}

/// Overwriting the value in an occupied bucket updates that key's value.
pub(crate) proof fn lemma_update_replace<V>(b: Seq<Bucket<V>>, t: int, v: V)
    requires
        keys_unique(b),
        0 <= t < b.len(),
        b[t] is Occupied,
    ensures
        keys_unique(b.update(t, Bucket::Occupied(b[t]->0, v))),
        bucket_map(b.update(t, Bucket::Occupied(b[t]->0, v))) == bucket_map(b).insert(b[t]->0, v),
    decreases b.len(),
{
    let k = b[t]->0;
    let x = Bucket::Occupied(k, v);
    let b2 = b.update(t, x);
    assert forall|i: int, j: int, kk: u64| #[trigger] key_at(b2, i, kk) && #[trigger] key_at(b2, j, kk) implies i
        == j by {
        assert(key_at(b, i, kk));
        assert(key_at(b, j, kk));
    }
    let s = b.drop_last();
    if t == b.len() - 1 {
        assert(b2.drop_last() =~= s);
        assert(bucket_map(s).insert(k, b[t]->1).insert(k, v) =~= bucket_map(s).insert(k, v));
    } else {
        lemma_update_drop_last(b, t, x);
        lemma_drop_last_unique(b);
        lemma_update_replace(s, t, v);
        if b.last() is Occupied {
            let k2 = b.last()->0;
            if k2 == k {
                assert(key_at(b, b.len() - 1, k));
                assert(key_at(b, t, k));
            }
            assert(bucket_map(s).insert(k, v).insert(k2, b.last()->1) =~= bucket_map(s).insert(
                k2,
                b.last()->1,
            ).insert(k, v));
        }
    }
}

/// Turning an occupied bucket into a non-occupied one removes its key.
pub(crate) proof fn lemma_update_vacate<V>(b: Seq<Bucket<V>>, t: int, x: Bucket<V>)
    requires
        keys_unique(b),
        0 <= t < b.len(),
        b[t] is Occupied,
        !(x is Occupied),
    ensures
        keys_unique(b.update(t, x)),
        bucket_map(b.update(t, x)) == bucket_map(b).remove(b[t]->0),
    decreases b.len(),
{
    let k = b[t]->0;
    let b2 = b.update(t, x);
    assert forall|i: int, j: int, kk: u64| #[trigger] key_at(b2, i, kk) && #[trigger] key_at(b2, j, kk) implies i
        == j by {
        assert(key_at(b, i, kk));
        assert(key_at(b, j, kk));
    }
    let s = b.drop_last();
    lemma_drop_last_unique(b);
    if t == b.len() - 1 {
        assert(b2.drop_last() =~= s);
        lemma_bucket_map_contains(s, k);
        if has_key(s, k) {
            let i = choose|i: int| key_at(s, i, k);
            assert(key_at(b, i, k));
            assert(key_at(b, t, k));
        }
        assert(bucket_map(s).insert(k, b[t]->1).remove(k) =~= bucket_map(s));
    } else {
        lemma_update_drop_last(b, t, x);
        lemma_update_vacate(s, t, x);
        if b.last() is Occupied {
            let k2 = b.last()->0;
            if k2 == k {
                assert(key_at(b, b.len() - 1, k));
                assert(key_at(b, t, k));
            }
            assert(bucket_map(s).remove(k).insert(k2, b.last()->1) =~= bucket_map(s).insert(
                k2,
                b.last()->1,
            ).remove(k));
        } else {
            assert(bucket_map(s).remove(k) =~= bucket_map(s).remove(k));
        }
    }
}

pub(crate) proof fn lemma_count_update<V>(b: Seq<Bucket<V>>, t: int, x: Bucket<V>)
    requires
        0 <= t < b.len(),
    ensures
        count_occupied(b.update(t, x)) == count_occupied(b) - occupied_weight(b[t]) + occupied_weight(x),
        count_nonempty(b.update(t, x)) == count_nonempty(b) - nonempty_weight(b[t]) + nonempty_weight(x),
    decreases b.len(),
{
    if t == b.len() - 1 {
        assert(b.update(t, x).drop_last() =~= b.drop_last());
    } else {
        lemma_update_drop_last(b, t, x);
        lemma_count_update(b.drop_last(), t, x);
    }
}

pub(crate) proof fn lemma_count_bounds<V>(b: Seq<Bucket<V>>)
    ensures
        count_occupied(b) <= count_nonempty(b) <= b.len(),
    decreases b.len(),
{
    if b.len() > 0 {
        lemma_count_bounds(b.drop_last());
    }
}

pub(crate) proof fn lemma_exists_empty<V>(b: Seq<Bucket<V>>) -> (i: int)
    requires
        count_nonempty(b) < b.len(),
    ensures
        0 <= i < b.len(),
        b[i] is Empty,
    decreases b.len(),
{
    if b.last() is Empty {
        b.len() - 1
    } else {
        let i = lemma_exists_empty(b.drop_last());
        assert(b.drop_last()[i] == b[i]);
        i
    }
}

pub(crate) proof fn lemma_count_all_nonempty<V>(b: Seq<Bucket<V>>)
    requires
        forall|i: int| 0 <= i < b.len() ==> !(#[trigger] b[i] is Empty),
    ensures
        count_nonempty(b) == b.len(),
    decreases b.len(),
{
    if b.len() > 0 {
        assert(!(b[b.len() - 1] is Empty));
        assert forall|i: int| 0 <= i < b.drop_last().len() implies !(#[trigger] b.drop_last()[i] is Empty) by {
            assert(!(b[i] is Empty));
        }
        lemma_count_all_nonempty(b.drop_last());
    }
}

pub(crate) proof fn lemma_all_empty<V>(b: Seq<Bucket<V>>)
    requires
        all_empty(b),
    ensures
        count_occupied(b) == 0,
        count_nonempty(b) == 0,
        bucket_map(b) == Map::<u64, V>::empty(),
        keys_unique(b),
    decreases b.len(),
{
    if b.len() > 0 {
        assert(b.last() is Empty);
        assert(all_empty(b.drop_last())) by {
            assert forall|i: int| 0 <= i < b.drop_last().len() implies #[trigger] b.drop_last()[i] is Empty by {
                assert(b[i] is Empty);
            }
        }
        lemma_all_empty(b.drop_last());
    }
}


proof fn lemma_count_prefix_monotone<V>(b: Seq<Bucket<V>>, n: int)
    requires
        0 <= n <= b.len(),
    ensures
        count_occupied(b.subrange(0, n)) <= count_occupied(b),
    decreases b.len() - n,
{
    if n < b.len() {
        lemma_count_prefix_monotone(b, n + 1);
        assert(b.subrange(0, n + 1).drop_last() =~= b.subrange(0, n));
    } else {
        assert(b.subrange(0, n) =~= b);
    }
}

/// The least power of two that is at least `n` (and at least 1).
pub open spec fn is_pow2(n: int) -> bool
    decreases n,
{
    if n <= 0 {
        false
    } else if n == 1 {
        true
    } else {
        n % 2 == 0 && is_pow2(n / 2)
    }
}

/// `p` is the least power of two that is `>= n`.
pub open spec fn least_pow2_at_least(p: int, n: int) -> bool {
    &&& is_pow2(p)
    &&& p >= n
    &&& (p == 1 || p / 2 < n)
}

/// `max(n, 4)` rounded up to a power of two.
pub(crate) fn bucket_count_for(n: usize) -> (p: usize)
    requires
        n <= bucket_limit(),
    ensures
        least_pow2_at_least(p as int, if n < 4 { 4 } else { n as int }),
        4 <= p <= 2 * (if n < 4 { 4 } else { n as int }),
{
    let target: usize = if n < 4 { 4 } else { n };
    let mut p: usize = 1;
    while p < target
        invariant
            is_pow2(p as int),
            1 <= p,
            p == 1 || p / 2 < target,
            target <= bucket_limit(),
            target >= 4,
        decreases 2 * target - p,
    {
        proof {
            assert(is_pow2((2 * p) as int)) by {
                assert((2 * p) as int / 2 == p as int);
            }
        }
        p = p * 2;
    }
    p
}

pub open spec fn home_in<S: KeyHashBuilder>(hb: S, k: u64, cap: int) -> int {
    (hb.spec_hash_u64(k) as int) % cap
}

/// Every bucket on the probe path from a key's home to its bucket is non-empty.
pub open spec fn chain_clear<V, S: KeyHashBuilder>(hb: S, b: Seq<Bucket<V>>, i: int) -> bool {
    b[i] is Occupied ==> {
        let h = home_in(hb, b[i]->0, b.len() as int);
        forall|d: int|
            0 <= d < dist(h, i, b.len() as int) ==> !(#[trigger] b[probe(h, d, b.len() as int)] is Empty)
    }
}

pub open spec fn table_ok<V, S: KeyHashBuilder>(hb: S, b: Seq<Bucket<V>>) -> bool {
    &&& keys_unique(b)
    &&& forall|i: int| 0 <= i < b.len() ==> #[trigger] chain_clear(hb, b, i)
}

/// An open-addressing hash map from `u64` keys with linear probing.
pub struct OpenAddressMap<V, S = BuildFnvHasher> {
    buckets: Vec<Bucket<V>>,
    len: usize,
    occupied_count: usize,
    hasher_builder: S,
}

impl<V, S: KeyHashBuilder> OpenAddressMap<V, S> {
    /// Whether the table may still grow by doubling (`within_limits`).
    pub fn room_to_grow(&self) -> (r: bool)
        ensures
            r == (2 * self.bucket_count() <= bucket_limit()),
    {
        self.buckets.len() <= usize::MAX / 256 / 2
    }

    pub closed spec fn view(&self) -> Map<u64, V> {
        bucket_map(self.buckets@)
    }

    pub closed spec fn hasher(&self) -> S {
        self.hasher_builder
    }

    /// The number of buckets.
    pub closed spec fn bucket_count(&self) -> nat {
        self.buckets@.len()
    }

    /// Occupied buckets in bucket order.
    pub closed spec fn bucket_entries(&self) -> Seq<(u64, V)> {
        occupied_entries(self.buckets@)
    }

    pub closed spec fn well_formed(&self) -> bool {
        let b = self.buckets@;
        &&& 4 <= b.len() <= bucket_limit()
        &&& table_ok(self.hasher_builder, b)
        &&& self.len == count_occupied(b)
        &&& self.occupied_count == count_nonempty(b)
        &&& self.occupied_count < b.len()
    }

    proof fn lemma_absent(&self, b: Seq<Bucket<V>>, key: u64, d: int)
        requires
            table_ok(self.hasher_builder, b),
            b.len() > 0,
            0 <= d < b.len(),
            b[probe(home_in(self.hasher_builder, key, b.len() as int), d, b.len() as int)] is Empty,
            forall|e: int|
                0 <= e < d ==> !key_at(b, #[trigger] probe(home_in(self.hasher_builder, key, b.len() as int), e, b.len() as int), key),
        ensures
            !has_key(b, key),
    {
        let cap = b.len() as int;
        let h = home_in(self.hasher_builder, key, cap);
        if has_key(b, key) {
            let i = choose|i: int| key_at(b, i, key);
            let dd = dist(h, i, cap);
            assert(probe(h, dd, cap) == i);
            assert(chain_clear(self.hasher_builder, b, i));
            if dd < d {
                assert(!key_at(b, probe(h, dd, cap), key));
            } else if dd > d {
                assert(!(b[probe(h, d, cap)] is Empty));
            }
        }
    }

    proof fn lemma_probe_hits_empty(&self, b: Seq<Bucket<V>>, h: int)
        requires
            0 <= h < b.len(),
            count_nonempty(b) < b.len(),
        ensures
            exists|d: int| 0 <= d < b.len() && #[trigger] b[probe(h, d, b.len() as int)] is Empty,
    {
        let i = lemma_exists_empty(b);
        let d = dist(h, i, b.len() as int);
        assert(probe(h, d, b.len() as int) == i);
        assert(b[probe(h, d, b.len() as int)] is Empty);
    }

    /// The chain property survives changes that only fill buckets, as long as
    /// the occupied buckets other than `t` are untouched.
    proof fn lemma_chains_kept(&self, b: Seq<Bucket<V>>, b2: Seq<Bucket<V>>, t: int)
        requires
            forall|i: int| 0 <= i < b.len() ==> #[trigger] chain_clear(self.hasher_builder, b, i),
            b2.len() == b.len(),
            forall|i: int| 0 <= i < b.len() && i != t ==> #[trigger] b2[i] == b[i],
            !(b[t] is Empty) ==> !(b2[t] is Empty),
            0 <= t < b.len(),
            chain_clear(self.hasher_builder, b2, t),
        ensures
            forall|i: int| 0 <= i < b2.len() ==> #[trigger] chain_clear(self.hasher_builder, b2, i),
    {
        assert forall|i: int| 0 <= i < b2.len() implies #[trigger] chain_clear(self.hasher_builder, b2, i) by {
            if i != t {
                assert(b2[i] == b[i]);
                assert(chain_clear(self.hasher_builder, b, i));
                if b2[i] is Occupied {
                    let h = home_in(self.hasher_builder, b2[i]->0, b2.len() as int);
                    assert forall|d: int| 0 <= d < dist(h, i, b2.len() as int) implies !(
                    #[trigger] b2[probe(h, d, b2.len() as int)] is Empty) by {
                        let j = probe(h, d, b.len() as int);
                        assert(!(b[j] is Empty));
                        if j != t {
                            assert(b2[j] == b[j]);
                        }
                    }
                }
            }
        }
    }

    /// First empty bucket on the probe path from `h`, in a table without
    /// tombstones, and its distance from `h`.
    fn first_empty(&self, h: usize) -> (r: (usize, usize))
        requires
            0 <= h < self.buckets@.len(),
            count_nonempty(self.buckets@) < self.buckets@.len(),
            forall|i: int| 0 <= i < self.buckets@.len() ==> !(#[trigger] self.buckets@[i] is Tombstone),
        ensures
            r.0 < self.buckets@.len(),
            r.1 < self.buckets@.len(),
            r.0 == probe(h as int, r.1 as int, self.buckets@.len() as int),
            self.buckets@[r.0 as int] is Empty,
            forall|e: int| 0 <= e < r.1 ==> !(#[trigger] self.buckets@[probe(h as int, e, self.buckets@.len() as int)] is Empty),
    {
        let cap = self.buckets.len();
        let mut idx = h;
        let mut d: usize = 0;
        proof {
            self.lemma_probe_hits_empty(self.buckets@, h as int);
        }
        loop
            invariant
                cap == self.buckets@.len(),
                0 <= h < cap,
                d < cap,
                idx == probe(h as int, d as int, cap as int),
                forall|i: int| 0 <= i < self.buckets@.len() ==> !(#[trigger] self.buckets@[i] is Tombstone),
                forall|e: int| 0 <= e < d ==> !(#[trigger] self.buckets@[probe(h as int, e, cap as int)] is Empty),
                exists|e: int| 0 <= e < cap && #[trigger] self.buckets@[probe(h as int, e, cap as int)] is Empty,
            decreases cap - d,
        {
            let occupied = match &self.buckets[idx] {
                Bucket::Occupied(..) => true,
                _ => false,
            };
            if !occupied {
                return (idx, d);
            }
            proof {
                if d + 1 == cap {
                    let e = choose|e: int| 0 <= e < cap && #[trigger] self.buckets@[probe(h as int, e, cap as int)] is Empty;
                    if e < d {
                    } else {
                        assert(e == d);
                    }
                }
            }
            idx = if idx + 1 == cap { 0 } else { idx + 1 };
            d = d + 1;
        }
    }

    /// Index of the home bucket of `key`.
    fn home_index(&self, key: u64) -> (r: usize)
        requires
            self.buckets@.len() > 0,
        ensures
            r == home_in(self.hasher_builder, key, self.buckets@.len() as int),
            r < self.buckets@.len(),
    {
        let cap = self.buckets.len();
        (self.hash_key(key) % (cap as u64)) as usize
    }

    /// The full hash of `key`.
    fn hash_key(&self, key: u64) -> (r: u64)
        ensures
            r == self.hasher_builder.spec_hash_u64(key),
    {
        self.hasher_builder.hash_u64(key)
    }

    /// Rebuilds the table with twice the buckets (at least the initial
    /// capacity), dropping every tombstone.
    fn resize(&mut self)
        requires
            old(self).well_formed(),
            2 * old(self).bucket_count() <= bucket_limit(),
        ensures
            final(self).well_formed(),
            final(self)@ == old(self)@,
            final(self).bucket_count() == (if 2 * old(self).bucket_count() > INITIAL_CAPACITY {
                2 * old(self).bucket_count()
            } else {
                INITIAL_CAPACITY as nat
            }),
            final(self).occupied_count == count_occupied(old(self).buckets@),
            final(self).hasher_builder == old(self).hasher_builder,
    {
        let new_capacity = if self.buckets.len() * 2 > INITIAL_CAPACITY {
            self.buckets.len() * 2
        } else {
            INITIAL_CAPACITY
        };
        let mut new_buckets: Vec<Bucket<V>> = Vec::with_capacity(new_capacity);
        let mut n: usize = 0;
        while n < new_capacity
            invariant
                n <= new_capacity,
                new_buckets@.len() == n,
                all_empty(new_buckets@),
            decreases new_capacity - n,
        {
            new_buckets.push(Bucket::Empty);
            n = n + 1;
        }
        let ghost old_b = self.buckets@;
        let ghost old_len = self.len;
        let mut old_buckets = new_buckets;
        std::mem::swap(&mut self.buckets, &mut old_buckets);
        self.occupied_count = 0;
        proof {
            lemma_all_empty(self.buckets@);
            lemma_count_bounds(old_b);
        }
        let mut j: usize = 0;
        while j < old_buckets.len()
            invariant
                old_buckets@.len() == old_b.len(),
                forall|i: int| j <= i < old_b.len() ==> #[trigger] old_buckets@[i] == old_b[i],
                j <= old_b.len(),
                keys_unique(old_b),
                count_occupied(old_b) == old_len,
                old_len < old_b.len(),
                self.buckets@.len() == new_capacity,
                new_capacity >= 2 * old_b.len(),
                new_capacity <= bucket_limit(),
                table_ok(self.hasher_builder, self.buckets@),
                forall|i: int| 0 <= i < self.buckets@.len() ==> !(#[trigger] self.buckets@[i] is Tombstone),
                self.occupied_count == count_nonempty(self.buckets@),
                self.occupied_count == count_occupied(self.buckets@),
                self.occupied_count == count_occupied(old_b.subrange(0, j as int)),
                bucket_map(self.buckets@) == bucket_map(old_b.subrange(0, j as int)),
                forall|k: u64| has_key(self.buckets@, k) ==> has_key(old_b.subrange(0, j as int), k),
                self.hasher_builder == old(self).hasher_builder,
            decreases old_b.len() - j,
        {
            let mut bucket = Bucket::Empty;
            std::mem::swap(&mut old_buckets[j], &mut bucket);
            let ghost pre = old_b.subrange(0, j as int);
            let ghost post = old_b.subrange(0, j as int + 1);
            proof {
                assert(post.drop_last() =~= pre);
                assert(post.last() == old_b[j as int]);
                assert(self.hasher_builder == old(self).hasher_builder);
                lemma_count_prefix_monotone(old_b, j as int + 1);
            }
            match bucket {
                Bucket::Occupied(key, value) => {
                    let cap = self.buckets.len();
                    let h = self.home_index(key);
                    proof {
                        lemma_count_bounds(self.buckets@);
                    }
                    let (idx, d) = self.first_empty(h);
                    let ghost b = self.buckets@;
                    proof {
                        assert(b[idx as int] is Empty);
                        assert(!has_key(b, key)) by {
                            if has_key(b, key) {
                                assert(has_key(pre, key));
                                let i = choose|i: int| key_at(pre, i, key);
                                assert(key_at(old_b, i, key));
                                assert(key_at(old_b, j as int, key));
                            }
                        }
                        lemma_update_insert(b, idx as int, key, value);
                        lemma_count_update(b, idx as int, Bucket::Occupied(key, value));
                        assert(dist(h as int, idx as int, cap as int) == d);
                    }
                    self.buckets[idx] = Bucket::Occupied(key, value);
                    proof {
                        let b2 = self.buckets@;
                        assert(b2 == b.update(idx as int, Bucket::Occupied(key, value)));
                        assert(chain_clear(self.hasher_builder, b2, idx as int)) by {
                            assert forall|e: int| 0 <= e < dist(h as int, idx as int, cap as int) implies !(
                            #[trigger] b2[probe(h as int, e, cap as int)] is Empty) by {
                                assert(!(b[probe(h as int, e, cap as int)] is Empty));
                            }
                        }
                        self.lemma_chains_kept(b, b2, idx as int);
                        assert forall|k: u64| has_key(b2, k) implies has_key(post, k) by {
                            let i = choose|i: int| key_at(b2, i, k);
                            if i == idx {
                                assert(key_at(post, j as int, k));
                            } else {
                                assert(key_at(b, i, k));
                                assert(has_key(b, k));
                                let i2 = choose|i2: int| key_at(pre, i2, k);
                                assert(key_at(post, i2, k));
                            }
                        }
                    }
                    self.occupied_count = self.occupied_count + 1;
                },
                _ => {
                    proof {
                        assert forall|k: u64| has_key(self.buckets@, k) implies has_key(post, k) by {
                            let i2 = choose|i2: int| key_at(pre, i2, k);
                            assert(key_at(post, i2, k));
                        }
                    }
                },
            }
            j = j + 1;
        }
        proof {
            assert(old_b.subrange(0, j as int) =~= old_b);
            lemma_bucket_map_len(self.buckets@);
        }
        self.len = self.occupied_count;
    }
}

/// `s` lists the pairs of `m`: every key of `m` once, with its value, and
/// nothing else.
pub open spec fn lists_map<V>(s: Seq<(u64, V)>, m: Map<u64, V>) -> bool {
    &&& m.dom().finite()
    &&& s.len() == m.len()
    &&& forall|i: int| 0 <= i < s.len() ==> m.contains_key(#[trigger] s[i].0) && m[s[i].0] == s[i].1
    &&& forall|i: int, j: int| 0 <= i < j < s.len() ==> #[trigger] s[i].0 != #[trigger] s[j].0
    &&& forall|k: u64| #[trigger] m.contains_key(k) ==> exists|i: int| 0 <= i < s.len() && #[trigger] s[i].0 == k
}

/// The occupied buckets, in bucket order, list the map they hold.
pub proof fn lemma_occupied_entries_list<V>(b: Seq<Bucket<V>>)
    requires
        keys_unique(b),
    ensures
        lists_map(occupied_entries(b), bucket_map(b)),
    decreases b.len(),
{
    lemma_bucket_map_len(b);
    if b.len() > 0 {
        let s = b.drop_last();
        lemma_drop_last_unique(b);
        lemma_occupied_entries_list(s);
        lemma_bucket_map_len(s);
        let e = occupied_entries(s);
        let m = bucket_map(s);
        if b.last() is Occupied {
            let k = b.last()->0;
            let v = b.last()->1;
            lemma_bucket_map_contains(s, k);
            if has_key(s, k) {
                let i = choose|i: int| key_at(s, i, k);
                assert(key_at(b, i, k));
                assert(key_at(b, b.len() - 1, k));
            }
            let e2 = occupied_entries(b);
            let m2 = bucket_map(b);
            assert(e2 == e.push((k, v)));
            assert(m2 == m.insert(k, v));
            assert forall|i: int| 0 <= i < e2.len() implies m2.contains_key(#[trigger] e2[i].0) && m2[e2[i].0]
                == e2[i].1 by {
                if i < e.len() {
                    assert(e2[i] == e[i]);
                    assert(m.contains_key(e[i].0));
                }
            }
            assert forall|i: int, j: int| 0 <= i < j < e2.len() implies #[trigger] e2[i].0 != #[trigger] e2[j].0 by {
                assert(e2[i] == e[i]);
                if j < e.len() {
                    assert(e2[j] == e[j]);
                } else {
                    assert(m.contains_key(e[i].0));
                }
            }
            assert forall|kk: u64| #[trigger] m2.contains_key(kk) implies exists|i: int|
                0 <= i < e2.len() && #[trigger] e2[i].0 == kk by {
                if kk == k {
                    assert(e2[e.len() as int].0 == kk);
                } else {
                    assert(m.contains_key(kk));
                    let i = choose|i: int| 0 <= i < e.len() && #[trigger] e[i].0 == kk;
                    assert(e2[i] == e[i]);
                }
            }
        }
    }
}

/// The (key, value) pairs of the occupied buckets, in bucket order.
pub open spec fn occupied_entries<V>(b: Seq<Bucket<V>>) -> Seq<(u64, V)>
    decreases b.len(),
{
    if b.len() == 0 {
        Seq::empty()
    } else {
        let e = occupied_entries(b.drop_last());
        match b.last() {
            Bucket::Occupied(k, v) => e.push((k, v)),
            _ => e,
        }
    }
}


impl<V> OpenAddressMap<V, BuildFnvHasher> {
    /// An empty map with the default capacity and the FNV hasher.
    pub fn new() -> (r: Self)
        ensures
            r.well_formed(),
            r@ == Map::<u64, V>::empty(),
            r.bucket_count() == INITIAL_CAPACITY,
    {
        Self::with_hasher(BuildFnvHasher::new())
    }

    /// An empty map with room for `capacity` buckets (rounded up to a power
    /// of two, at least four) and the FNV hasher.
    pub fn with_capacity(capacity: usize) -> (r: Self)
        requires
            capacity <= bucket_limit() / 2,
        ensures
            r.well_formed(),
            r@ == Map::<u64, V>::empty(),
            least_pow2_at_least(r.bucket_count() as int, if capacity < 4 { 4 } else { capacity as int }),
    {
        Self::with_capacity_and_hasher(capacity, BuildFnvHasher::new())
    }
}

impl<V, S: KeyHashBuilder> OpenAddressMap<V, S> {
    pub fn with_hasher(hasher_builder: S) -> (r: Self)
        ensures
            r.well_formed(),
            r@ == Map::<u64, V>::empty(),
            r.bucket_count() == INITIAL_CAPACITY,
            r.hasher() == hasher_builder,
    {
        let r = Self::with_capacity_and_hasher(INITIAL_CAPACITY, hasher_builder);
        proof {
            assert(is_pow2(16)) by {
                assert(is_pow2(1));
                assert(is_pow2(2));
                assert(is_pow2(4));
                assert(is_pow2(8));
            }
            lemma_least_pow2_unique(r.bucket_count() as int, 16, 16);
        }
        r
    }

    pub fn with_capacity_and_hasher(capacity: usize, hasher_builder: S) -> (r: Self)
        requires
            capacity <= bucket_limit() / 2,
        ensures
            r.well_formed(),
            r@ == Map::<u64, V>::empty(),
            least_pow2_at_least(r.bucket_count() as int, if capacity < 4 { 4 } else { capacity as int }),
            r.hasher() == hasher_builder,
    {
        let cap = bucket_count_for(capacity);
        let mut buckets: Vec<Bucket<V>> = Vec::with_capacity(cap);
        let mut n: usize = 0;
        while n < cap
            invariant
                n <= cap,
                buckets@.len() == n,
                all_empty(buckets@),
            decreases cap - n,
        {
            buckets.push(Bucket::Empty);
            n = n + 1;
        }
        proof {
            lemma_all_empty(buckets@);
            assert(buckets@.len() <= bucket_limit());
        }
        OpenAddressMap { buckets, len: 0, occupied_count: 0, hasher_builder }
    }

    /// The occupied entries, in bucket order.
    pub fn iter(&self) -> (r: Vec<(u64, &V)>)
        requires
            self.well_formed(),
        ensures
            r@.len() == self.bucket_entries().len(),
            forall|i: int|
                0 <= i < r@.len() ==> (#[trigger] r@[i]).0 == self.bucket_entries()[i].0 && *r@[i].1
                    == self.bucket_entries()[i].1,
            lists_map(self.bucket_entries(), self@),
    {
        proof {
            lemma_occupied_entries_list(self.buckets@);
        }
        let mut r: Vec<(u64, &V)> = Vec::new();
        let mut i: usize = 0;
        while i < self.buckets.len()
            invariant
                i <= self.buckets@.len(),
                r@.len() == occupied_entries(self.buckets@.subrange(0, i as int)).len(),
                forall|j: int|
                    0 <= j < r@.len() ==> (#[trigger] r@[j]).0 == occupied_entries(
                        self.buckets@.subrange(0, i as int),
                    )[j].0 && *r@[j].1 == occupied_entries(self.buckets@.subrange(0, i as int))[j].1,
            decreases self.buckets@.len() - i,
        {
            proof {
                assert(self.buckets@.subrange(0, i as int + 1).drop_last() =~= self.buckets@.subrange(
                    0,
                    i as int,
                ));
            }
            match &self.buckets[i] {
                Bucket::Occupied(k, v) => {
                    r.push((*k, v));
                },
                _ => {},
            }
            i = i + 1;
        }
        proof {
            assert(self.buckets@.subrange(0, i as int) =~= self.buckets@);
        }
        r
    }
}

proof fn lemma_least_pow2_unique(p: int, q: int, n: int)
    requires
        least_pow2_at_least(p, n),
        least_pow2_at_least(q, n),
    ensures
        p == q,
    decreases p + q,
{
    if p != q {
        if p > 1 && q > 1 {
            assert(p % 2 == 0 && q % 2 == 0);
            if p < q {
                // q / 2 >= p since both are powers of two and p < q
                lemma_pow2_le_half(p, q);
            } else {
                lemma_pow2_le_half(q, p);
            }
        }
    }
}

proof fn lemma_pow2_le_half(p: int, q: int)
    requires
        is_pow2(p),
        is_pow2(q),
        p < q,
    ensures
        p <= q / 2,
    decreases q,
{
    if p > 1 {
        lemma_pow2_le_half(p / 2, q / 2);
    }
}

impl<V> Default for OpenAddressMap<V, BuildFnvHasher> {
    fn default() -> (r: Self)
        ensures
            r.well_formed(),
            r@ == Map::<u64, V>::empty(),
    {
        Self::new()
    }
}

impl<V, S: KeyHashBuilder> KernelMap<V> for OpenAddressMap<V, S> {
    open spec fn wf(&self) -> bool {
        self.well_formed()
    }

    open spec fn entries(&self) -> Map<u64, V> {
        self@
    }

    open spec fn has_room(&self, key: u64) -> bool {
        true
    }

    open spec fn within_limits(&self) -> bool {
        2 * self.bucket_count() <= bucket_limit()
    }

    fn insert(&mut self, key: u64, value: V) -> (r: Option<V>) {
        let ghost old_view = self@;
        proof {
            lemma_count_bounds(self.buckets@);
        }
        if (self.occupied_count + 1) * 100 / self.buckets.len() >= MAX_LOAD_FACTOR_PERCENT {
            self.resize();
            proof {
                lemma_count_bounds(self.buckets@);
            }
        } else {
            let cap = self.buckets.len();
            let oc = self.occupied_count;
            assert(oc + 1 < cap) by (nonlinear_arith)
                requires
                    (oc + 1) * 100 / (cap as int) < 70,
                    cap > 0,
            {
            }
        }
        let ghost b = self.buckets@;
        let cap = self.buckets.len();
        let h = self.home_index(key);
        let mut idx = h;
        let mut d: usize = 0;
        let mut first_tombstone: Option<usize> = None;
        let ghost mut tomb_d: int = 0;
        proof {
            self.lemma_probe_hits_empty(b, h as int);
        }
        while d < cap
            invariant
                self.well_formed(),
                self@ == old_view,
                old(self)@ == old_view,
                old_view == bucket_map(b),
                self.buckets@ == b,
                self.occupied_count + 1 < cap,
                cap == b.len(),
                0 <= h < cap,
                h == home_in(self.hasher_builder, key, cap as int),
                d <= cap,
                d < cap ==> idx == probe(h as int, d as int, cap as int),
                forall|e: int|
                    0 <= e < d ==> !(#[trigger] b[probe(h as int, e, cap as int)] is Empty) && !key_at(
                        b,
                        probe(h as int, e, cap as int),
                        key,
                    ),
                exists|e: int| 0 <= e < cap && #[trigger] b[probe(h as int, e, cap as int)] is Empty,
                first_tombstone matches Some(t) ==> (0 <= tomb_d < d && t == probe(
                    h as int,
                    tomb_d,
                    cap as int,
                ) && b[t as int] is Tombstone),
            decreases cap - d,
        {
            let kind: u8 = match &self.buckets[idx] {
                Bucket::Empty => 0,
                Bucket::Tombstone => 1,
                Bucket::Occupied(k, _) => if *k == key {
                    2
                } else {
                    3
                },
            };
            if kind == 0 {
                let target = match first_tombstone {
                    Some(t) => t,
                    None => idx,
                };
                let ghost td: int = if first_tombstone is Some { tomb_d } else { d as int };
                proof {
                    lemma_count_bounds(b);
                    self.lemma_absent(b, key, d as int);
                    lemma_bucket_map_contains(b, key);
                    lemma_update_insert(b, target as int, key, value);
                    lemma_count_update(b, target as int, Bucket::Occupied(key, value));
                    assert(dist(h as int, target as int, cap as int) == td);
                }
                if first_tombstone.is_none() {
                    self.occupied_count = self.occupied_count + 1;
                }
                self.buckets[target] = Bucket::Occupied(key, value);
                proof {
                    let b2 = self.buckets@;
                    assert(b2 == b.update(target as int, Bucket::Occupied(key, value)));
                    assert(chain_clear(self.hasher_builder, b2, target as int)) by {
                        assert forall|e: int| 0 <= e < dist(h as int, target as int, cap as int) implies !(
                        #[trigger] b2[probe(h as int, e, cap as int)] is Empty) by {
                            assert(!(b[probe(h as int, e, cap as int)] is Empty));
                        }
                    }
                    self.lemma_chains_kept(b, b2, target as int);
                    lemma_bucket_map_len(b);
                }
                self.len = self.len + 1;
                proof {
                    lemma_bucket_map_len(self.buckets@);
                }
                return None;
            } else if kind == 1 {
                if first_tombstone.is_none() {
                    first_tombstone = Some(idx);
                    proof {
                        tomb_d = d as int;
                    }
                }
            } else if kind == 2 {
                let mut replaced = Bucket::Occupied(key, value);
                std::mem::swap(&mut self.buckets[idx], &mut replaced);
                proof {
                    let b2 = self.buckets@;
                    lemma_update_replace(b, idx as int, value);
                    lemma_count_update(b, idx as int, Bucket::Occupied(key, value));
                    lemma_bucket_map_value(b, idx as int);
                    lemma_bucket_map_len(b);
                    assert(b2 == b.update(idx as int, Bucket::Occupied(b[idx as int]->0, value)));
                    assert(chain_clear(self.hasher_builder, b2, idx as int)) by {
                        assert(chain_clear(self.hasher_builder, b, idx as int));
                        let hh = home_in(self.hasher_builder, key, cap as int);
                        assert forall|e: int| 0 <= e < dist(hh, idx as int, cap as int) implies !(
                        #[trigger] b2[probe(hh, e, cap as int)] is Empty) by {
                            assert(!(b[probe(hh, e, cap as int)] is Empty));
                        }
                    }
                    self.lemma_chains_kept(b, b2, idx as int);
                    lemma_bucket_map_len(b2);
                }
                match replaced {
                    Bucket::Occupied(_, v) => {
                        return Some(v);
                    },
                    _ => {
                        return None;
                    },
                }
            }
            idx = if idx + 1 == cap { 0 } else { idx + 1 };
            d = d + 1;
        }
        proof {
            let e = choose|e: int| 0 <= e < cap && #[trigger] b[probe(h as int, e, cap as int)] is Empty;
            assert(!(b[probe(h as int, e, cap as int)] is Empty));
        }
        None
    }

    fn get(&self, key: u64) -> (r: Option<&V>) {
        proof {
            lemma_count_bounds(self.buckets@);
        }
        let ghost b = self.buckets@;
        let cap = self.buckets.len();
        let h = self.home_index(key);
        let mut idx = h;
        let mut d: usize = 0;
        proof {
            self.lemma_probe_hits_empty(b, h as int);
        }
        while d < cap
            invariant
                self.well_formed(),
                self.buckets@ == b,
                cap == b.len(),
                0 <= h < cap,
                h == home_in(self.hasher_builder, key, cap as int),
                d <= cap,
                d < cap ==> idx == probe(h as int, d as int, cap as int),
                forall|e: int|
                    0 <= e < d ==> !(#[trigger] b[probe(h as int, e, cap as int)] is Empty) && !key_at(
                        b,
                        probe(h as int, e, cap as int),
                        key,
                    ),
                exists|e: int| 0 <= e < cap && #[trigger] b[probe(h as int, e, cap as int)] is Empty,
            decreases cap - d,
        {
            match &self.buckets[idx] {
                Bucket::Empty => {
                    proof {
                        self.lemma_absent(b, key, d as int);
                        lemma_bucket_map_contains(b, key);
                    }
                    return None;
                },
                Bucket::Occupied(k, v) => {
                    if *k == key {
                        proof {
                            lemma_bucket_map_value(b, idx as int);
                        }
                        return Some(v);
                    }
                },
                Bucket::Tombstone => {},
            }
            idx = if idx + 1 == cap { 0 } else { idx + 1 };
            d = d + 1;
        }
        proof {
            let e = choose|e: int| 0 <= e < cap && #[trigger] b[probe(h as int, e, cap as int)] is Empty;
            assert(!(b[probe(h as int, e, cap as int)] is Empty));
        }
        None
    }

    fn remove(&mut self, key: u64) -> (r: Option<V>) {
        proof {
            lemma_count_bounds(self.buckets@);
        }
        let ghost b = self.buckets@;
        let ghost old_view = self@;
        let cap = self.buckets.len();
        let h = self.home_index(key);
        let mut idx = h;
        let mut d: usize = 0;
        proof {
            self.lemma_probe_hits_empty(b, h as int);
        }
        while d < cap
            invariant
                self.well_formed(),
                self.buckets@ == b,
                old_view == bucket_map(b),
                old(self)@ == old_view,
                cap == b.len(),
                0 <= h < cap,
                h == home_in(self.hasher_builder, key, cap as int),
                d <= cap,
                d < cap ==> idx == probe(h as int, d as int, cap as int),
                forall|e: int|
                    0 <= e < d ==> !(#[trigger] b[probe(h as int, e, cap as int)] is Empty) && !key_at(
                        b,
                        probe(h as int, e, cap as int),
                        key,
                    ),
                exists|e: int| 0 <= e < cap && #[trigger] b[probe(h as int, e, cap as int)] is Empty,
            decreases cap - d,
        {
            let kind: u8 = match &self.buckets[idx] {
                Bucket::Empty => 0,
                Bucket::Tombstone => 1,
                Bucket::Occupied(k, _) => if *k == key {
                    2
                } else {
                    3
                },
            };
            if kind == 0 {
                proof {
                    self.lemma_absent(b, key, d as int);
                    lemma_bucket_map_contains(b, key);
                    assert(bucket_map(b).remove(key) =~= bucket_map(b));
                    lemma_bucket_map_len(b);
                }
                return None;
            } else if kind == 2 {
                let mut removed = Bucket::Tombstone;
                std::mem::swap(&mut self.buckets[idx], &mut removed);
                proof {
                    let b2 = self.buckets@;
                    lemma_update_vacate(b, idx as int, Bucket::Tombstone);
                    lemma_bucket_map_len(b);
                    lemma_count_update(b, idx as int, Bucket::Tombstone);
                    lemma_bucket_map_value(b, idx as int);
                    assert(b2 == b.update(idx as int, Bucket::Tombstone));
                    self.lemma_chains_kept(b, b2, idx as int);
                }
                self.len = self.len - 1;
                proof {
                    lemma_bucket_map_len(self.buckets@);
                }
                match removed {
                    Bucket::Occupied(_, v) => {
                        return Some(v);
                    },
                    _ => {
                        return None;
                    },
                }
            }
            idx = if idx + 1 == cap { 0 } else { idx + 1 };
            d = d + 1;
        }
        proof {
            let e = choose|e: int| 0 <= e < cap && #[trigger] b[probe(h as int, e, cap as int)] is Empty;
            assert(!(b[probe(h as int, e, cap as int)] is Empty));
        }
        None
    }

    fn len(&self) -> (r: usize) {
        proof {
            lemma_bucket_map_len(self.buckets@);
        }
        self.len
    }

    fn clear(&mut self) {
        let mut i: usize = 0;
        while i < self.buckets.len()
            invariant
                i <= self.buckets@.len(),
                4 <= self.buckets@.len() <= bucket_limit(),
                forall|j: int| 0 <= j < i ==> #[trigger] self.buckets@[j] is Empty,
            decreases self.buckets@.len() - i,
        {
            self.buckets[i] = Bucket::Empty;
            i = i + 1;
        }
        proof {
            lemma_all_empty(self.buckets@);
        }
        self.len = 0;
        self.occupied_count = 0;
    }
}

} // verus!
