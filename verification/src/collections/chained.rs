//! A chained hash table: a power-of-two array of buckets, each holding a
//! singly-linked collision chain (newest entry first).
use vstd::prelude::*;
use crate::collections::hasher::{BuildFnvHasher, KeyHashBuilder};
use crate::collections::open_address::{bucket_count_for, bucket_limit, least_pow2_at_least, lists_map};
use crate::collections::traits::KernelMap;

verus! {

pub const DEFAULT_NUM_BUCKETS: usize = 32;

struct Node<V> {
    key: u64,
    value: V,
    next: Option<Box<Node<V>>>,
}

/// The entries of a chain, head first.
spec fn chain_seq<V>(c: Option<Box<Node<V>>>) -> Seq<(u64, V)>
    decreases c,
{
    match c {
        None => Seq::empty(),
        Some(n) => seq![(n.key, n.value)] + chain_seq(n.next),
    }
}

/// The map a chain represents; an earlier node hides later ones with the same key.
spec fn chain_map<V>(c: Option<Box<Node<V>>>) -> Map<u64, V>
    decreases c,
{
    match c {
        None => Map::empty(),
        Some(n) => chain_map(n.next).insert(n.key, n.value),
    }
}

/// No key appears twice in the chain.
spec fn chain_unique<V>(c: Option<Box<Node<V>>>) -> bool
    decreases c,
{
    match c {
        None => true,
        Some(n) => !chain_map(n.next).contains_key(n.key) && chain_unique(n.next),
    }
}

fn chain_get<'a, V>(c: &'a Option<Box<Node<V>>>, key: u64) -> (r: Option<&'a V>)
    ensures
        r == (if chain_map(*c).contains_key(key) {
            Some(&chain_map(*c)[key])
        } else {
            None::<&V>
        }),
    decreases *c,
{
    match c {
        None => None,
        Some(n) => {
            if n.key == key {
                Some(&n.value)
            } else {
                chain_get(&n.next, key)
            }
        },
    }
}

/// Replaces the value of `key` if the chain holds it (giving back the old
/// value); otherwise hands `value` back and leaves the chain unchanged.
fn chain_replace<V>(c: &mut Option<Box<Node<V>>>, key: u64, value: V) -> (r: Result<V, V>)
    requires
        chain_unique(*old(c)),
    ensures
        chain_unique(*final(c)),
        chain_map(*old(c)).contains_key(key) ==> r == Ok::<V, V>(chain_map(*old(c))[key])
            && chain_map(*final(c)) == chain_map(*old(c)).insert(key, value),
        !chain_map(*old(c)).contains_key(key) ==> r == Err::<V, V>(value) && *final(c) == *old(c),
    decreases *old(c),
{
    match c.take() {
        None => Err(value),
        Some(mut node) => {
            if node.key == key {
                let mut v = value;
                std::mem::swap(&mut node.value, &mut v);
                proof {
                    assert(chain_map(node.next).insert(key, v).insert(key, value) =~= chain_map(
                        node.next,
                    ).insert(key, value));
                }
                *c = Some(node);
                Ok(v)
            } else {
                let r = chain_replace(&mut node.next, key, value);
                proof {
                    if chain_map(node.next).contains_key(key) {
                    }
                }
                *c = Some(node);
                proof {
                    let k = node.key;
                    assert(chain_map(*c) == chain_map(node.next).insert(k, node.value));
                    if r is Ok {
                        assert(chain_map(*c) =~= chain_map(*old(c)).insert(key, value));
                    }
                }
                r
            }
        },
    }
}

/// Removes `key` from the chain, giving back its value.
fn chain_remove<V>(c: &mut Option<Box<Node<V>>>, key: u64) -> (r: Option<V>)
    requires
        chain_unique(*old(c)),
    ensures
        chain_unique(*final(c)),
        chain_map(*final(c)) == chain_map(*old(c)).remove(key),
        r == (if chain_map(*old(c)).contains_key(key) {
            Some(chain_map(*old(c))[key])
        } else {
            None::<V>
        }),
    decreases *old(c),
{
    match c.take() {
        None => {
            proof {
                assert(chain_map(*old(c)).remove(key) =~= chain_map(*old(c)));
            }
            None
        },
        Some(node) => {
            let n = *node;
            if n.key == key {
                *c = n.next;
                proof {
                    assert(chain_map(*final(c)) =~= chain_map(*old(c)).remove(key));
                }
                Some(n.value)
            } else {
                let Node { key: k, value: v, next } = n;
                let mut rest = next;
                let r = chain_remove(&mut rest, key);
                proof {
                    assert(!chain_map(rest).contains_key(k));
                }
                *c = Some(Box::new(Node { key: k, value: v, next: rest }));
                proof {
                    assert(chain_map(*c) =~= chain_map(*old(c)).remove(key));
                }
                r
            }
        },
    }
}

/// Appends the chain's entries, head first, to `out`.
fn chain_collect<'a, V>(c: &'a Option<Box<Node<V>>>, out: &mut Vec<(u64, &'a V)>)
    ensures
        final(out)@.len() == old(out)@.len() + chain_seq(*c).len(),
        forall|i: int| 0 <= i < old(out)@.len() ==> #[trigger] final(out)@[i] == old(out)@[i],
        forall|i: int|
            0 <= i < chain_seq(*c).len() ==> (#[trigger] final(out)@[old(out)@.len() + i]).0
                == chain_seq(*c)[i].0 && *final(out)@[old(out)@.len() + i].1 == chain_seq(*c)[i].1,
    decreases *c,
{
    match c {
        None => {
            assert(chain_seq(*c) =~= Seq::<(u64, V)>::empty());
        },
        Some(n) => {
            out.push((n.key, &n.value));
            let ghost mid = out@;
            chain_collect(&n.next, out);
            proof {
                assert(chain_seq(*c) == seq![(n.key, n.value)] + chain_seq(n.next));
                assert forall|i: int| 0 <= i < chain_seq(*c).len() implies (#[trigger] out@[old(
                    out,
                )@.len() + i]).0 == chain_seq(*c)[i].0 && *out@[old(out)@.len() + i].1 == chain_seq(
                    *c,
                )[i].1 by {
                    if i == 0 {
                        assert(out@[old(out)@.len() as int] == mid[old(out)@.len() as int]);
                    } else {
                        let j = i - 1;
                        assert(out@[mid.len() + j] == out@[old(out)@.len() + i]);
                        assert(chain_seq(*c)[i] == chain_seq(n.next)[j]);
                    }
                }
            }
        },
    }
}

spec fn home_of<V, S: KeyHashBuilder>(b: Seq<Option<Box<Node<V>>>>, hb: S, k: u64) -> int {
    (hb.spec_hash_u64(k) as int) % (b.len() as int)
}

/// Each key is looked up in the chain of its home bucket.
spec fn table_view<V, S: KeyHashBuilder>(b: Seq<Option<Box<Node<V>>>>, hb: S) -> Map<u64, V> {
    Map::new(
        |k: u64| chain_map(b[home_of(b, hb, k)]).contains_key(k),
        |k: u64| chain_map(b[home_of(b, hb, k)])[k],
    )
}

/// A chain without repeated keys lists the map it represents.
proof fn lemma_chain_lists<V>(c: Option<Box<Node<V>>>)
    requires
        chain_unique(c),
    ensures
        lists_map(chain_seq(c), chain_map(c)),
    decreases c,
{
    match c {
        None => {
            assert(chain_map(c) =~= Map::<u64, V>::empty());
        },
        Some(n) => {
            lemma_chain_lists(n.next);
            let e = chain_seq(n.next);
            let m = chain_map(n.next);
            let e2 = chain_seq(c);
            let m2 = chain_map(c);
            assert(e2 == seq![(n.key, n.value)] + e);
            assert(m2 == m.insert(n.key, n.value));
            assert forall|i: int| 0 <= i < e2.len() implies m2.contains_key(#[trigger] e2[i].0) && m2[e2[i].0]
                == e2[i].1 by {
                if i > 0 {
                    assert(e2[i] == e[i - 1]);
                    assert(m.contains_key(e[i - 1].0));
                }
            }
            assert forall|i: int, j: int| 0 <= i < j < e2.len() implies #[trigger] e2[i].0 != #[trigger] e2[j].0 by {
                assert(e2[j] == e[j - 1]);
                if i > 0 {
                    assert(e2[i] == e[i - 1]);
                } else {
                    assert(m.contains_key(e[j - 1].0));
                }
            }
            assert forall|kk: u64| #[trigger] m2.contains_key(kk) implies exists|i: int|
                0 <= i < e2.len() && #[trigger] e2[i].0 == kk by {
                if kk == n.key {
                    assert(e2[0].0 == kk);
                } else {
                    assert(m.contains_key(kk));
                    let i = choose|i: int| 0 <= i < e.len() && #[trigger] e[i].0 == kk;
                    assert(e2[i + 1] == e[i]);
                }
            }
        },
    }
}

/// Two lists of maps with no key in common, one after the other, list the
/// union of the maps.
proof fn lemma_lists_concat<V>(s1: Seq<(u64, V)>, m1: Map<u64, V>, s2: Seq<(u64, V)>, m2: Map<u64, V>)
    requires
        lists_map(s1, m1),
        lists_map(s2, m2),
        m1.dom().disjoint(m2.dom()),
    ensures
        lists_map(s1 + s2, m1.union_prefer_right(m2)),
{
    let s = s1 + s2;
    let m = m1.union_prefer_right(m2);
    vstd::set_lib::lemma_set_disjoint_lens(m1.dom(), m2.dom());
    assert(m.dom() =~= m1.dom() + m2.dom());
    assert forall|i: int| 0 <= i < s.len() implies m.contains_key(#[trigger] s[i].0) && m[s[i].0] == s[i].1 by {
        if i < s1.len() {
            assert(s[i] == s1[i]);
            assert(m1.contains_key(s1[i].0));
            assert(!m2.contains_key(s1[i].0));
        } else {
            assert(s[i] == s2[i - s1.len()]);
            assert(m2.contains_key(s2[i - s1.len()].0));
        }
    }
    assert forall|i: int, j: int| 0 <= i < j < s.len() implies #[trigger] s[i].0 != #[trigger] s[j].0 by {
        if j < s1.len() {
            assert(s[i] == s1[i] && s[j] == s1[j]);
        } else if i >= s1.len() {
            assert(s[i] == s2[i - s1.len()] && s[j] == s2[j - s1.len()]);
        } else {
            assert(s[i] == s1[i] && s[j] == s2[j - s1.len()]);
            assert(m1.contains_key(s1[i].0));
            assert(m2.contains_key(s2[j - s1.len()].0));
        }
    }
    assert forall|kk: u64| #[trigger] m.contains_key(kk) implies exists|i: int| 0 <= i < s.len() && #[trigger] s[i].0
        == kk by {
        if m2.contains_key(kk) {
            let i = choose|i: int| 0 <= i < s2.len() && #[trigger] s2[i].0 == kk;
            assert(s[s1.len() + i] == s2[i]);
        } else {
            assert(m1.contains_key(kk));
            let i = choose|i: int| 0 <= i < s1.len() && #[trigger] s1[i].0 == kk;
            assert(s[i] == s1[i]);
        }
    }
}

/// The keys homed in the first `n` buckets, with their values.
spec fn prefix_view<V, S: KeyHashBuilder>(b: Seq<Option<Box<Node<V>>>>, hb: S, n: int) -> Map<u64, V> {
    Map::new(
        |k: u64| home_of(b, hb, k) < n && chain_map(b[home_of(b, hb, k)]).contains_key(k),
        |k: u64| chain_map(b[home_of(b, hb, k)])[k],
    )
}

/// The chains of the first `n` buckets list the keys homed there.
proof fn lemma_chains_list<V, S: KeyHashBuilder>(b: Seq<Option<Box<Node<V>>>>, hb: S, n: int)
    requires
        0 <= n <= b.len(),
        b.len() > 0,
        forall|i: int| 0 <= i < b.len() ==> chain_unique(#[trigger] b[i]),
        forall|i: int, k: u64|
            0 <= i < b.len() && #[trigger] chain_map(b[i]).contains_key(k) ==> home_of(b, hb, k) == i,
    ensures
        lists_map(chains_seq(b, n), prefix_view(b, hb, n)),
    decreases n,
{
    if n == 0 {
        assert(prefix_view(b, hb, 0) =~= Map::<u64, V>::empty());
    } else {
        lemma_chains_list(b, hb, n - 1);
        let c = b[n - 1];
        assert(chain_unique(c));
        lemma_chain_lists(c);
        let m1 = prefix_view(b, hb, n - 1);
        let m2 = chain_map(c);
        assert forall|k: u64| m2.contains_key(k) implies home_of(b, hb, k) == n - 1 by {
            assert(chain_map(b[n - 1]).contains_key(k));
        }
        assert(m1.dom().disjoint(m2.dom()));
        lemma_lists_concat(chains_seq(b, n - 1), m1, chain_seq(c), m2);
        assert(prefix_view(b, hb, n) =~= m1.union_prefer_right(m2));
    }
}

/// A chained hash table from `u64` keys.
pub struct ChainedMap<V, S = BuildFnvHasher> {
    buckets: Vec<Option<Box<Node<V>>>>,
    len: usize,
    hasher_builder: S,
}

/// Concatenation of the chains of the first `n` buckets.
spec fn chains_seq<V>(b: Seq<Option<Box<Node<V>>>>, n: int) -> Seq<(u64, V)>
    decreases n,
{
    if n <= 0 {
        Seq::empty()
    } else {
        chains_seq(b, n - 1) + chain_seq(b[n - 1])
    }
}

impl<V, S: KeyHashBuilder> ChainedMap<V, S> {
    spec fn home(&self, k: u64) -> int {
        home_of(self.buckets@, self.hasher_builder, k)
    }

    pub closed spec fn view(&self) -> Map<u64, V> {
        table_view(self.buckets@, self.hasher_builder)
    }

    /// Entries in bucket order, each chain head first.
    pub closed spec fn bucket_entries(&self) -> Seq<(u64, V)> {
        chains_seq(self.buckets@, self.buckets@.len() as int)
    }

    pub closed spec fn hasher(&self) -> S {
        self.hasher_builder
    }

    pub closed spec fn bucket_count(&self) -> nat {
        self.buckets@.len()
    }

    pub closed spec fn well_formed(&self) -> bool {
        &&& 4 <= self.buckets@.len() <= bucket_limit()
        &&& forall|i: int| 0 <= i < self.buckets@.len() ==> chain_unique(#[trigger] self.buckets@[i])
        &&& forall|i: int, k: u64|
            0 <= i < self.buckets@.len() && #[trigger] chain_map(self.buckets@[i]).contains_key(k)
                ==> self.home(k) == i
        &&& self@.dom().finite()
        &&& self.len == self@.len()
    }

    /// Index of the bucket of `key`.
    fn hash_key(&self, key: u64) -> (r: usize)
        requires
            self.buckets@.len() > 0,
        ensures
            r == self.home(key),
            r < self.buckets@.len(),
    {
        let cap = self.buckets.len();
        (self.hasher_builder.hash_u64(key) % (cap as u64)) as usize
    }

    pub fn with_hasher(hasher_builder: S) -> (r: Self)
        ensures
            r.well_formed(),
            r@ == Map::<u64, V>::empty(),
            r.hasher() == hasher_builder,
    {
        Self::with_buckets_and_hasher(DEFAULT_NUM_BUCKETS, hasher_builder)
    }

    pub fn with_buckets_and_hasher(num_buckets: usize, hasher_builder: S) -> (r: Self)
        requires
            num_buckets <= bucket_limit() / 2,
        ensures
            r.well_formed(),
            r@ == Map::<u64, V>::empty(),
            least_pow2_at_least(r.bucket_count() as int, if num_buckets < 4 { 4 } else { num_buckets as int }),
            r.hasher() == hasher_builder,
    {
        let cap = bucket_count_for(num_buckets);
        let mut buckets: Vec<Option<Box<Node<V>>>> = Vec::with_capacity(cap);
        let mut n: usize = 0;
        while n < cap
            invariant
                n <= cap,
                buckets@.len() == n,
                forall|i: int| 0 <= i < n ==> #[trigger] buckets@[i] is None,
            decreases cap - n,
        {
            buckets.push(None);
            n = n + 1;
        }
        let r = ChainedMap { buckets, len: 0, hasher_builder };
        proof {
            assert(r@ =~= Map::<u64, V>::empty());
        }
        r
    }

    /// The entries, bucket by bucket, each chain head first.
    pub fn iter(&self) -> (r: Vec<(u64, &V)>)
        ensures
            r@.len() == self.bucket_entries().len(),
            forall|i: int|
                0 <= i < r@.len() ==> (#[trigger] r@[i]).0 == self.bucket_entries()[i].0 && *r@[i].1
                    == self.bucket_entries()[i].1,
            self.well_formed() ==> lists_map(self.bucket_entries(), self@),
    {
        proof {
            if self.well_formed() {
                let b = self.buckets@;
                assert forall|i: int, k: u64|
                    0 <= i < b.len() && #[trigger] chain_map(b[i]).contains_key(k) implies home_of(
                    b,
                    self.hasher_builder,
                    k,
                ) == i by {
                    assert(self.home(k) == home_of(b, self.hasher_builder, k));
                }
                lemma_chains_list(b, self.hasher_builder, b.len() as int);
                assert(prefix_view(b, self.hasher_builder, b.len() as int) =~= self@);
            }
        }
        let mut r: Vec<(u64, &V)> = Vec::new();
        let mut i: usize = 0;
        while i < self.buckets.len()
            invariant
                i <= self.buckets@.len(),
                r@.len() == chains_seq(self.buckets@, i as int).len(),
                forall|j: int|
                    0 <= j < r@.len() ==> (#[trigger] r@[j]).0 == chains_seq(self.buckets@, i as int)[j].0
                        && *r@[j].1 == chains_seq(self.buckets@, i as int)[j].1,
            decreases self.buckets@.len() - i,
        {
            let ghost before = r@;
            chain_collect(&self.buckets[i], &mut r);
            proof {
                let prev = chains_seq(self.buckets@, i as int);
                let next = chains_seq(self.buckets@, i as int + 1);
                assert(next == prev + chain_seq(self.buckets@[i as int]));
                assert forall|j: int| 0 <= j < r@.len() implies (#[trigger] r@[j]).0 == next[j].0
                    && *r@[j].1 == next[j].1 by {
                    if j < before.len() {
                        assert(r@[j] == before[j]);
                    } else {
                        let jj = j - before.len();
                        assert(r@[before.len() + jj] == r@[j]);
                    }
                }
            }
            i = i + 1;
        }
        r
    }
}

impl<V> ChainedMap<V, BuildFnvHasher> {
    pub fn new() -> (r: Self)
        ensures
            r.well_formed(),
            r@ == Map::<u64, V>::empty(),
    {
        Self::with_hasher(BuildFnvHasher::new())
    }

    pub fn with_buckets(num_buckets: usize) -> (r: Self)
        requires
            num_buckets <= bucket_limit() / 2,
        ensures
            r.well_formed(),
            r@ == Map::<u64, V>::empty(),
            least_pow2_at_least(r.bucket_count() as int, if num_buckets < 4 { 4 } else { num_buckets as int }),
    {
        Self::with_buckets_and_hasher(num_buckets, BuildFnvHasher::new())
    }
}

impl<V> Default for ChainedMap<V, BuildFnvHasher> {
    fn default() -> (r: Self)
        ensures
            r.well_formed(),
            r@ == Map::<u64, V>::empty(),
    {
        Self::new()
    }
}

impl<V, S: KeyHashBuilder> KernelMap<V> for ChainedMap<V, S> {
    open spec fn wf(&self) -> bool {
        self.well_formed()
    }

    open spec fn entries(&self) -> Map<u64, V> {
        self@
    }

    open spec fn has_room(&self, key: u64) -> bool {
        true
    }

    /// Every entry is a separate heap node, so fewer than `usize::MAX` of
    /// them can exist.
    open spec fn within_limits(&self) -> bool {
        self@.len() < usize::MAX
    }

    fn insert(&mut self, key: u64, value: V) -> (r: Option<V>) {
        let idx = self.hash_key(key);
        let ghost old_self = *self;
        let ghost c = self.buckets@[idx as int];
        let mut bucket: Option<Box<Node<V>>> = None;
        std::mem::swap(&mut self.buckets[idx], &mut bucket);
        assert(chain_unique(c));
        match chain_replace(&mut bucket, key, value) {
            Ok(old_value) => {
                self.buckets[idx] = bucket;
                proof {
                    assert(self.buckets@ == old_self.buckets@.update(idx as int, bucket));
                    assert(self.home(key) == old_self.home(key));
                    assert forall|k: u64| #[trigger] self.home(k) == old_self.home(k) by {}
                    assert(self@ =~= old_self@.insert(key, value));
                    assert(old_self.well_formed());
                    assert(self@.dom() =~= old_self@.dom().insert(key));
                    assert(old_self@.dom().insert(key) =~= old_self@.dom());
                    assert forall|i: int| 0 <= i < self.buckets@.len() implies chain_unique(#[trigger] self.buckets@[i]) by {
                        if i != idx {
                            assert(self.buckets@[i] == old_self.buckets@[i]);
                        }
                    }
                    assert forall|i: int, k: u64|
                        0 <= i < self.buckets@.len() && #[trigger] chain_map(self.buckets@[i]).contains_key(k)
                        implies self.home(k) == i by {
                        if i == idx && k != key {
                            assert(chain_map(c).contains_key(k));
                        } else if i != idx {
                            assert(self.buckets@[i] == old_self.buckets@[i]);
                        }
                    }
                }
                Some(old_value)
            },
            Err(value) => {
                let node = Node { key, value, next: bucket };
                self.buckets[idx] = Some(Box::new(node));
                proof {
                    assert(chain_map(c) == chain_map(bucket));
                    assert forall|k: u64| #[trigger] self.home(k) == old_self.home(k) by {}
                    assert(!old_self@.contains_key(key));
                    assert(self@ =~= old_self@.insert(key, value));
                    assert(old_self.well_formed());
                    assert(self@.dom() =~= old_self@.dom().insert(key));
                    assert forall|i: int, k: u64|
                        0 <= i < self.buckets@.len() && #[trigger] chain_map(self.buckets@[i]).contains_key(k)
                        implies self.home(k) == i by {
                        if i == idx && k != key {
                            assert(chain_map(c).contains_key(k));
                        } else if i != idx {
                            assert(self.buckets@[i] == old_self.buckets@[i]);
                        }
                    }
                    assert(chain_unique(self.buckets@[idx as int]));
                    assert forall|i: int| 0 <= i < self.buckets@.len() implies chain_unique(#[trigger] self.buckets@[i]) by {
                        if i != idx {
                            assert(self.buckets@[i] == old_self.buckets@[i]);
                        }
                    }
                }
                self.len = self.len + 1;
                None
            },
        }
    }

    fn get(&self, key: u64) -> (r: Option<&V>) {
        let idx = self.hash_key(key);
        chain_get(&self.buckets[idx], key)
    }

    fn remove(&mut self, key: u64) -> (r: Option<V>) {
        let idx = self.hash_key(key);
        let ghost old_self = *self;
        let ghost c = self.buckets@[idx as int];
        let mut bucket: Option<Box<Node<V>>> = None;
        std::mem::swap(&mut self.buckets[idx], &mut bucket);
        assert(chain_unique(c));
        let r = chain_remove(&mut bucket, key);
        self.buckets[idx] = bucket;
        proof {
            assert forall|k: u64| #[trigger] self.home(k) == old_self.home(k) by {}
            assert(self@ =~= old_self@.remove(key));
            assert(old_self.well_formed());
            assert(self@.dom() =~= old_self@.dom().remove(key));
            assert forall|i: int| 0 <= i < self.buckets@.len() implies chain_unique(#[trigger] self.buckets@[i]) by {
                if i != idx {
                    assert(self.buckets@[i] == old_self.buckets@[i]);
                }
            }
            if !old_self@.contains_key(key) {
                assert(old_self@.dom().remove(key) =~= old_self@.dom());
            }
            assert forall|i: int, k: u64|
                0 <= i < self.buckets@.len() && #[trigger] chain_map(self.buckets@[i]).contains_key(k)
                implies self.home(k) == i by {
                if i == idx {
                    assert(chain_map(c).contains_key(k));
                } else {
                    assert(self.buckets@[i] == old_self.buckets@[i]);
                }
            }
        }
        if r.is_some() {
            self.len = self.len - 1;
        }
        proof {
            assert(4 <= self.buckets@.len() <= bucket_limit());
            assert(self@.dom().finite());
            assert(self.len == self@.len());
        }
        r
    }

    fn len(&self) -> (r: usize) {
        self.len
    }

    fn clear(&mut self) {
        let mut i: usize = 0;
        while i < self.buckets.len()
            invariant
                i <= self.buckets@.len(),
                4 <= self.buckets@.len() <= bucket_limit(),
                forall|j: int| 0 <= j < i ==> #[trigger] self.buckets@[j] is None,
            decreases self.buckets@.len() - i,
        {
            self.buckets[i] = None;
            i = i + 1;
        }
        self.len = 0;
        proof {
            assert(self@ =~= Map::<u64, V>::empty());
        }
    }
}

} // verus!
