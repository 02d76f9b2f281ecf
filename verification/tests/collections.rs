use saeos::collections::chained::ChainedMap;
use saeos::collections::hasher::{
    BuildFnvHasher, BuildIdentityHasher, FnvHasher, IdentityHasher, FNV_OFFSET_BASIS,
};
use saeos::collections::open_address::OpenAddressMap;
use saeos::collections::set::HashSet;
use saeos::collections::static_map::StaticMap;
use saeos::collections::traits::{KernelMap, KernelSet};

#[test]
fn fnv_hash_of_known_inputs() {
    let empty = FnvHasher::new();
    assert_eq!(empty.finish(), FNV_OFFSET_BASIS);
    let mut a = FnvHasher::new();
    a.write(b"a");
    assert_eq!(a.finish(), 0xaf63dc4c8601ec8c);
    let mut foobar = FnvHasher::new();
    foobar.write(b"foobar");
    assert_eq!(foobar.finish(), 0x85944171f73967e8);
}

#[test]
fn fnv_write_u64_hashes_little_endian_bytes() {
    let mut by_value = FnvHasher::new();
    by_value.write_u64(0x0102030405060708);
    let mut by_bytes = FnvHasher::new();
    by_bytes.write(&[8, 7, 6, 5, 4, 3, 2, 1]);
    assert_eq!(by_value.finish(), by_bytes.finish());
    let built = BuildFnvHasher::new().build_hasher();
    assert_eq!(built.finish(), FNV_OFFSET_BASIS);
}

#[test]
fn identity_hasher_keeps_the_value() {
    let mut h = IdentityHasher::new();
    h.write_u64(0xdead_beef);
    assert_eq!(h.finish(), 0xdead_beef);
    h.write_u8(7);
    assert_eq!(h.finish(), 7);
    h.write_u16(0x1234);
    assert_eq!(h.finish(), 0x1234);
    h.write_u32(0x1234_5678);
    assert_eq!(h.finish(), 0x1234_5678);
    h.write_usize(42);
    assert_eq!(h.finish(), 42);
    h.write(&[1, 2, 3]);
    assert_eq!(h.finish(), 0x030201);
    let built = BuildIdentityHasher::new().build_hasher();
    assert_eq!(built.finish(), 0);
}

#[test]
fn open_address_insert_get_remove() {
    let mut map: OpenAddressMap<&str> = OpenAddressMap::new();
    assert!(map.is_empty());
    assert_eq!(map.insert(1, "one"), None);
    assert_eq!(map.insert(2, "two"), None);
    assert_eq!(map.insert(1, "uno"), Some("one"));
    assert_eq!(map.len(), 2);
    assert_eq!(map.get(1), Some(&"uno"));
    assert!(map.contains_key(2));
    assert_eq!(map.remove(2), Some("two"));
    assert_eq!(map.remove(2), None);
    assert_eq!(map.get(2), None);
    assert_eq!(map.len(), 1);
    map.clear();
    assert!(map.is_empty());
}

#[test]
fn open_address_grows_and_keeps_every_entry() {
    let mut map: OpenAddressMap<u64> = OpenAddressMap::with_capacity(2);
    for key in 0..200u64 {
        assert_eq!(map.insert(key, key * 10), None);
    }
    assert_eq!(map.len(), 200);
    for key in 0..200u64 {
        assert_eq!(map.get(key), Some(&(key * 10)));
    }
    let mut seen: Vec<u64> = map.iter().iter().map(|(k, _)| *k).collect();
    seen.sort();
    assert_eq!(seen, (0..200u64).collect::<Vec<_>>());
}

#[test]
fn open_address_with_identity_hasher_after_removals() {
    let mut map: OpenAddressMap<u32, BuildIdentityHasher> =
        OpenAddressMap::with_hasher(BuildIdentityHasher::new());
    for key in [16u64, 32, 48, 64] {
        map.insert(key, key as u32);
    }
    assert_eq!(map.remove(32), Some(32));
    assert_eq!(map.get(48), Some(&48));
    assert_eq!(map.insert(80, 80), None);
    assert_eq!(map.get(80), Some(&80));
    assert_eq!(map.len(), 4);
}

#[test]
fn hash_set_insert_contains_remove() {
    let mut set = HashSet::new();
    assert!(set.insert(5));
    assert!(!set.insert(5));
    assert!(set.insert(9));
    assert!(set.contains(5));
    assert!(!set.contains(6));
    assert_eq!(set.len(), 2);
    assert!(set.remove(5));
    assert!(!set.remove(5));
    let mut items = set.iter();
    items.sort();
    assert_eq!(items, vec![9]);
    set.clear();
    assert!(set.is_empty());
}

#[test]
fn static_map_drops_new_keys_when_full() {
    let mut map: StaticMap<u8, 2> = StaticMap::new();
    assert_eq!(map.capacity(), 2);
    assert_eq!(map.insert(1, 10), None);
    assert_eq!(map.insert(2, 20), None);
    assert_eq!(map.insert(3, 30), None);
    assert_eq!(map.get(3), None);
    assert_eq!(map.len(), 2);
    assert_eq!(map.insert(2, 21), Some(20));
    assert_eq!(map.remove(1), Some(10));
    assert_eq!(map.insert(3, 30), None);
    assert_eq!(map.get(3), Some(&30));
}

#[test]
fn chained_map_collisions_in_one_bucket() {
    let mut map: ChainedMap<&str> = ChainedMap::with_buckets(1);
    assert_eq!(map.insert(1, "a"), None);
    assert_eq!(map.insert(2, "b"), None);
    assert_eq!(map.insert(3, "c"), None);
    assert_eq!(map.insert(2, "B"), Some("b"));
    assert_eq!(map.get(2), Some(&"B"));
    assert_eq!(map.remove(1), Some("a"));
    assert_eq!(map.get(1), None);
    assert_eq!(map.len(), 2);
    let mut keys: Vec<u64> = map.iter().iter().map(|(k, _)| *k).collect();
    keys.sort();
    assert_eq!(keys, vec![2, 3]);
}
