use rsds::map::bucket::Bucket;
use rsds::map::table::{bucket_index, distribute, doubled, place, reversed, should_resize};
use rsds::map::striped_map::buckets_for;
use rsds::map::{CoarseMap, ConcurrentMap, ResizePolicy, StripedHashMap};
use std::collections::hash_map::RandomState;

#[test]
fn striped_map_test_hashtable() {
    let map = StripedHashMap::new();
    let key = "hello".to_string();
    let val = "world".to_string();
    map.put(key.clone(), val.clone());
    assert!(map.contains(&key));
    assert_eq!(map.get(&key).unwrap(), val);
}

#[test]
fn lib_test_hashtable() {
    let map = StripedHashMap::with_num_buckets(10);
    let key = "hello".to_string();
    let val = "world".to_string();
    map.put(key.clone(), val.clone());
    assert!(map.contains(&key));
    assert_eq!(map.get(&key).unwrap(), val);
}

#[test]
fn empty_map_finds_nothing() {
    let map: StripedHashMap<u64, u64> = StripedHashMap::new();
    assert_eq!(map.num_buckets(), 4096);
    assert!(!map.contains(&7));
    assert_eq!(map.get(&7), None);
    assert!(!map.remove(&7));
}

#[test]
fn put_twice_keeps_one_entry() {
    let map: StripedHashMap<u64, &str> = StripedHashMap::with_num_buckets(4);
    map.put(1, "one");
    map.put(1, "uno");
    assert_eq!(map.get(&1), Some("uno"));
    assert!(map.remove(&1));
    assert!(!map.contains(&1));
    assert_eq!(map.get(&1), None);
    assert!(!map.remove(&1));
}

#[test]
fn single_bucket_map() {
    let map: StripedHashMap<u64, u64> = StripedHashMap::build(
        1,
        RandomState::new(),
        ResizePolicy::MaxBucketSize(usize::MAX),
    );
    for k in 0..200u64 {
        map.put(k, k * 2);
    }
    assert_eq!(map.num_buckets(), 1);
    for k in 0..200u64 {
        assert_eq!(map.get(&k), Some(k * 2));
    }
    assert!(!map.contains(&200));
}

#[test]
fn resize_preserves_entries() {
    let map: StripedHashMap<u64, u64> =
        StripedHashMap::build(2, RandomState::new(), ResizePolicy::MaxBucketSize(4));
    let mut last = map.num_buckets();
    assert_eq!(last, 2);
    for k in 0..5_000u64 {
        map.put(k, k + 1);
        let now = map.num_buckets();
        assert!(now == last || now == 2 * last);
        last = now;
    }
    assert!(last > 2);
    assert!(last.is_power_of_two());
    for k in 0..5_000u64 {
        assert_eq!(map.get(&k), Some(k + 1));
    }
    for k in 0..5_000u64 {
        assert!(map.remove(&k));
    }
    for k in 0..5_000u64 {
        assert!(!map.contains(&k));
    }
    assert_eq!(map.num_buckets(), last);
}

#[test]
fn average_policy_grows() {
    let map: StripedHashMap<u64, u64> =
        StripedHashMap::build(2, RandomState::new(), ResizePolicy::MaxAvgBucketSize(3));
    for k in 0..5u64 {
        map.put(k, k);
    }
    assert_eq!(map.num_buckets(), 2);
    map.put(5, 5);
    assert_eq!(map.num_buckets(), 4);
    for k in 0..6u64 {
        assert_eq!(map.get(&k), Some(k));
    }
}

#[test]
fn threshold_zero_grows_on_every_insert() {
    let map: StripedHashMap<u64, u64> =
        StripedHashMap::build(1, RandomState::new(), ResizePolicy::MaxBucketSize(0));
    for k in 0..10u64 {
        map.put(k, k);
        assert_eq!(map.num_buckets(), 1 << (k + 1));
    }
    for k in 0..10u64 {
        assert_eq!(map.get(&k), Some(k));
    }
}

#[test]
fn with_capacity_makes_two_buckets_per_ten() {
    let map: StripedHashMap<u64, u64> = StripedHashMap::with_capacity(100);
    assert_eq!(map.num_buckets(), 20);
    let map: StripedHashMap<u64, u64> = StripedHashMap::with_hasher(RandomState::new());
    assert_eq!(map.num_buckets(), 4096);
}

#[test]
fn concurrent_disjoint_puts() {
    let threads = 8u64;
    let per_thread = 5_000u64;
    let map: StripedHashMap<u64, u64> =
        StripedHashMap::build(4, RandomState::new(), ResizePolicy::MaxBucketSize(8));
    let map = &map;
    crossbeam::thread::scope(|scope| {
        for t in 0..threads {
            scope.spawn(move |_| {
                for k in t * per_thread..(t + 1) * per_thread {
                    map.put(k, k);
                    map.put(k, k + 7);
                }
            });
        }
    })
    .unwrap();
    for k in 0..threads * per_thread {
        assert_eq!(map.get(&k), Some(k + 7));
    }
    assert!(map.num_buckets() > 4);
    crossbeam::thread::scope(|scope| {
        for t in 0..threads {
            scope.spawn(move |_| {
                for k in t * per_thread..(t + 1) * per_thread {
                    assert!(map.remove(&k));
                }
            });
        }
    })
    .unwrap();
    for k in 0..threads * per_thread {
        assert!(!map.contains(&k));
    }
}

#[test]
fn bucket_upsert_and_remove() {
    let mut bucket: Bucket<u64, &str> = Bucket::new();
    assert_eq!(bucket.len(), 0);
    assert!(bucket.put(3, "c"));
    assert!(bucket.put(1, "a"));
    assert!(!bucket.put(3, "C"));
    assert_eq!(bucket.len(), 2);
    assert_eq!(bucket.get(&3), Some(&"C"));
    assert_eq!(bucket.get(&1), Some(&"a"));
    assert_eq!(bucket.get(&2), None);
    assert!(bucket.contains(&1));
    assert!(!bucket.contains(&2));
    assert!(bucket.remove(&3));
    assert!(!bucket.remove(&3));
    assert_eq!(bucket.len(), 1);
    let entries = bucket.take_all();
    assert_eq!(entries, vec![(1, "a")]);
    assert_eq!(bucket.len(), 0);
}

#[test]
fn index_is_hash_modulo_buckets() {
    assert_eq!(bucket_index(0, 1), 0);
    assert_eq!(bucket_index(17, 5), 2);
    assert_eq!(bucket_index(u64::MAX, 10), 5);
    assert_eq!(bucket_index(4096, 4096), 0);
}

#[test]
fn policy_formulas() {
    assert!(!should_resize(ResizePolicy::MaxBucketSize(10), 10, 0, 1));
    assert!(should_resize(ResizePolicy::MaxBucketSize(10), 11, 0, 1));
    assert!(should_resize(ResizePolicy::MaxBucketSize(0), 1, 0, 1));
    assert!(!should_resize(ResizePolicy::MaxAvgBucketSize(500), 0, 4999, 10));
    assert!(should_resize(ResizePolicy::MaxAvgBucketSize(500), 0, 5000, 10));
    assert_eq!(doubled(21), Some(42));
    assert_eq!(doubled(0), Some(0));
    assert_eq!(doubled(usize::MAX / 2 + 1), None);
}

#[test]
fn distribute_places_by_hash() {
    let entries = vec![(0u64, 10u64, "a"), (1, 11, "b"), (2, 12, "c"), (5, 13, "d"), (4, 10, "e")];
    let mut buckets = distribute(entries, 4);
    assert_eq!(buckets.len(), 4);
    assert_eq!(buckets[0].take_all(), vec![(10, "e")]);
    assert_eq!(buckets[1].take_all(), vec![(11, "b"), (13, "d")]);
    assert_eq!(buckets[2].take_all(), vec![(12, "c")]);
    assert_eq!(buckets[3].take_all(), vec![]);
    place(&mut buckets, 7, 99, "z");
    assert_eq!(buckets[3].get(&99), Some(&"z"));
    assert_eq!(buckets[0].get(&99), None);
}

#[test]
fn reversed_turns_the_order_round() {
    assert_eq!(reversed(vec![1, 2, 3]), vec![3, 2, 1]);
    assert_eq!(reversed(Vec::<u8>::new()), Vec::<u8>::new());
}

#[test]
fn coarse_map_put_get_remove() {
    let map: CoarseMap<String, u64, RandomState> = CoarseMap::new();
    assert_eq!(map.get(&"a".to_string()), None);
    map.put("a".to_string(), 1);
    map.put("a".to_string(), 2);
    map.put("b".to_string(), 3);
    assert!(map.contains(&"a".to_string()));
    assert_eq!(map.get(&"a".to_string()), Some(2));
    assert!(map.remove(&"a".to_string()));
    assert!(!map.remove(&"a".to_string()));
    assert!(!map.contains(&"a".to_string()));
    assert_eq!(map.get(&"b".to_string()), Some(3));
}

#[test]
fn string_keys() {
    let map: StripedHashMap<String, usize> = StripedHashMap::default();
    assert_eq!(map.get(&"one".to_string()), None);
    map.put("one".to_string(), 1);
    map.put("two".to_string(), 2);
    map.put("one".to_string(), 11);
    assert_eq!(map.get(&"one".to_string()), Some(11));
    assert!(map.contains(&"two".to_string()));
    assert!(map.remove(&"two".to_string()));
    assert!(!map.remove(&"two".to_string()));
    assert!(!map.contains(&"two".to_string()));
}

#[test]
fn two_buckets_for_every_full_ten() {
    assert_eq!(buckets_for(10), 2);
    assert_eq!(buckets_for(19), 2);
    assert_eq!(buckets_for(20), 4);
    assert_eq!(buckets_for(1000), 200);
    assert_eq!(buckets_for(9), 0);
    assert_eq!(StripedHashMap::<u32, u32>::with_capacity(35).num_buckets(), 6);
}
