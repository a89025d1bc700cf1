use chainmap::HashMap;

#[test]
fn test_map() {
    let mut hmap = HashMap::new();
    hmap.insert("foo", 42);
    hmap.insert("bar", 43);
    assert_eq!(hmap.bucket_count(), 2);
    assert_eq!(hmap.get(&"foo"), Some(42).as_ref());
    assert_eq!(hmap.get(&"bar"), Some(43).as_ref());
    assert_eq!(hmap.len(), 2);

    hmap.remove(&"foo");
    assert_eq!(hmap.len(), 1);
    assert_eq!(hmap.get(&"foo"), None);
    assert_eq!(hmap.get(&"bar"), Some(43).as_ref());

    assert_eq!(hmap.contains_key(&"foo"), false);
    assert_eq!(hmap.contains_key(&"bar"), true);
}

#[test]
fn test_iter() {
    let mut hmap = HashMap::new();
    hmap.insert("foo", 42);
    hmap.insert("bar1", 43);
    hmap.insert("bar2", 44);
    hmap.insert("bar3", 45);

    let mut it = hmap.iter();
    while let Some((key, value)) = it.next() {
        println!("{:?} : {:?}", key, value);
    }

    assert_eq!(hmap.len(), 4)
}

#[test]
fn round_trip_all_key_kinds() {
    let mut words = HashMap::new();
    words.insert("alpha", 1);
    assert_eq!(words.get(&"alpha"), Some(&1));

    let mut nums: HashMap<u64, &str> = HashMap::new();
    nums.insert(7, "seven");
    assert_eq!(nums.get(&7), Some(&"seven"));

    let mut owned: HashMap<String, u8> = HashMap::new();
    owned.insert(String::from("key"), 9);
    assert_eq!(owned.get(&String::from("key")), Some(&9));
}

#[test]
fn update_returns_prior_value() {
    let mut hmap = HashMap::new();
    assert_eq!(hmap.insert("k", 1), None);
    assert_eq!(hmap.len(), 1);
    assert_eq!(hmap.insert("k", 2), Some(1));
    assert_eq!(hmap.len(), 1);
    assert_eq!(hmap.get(&"k"), Some(&2));
}

#[test]
fn remove_present_and_absent() {
    let mut hmap = HashMap::new();
    hmap.insert("a", 10);
    hmap.insert("b", 20);
    assert_eq!(hmap.remove(&"a"), Some(10));
    assert_eq!(hmap.len(), 1);
    assert_eq!(hmap.get(&"a"), None);
    assert_eq!(hmap.contains_key(&"a"), false);
    assert_eq!(hmap.remove(&"a"), None);
    assert_eq!(hmap.len(), 1);
    assert_eq!(hmap.get(&"b"), Some(&20));
}

#[test]
fn empty_table_reports_absence() {
    let mut hmap: HashMap<u64, u64> = HashMap::new();
    assert_eq!(hmap.bucket_count(), 0);
    assert_eq!(hmap.len(), 0);
    assert_eq!(hmap.get(&5), None);
    assert_eq!(hmap.contains_key(&5), false);
    assert_eq!(hmap.remove(&5), None);
    let mut it = hmap.iter();
    assert_eq!(it.next(), None);
}

#[test]
fn load_stays_bounded_and_store_doubles() {
    let mut hmap: HashMap<u64, u64> = HashMap::new();
    let mut seen_counts = Vec::new();
    for k in 0..100u64 {
        hmap.insert(k, k * 2);
        let len = hmap.len();
        let buckets = hmap.bucket_count();
        assert!(buckets > 0);
        // within one entry of a three-quarters load
        assert!(4 * len <= 3 * buckets + 4);
        seen_counts.push(buckets);
    }
    // the store only ever grows, by doubling from one bucket
    let mut prev = 0usize;
    for &bc in &seen_counts {
        assert!(bc == prev || (prev == 0 && bc == 1) || bc == 2 * prev);
        assert!(bc >= prev);
        prev = bc;
    }
    assert_eq!(hmap.len(), 100);
}

#[test]
fn four_distinct_keys_grow_and_iterate() {
    let mut hmap: HashMap<u64, u64> = HashMap::new();
    hmap.insert(1, 10);
    hmap.insert(2, 20);
    hmap.insert(3, 30);
    hmap.insert(4, 40);
    assert_eq!(hmap.len(), 4);
    // doubling growth: 0 -> 1 -> 2 -> 4 buckets
    assert_eq!(hmap.bucket_count(), 4);
    let mut keys = Vec::new();
    let mut it = hmap.iter();
    while let Some((k, _)) = it.next() {
        keys.push(*k);
    }
    assert_eq!(keys.len(), 4);
    keys.sort();
    assert_eq!(keys, vec![1, 2, 3, 4]);
}

#[test]
fn colliding_keys_share_a_chain() {
    // with an identity digest, keys 1, 5, 9, 13 all land in bucket 1 of 4
    let mut hmap: HashMap<u64, &str> = HashMap::new();
    hmap.insert(1, "one");
    hmap.insert(5, "five");
    hmap.insert(9, "nine");
    hmap.insert(13, "thirteen");
    assert_eq!(hmap.bucket_count(), 4);
    assert_eq!(hmap.bucket_index(&1), 1);
    assert_eq!(hmap.bucket_index(&5), 1);
    assert_eq!(hmap.bucket_index(&9), 1);
    assert_eq!(hmap.bucket_index(&13), 1);
    assert_eq!(hmap.get(&1), Some(&"one"));
    assert_eq!(hmap.get(&5), Some(&"five"));
    assert_eq!(hmap.get(&9), Some(&"nine"));
    assert_eq!(hmap.get(&13), Some(&"thirteen"));
    // swap-remove from the middle of the chain keeps the rest reachable
    assert_eq!(hmap.remove(&5), Some("five"));
    assert_eq!(hmap.len(), 3);
    assert_eq!(hmap.get(&1), Some(&"one"));
    assert_eq!(hmap.get(&9), Some(&"nine"));
    assert_eq!(hmap.get(&13), Some(&"thirteen"));
}

#[test]
fn iteration_yields_each_contained_key_once() {
    let mut hmap: HashMap<u64, u64> = HashMap::new();
    for k in 0..20u64 {
        hmap.insert(k, 100 + k);
    }
    hmap.remove(&3);
    hmap.remove(&17);
    let mut pairs = Vec::new();
    let mut it = hmap.iter();
    while let Some((k, v)) = it.next() {
        pairs.push((*k, *v));
    }
    assert_eq!(pairs.len(), hmap.len());
    let mut keys: Vec<u64> = pairs.iter().map(|p| p.0).collect();
    keys.sort();
    keys.dedup();
    assert_eq!(keys.len(), hmap.len());
    for (k, v) in &pairs {
        assert!(hmap.contains_key(k));
        assert_eq!(hmap.get(k), Some(v));
    }
    for k in 0..20u64 {
        let held = k != 3 && k != 17;
        assert_eq!(hmap.contains_key(&k), held);
        assert_eq!(keys.contains(&k), held);
    }
}

#[test]
fn string_digests_are_deterministic() {
    // equal text in distinct allocations must collide on the same bucket
    let mut hmap: HashMap<String, u32> = HashMap::new();
    let k1 = String::from("shared");
    let k2 = String::from("shared");
    hmap.insert(k1, 1);
    assert_eq!(hmap.insert(k2, 2), Some(1));
    assert_eq!(hmap.len(), 1);
    assert_eq!(hmap.get(&String::from("shared")), Some(&2));
}
