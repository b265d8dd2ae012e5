use bounded_cache::cache::BoundedCache;
use bounded_cache::time::Timestamp;

fn value_of(cache: &mut BoundedCache, key: &str) -> Option<String> {
    cache.get(key).map(|entry| entry.value)
}

fn put(cache: &mut BoundedCache, key: &str, value: &str) {
    cache.put(key.to_string(), value.to_string());
}

fn keys_of(found: &[(String, String)]) -> Vec<&str> {
    found.iter().map(|(key, _)| key.as_str()).collect()
}

#[test]
fn new_store_is_empty_and_remembers_its_capacity() {
    let cache = BoundedCache::new(7);
    assert_eq!(cache.size(), 0);
    assert_eq!(cache.capacity_limit(), 7);
}

#[test]
fn end_to_end_eviction_follows_recency() {
    let mut cache = BoundedCache::new(2);
    put(&mut cache, "x", "1");
    put(&mut cache, "y", "2");
    assert_eq!(value_of(&mut cache, "x"), Some("1".to_string()));
    put(&mut cache, "z", "3");
    assert_eq!(value_of(&mut cache, "y"), None);
    assert_eq!(value_of(&mut cache, "x"), Some("1".to_string()));
    assert_eq!(value_of(&mut cache, "z"), Some("3".to_string()));
    assert_eq!(cache.size(), 2);
    assert_eq!(cache.capacity_limit(), 2);
}

#[test]
fn size_never_exceeds_capacity() {
    let mut cache = BoundedCache::new(3);
    for i in 0..10 {
        put(&mut cache, &format!("key{}", i), "v");
        assert!(cache.size() <= 3);
        assert_eq!(cache.size(), if i < 3 { i + 1 } else { 3 });
    }
}

#[test]
fn new_key_in_full_store_evicts_exactly_the_oldest() {
    let mut cache = BoundedCache::new(3);
    put(&mut cache, "a", "1");
    put(&mut cache, "b", "2");
    put(&mut cache, "c", "3");
    put(&mut cache, "d", "4");
    assert_eq!(cache.size(), 3);
    let listed = cache.scan_by_prefix("");
    assert_eq!(keys_of(&listed), vec!["b", "c", "d"]);
}

#[test]
fn read_key_survives_the_next_eviction() {
    let mut cache = BoundedCache::new(3);
    put(&mut cache, "k1", "1");
    put(&mut cache, "k2", "2");
    put(&mut cache, "k3", "3");
    assert_eq!(value_of(&mut cache, "k1"), Some("1".to_string()));
    put(&mut cache, "k4", "4");
    assert_eq!(cache.size(), 3);
    assert_eq!(value_of(&mut cache, "k1"), Some("1".to_string()));
    assert_eq!(value_of(&mut cache, "k2"), None);
    assert_eq!(value_of(&mut cache, "k3"), Some("3".to_string()));
    assert_eq!(value_of(&mut cache, "k4"), Some("4".to_string()));
}

#[test]
fn store_of_one_entry_keeps_only_the_last_write() {
    let mut cache = BoundedCache::new(1);
    put(&mut cache, "a", "1");
    assert_eq!(value_of(&mut cache, "a"), Some("1".to_string()));
    put(&mut cache, "b", "2");
    assert_eq!(cache.size(), 1);
    assert_eq!(value_of(&mut cache, "a"), None);
    assert_eq!(value_of(&mut cache, "b"), Some("2".to_string()));
}

#[test]
fn second_write_replaces_the_first() {
    let mut cache = BoundedCache::new(4);
    put(&mut cache, "other", "o");
    cache.put_at("k".to_string(), "v1".to_string(), Timestamp::new(100, 999_999_999));
    assert_eq!(cache.size(), 2);
    let first = cache.get("k").unwrap();
    cache.put_at("k".to_string(), "v2".to_string(), Timestamp::new(101, 0));
    assert_eq!(cache.size(), 2);
    let second = cache.get("k").unwrap();
    assert_eq!(first.value, "v1");
    assert_eq!(second.value, "v2");
    assert_eq!(second.time, Timestamp::new(101, 0));
    assert!(second.time.later_than(&first.time));
    let listed = cache.scan_by_prefix("");
    assert_eq!(listed, vec![("k".to_string(), "v2".to_string()), ("other".to_string(), "o".to_string())]);
}

#[test]
fn overwrite_with_the_clock_keeps_one_entry() {
    let mut cache = BoundedCache::new(2);
    put(&mut cache, "k", "v1");
    assert_eq!(value_of(&mut cache, "k"), Some("v1".to_string()));
    put(&mut cache, "k", "v2");
    assert_eq!(cache.size(), 1);
    assert_eq!(value_of(&mut cache, "k"), Some("v2".to_string()));
    assert_eq!(cache.scan_by_prefix(""), vec![("k".to_string(), "v2".to_string())]);
}

#[test]
fn put_stamps_the_entry_with_a_reading_of_the_clock() {
    let day = 86_400;
    let mut cache = BoundedCache::new(2);
    put(&mut cache, "k", "v");
    let entry = cache.get("k").unwrap();
    let reading = match std::time::SystemTime::now().duration_since(std::time::UNIX_EPOCH) {
        Ok(since) => since.as_secs() as i64,
        Err(before) => -(before.duration().as_secs() as i64),
    };
    assert!(reading - day <= entry.time.secs && entry.time.secs <= reading + day);
    assert!(entry.time.nanos < 1_000_000_000);
}

#[test]
fn put_at_records_the_given_time() {
    let mut cache = BoundedCache::new(4);
    cache.put_at("k".to_string(), "v".to_string(), Timestamp::new(17, 5));
    let entry = cache.get("k").unwrap();
    assert_eq!(entry.value, "v");
    assert_eq!(entry.time, Timestamp::new(17, 5));
}

#[test]
fn get_changes_neither_value_nor_time() {
    let mut cache = BoundedCache::new(4);
    cache.put_at("k".to_string(), "v".to_string(), Timestamp::new(-3, 12));
    let once = cache.get("k").unwrap();
    let twice = cache.get("k").unwrap();
    assert_eq!(once.value, twice.value);
    assert_eq!(once.time, twice.time);
    assert_eq!(twice.time, Timestamp::new(-3, 12));
    assert_eq!(cache.size(), 1);
}

#[test]
fn get_of_a_key_never_set_is_absent() {
    let mut cache = BoundedCache::new(2);
    assert!(cache.get("nothing").is_none());
    put(&mut cache, "a", "1");
    assert!(cache.get("b").is_none());
    assert!(cache.get("").is_none());
    assert_eq!(cache.size(), 1);
}

#[test]
fn delete_of_absent_key_is_false_and_changes_nothing() {
    let mut cache = BoundedCache::new(3);
    put(&mut cache, "a", "1");
    put(&mut cache, "b", "2");
    assert!(!cache.delete("c"));
    assert_eq!(cache.size(), 2);
    assert_eq!(value_of(&mut cache, "a"), Some("1".to_string()));
    assert_eq!(value_of(&mut cache, "b"), Some("2".to_string()));
}

#[test]
fn delete_of_present_key_is_true_and_the_key_is_gone() {
    let mut cache = BoundedCache::new(3);
    put(&mut cache, "a", "1");
    put(&mut cache, "b", "2");
    assert!(cache.delete("a"));
    assert_eq!(cache.size(), 1);
    assert_eq!(value_of(&mut cache, "a"), None);
    assert!(!cache.delete("a"));
    assert_eq!(cache.size(), 1);
    assert_eq!(value_of(&mut cache, "b"), Some("2".to_string()));
}

#[test]
fn delete_makes_room_without_eviction() {
    let mut cache = BoundedCache::new(2);
    put(&mut cache, "a", "1");
    put(&mut cache, "b", "2");
    assert!(cache.delete("b"));
    put(&mut cache, "c", "3");
    assert_eq!(value_of(&mut cache, "a"), Some("1".to_string()));
    assert_eq!(value_of(&mut cache, "c"), Some("3".to_string()));
}

#[test]
fn writers_on_disjoint_keys_lose_nothing_within_capacity() {
    let writers = 4;
    let puts = 5;
    let mut cache = BoundedCache::new(64);
    for round in 0..puts {
        for writer in 0..writers {
            put(&mut cache, &format!("w{}/{}", writer, round), &format!("{}-{}", writer, round));
        }
    }
    assert_eq!(cache.size(), 20);
    for writer in 0..writers {
        for round in 0..puts {
            assert_eq!(
                value_of(&mut cache, &format!("w{}/{}", writer, round)),
                Some(format!("{}-{}", writer, round))
            );
        }
    }
}

#[test]
fn writers_on_disjoint_keys_fill_to_capacity() {
    let writers = 4;
    let puts = 5;
    let mut cache = BoundedCache::new(6);
    for round in 0..puts {
        for writer in 0..writers {
            put(&mut cache, &format!("w{}/{}", writer, round), "v");
        }
    }
    assert_eq!(cache.size(), 6);
    let listed = cache.scan_by_prefix("");
    assert_eq!(keys_of(&listed), vec!["w0/4", "w1/4", "w2/3", "w2/4", "w3/3", "w3/4"]);
}

#[test]
fn empty_key_is_a_key_like_any_other() {
    let mut cache = BoundedCache::new(2);
    put(&mut cache, "", "nothing");
    assert_eq!(cache.size(), 1);
    assert_eq!(value_of(&mut cache, ""), Some("nothing".to_string()));
    assert!(cache.delete(""));
    assert_eq!(cache.size(), 0);
}

#[test]
fn writes_in_any_order_are_all_read_back() {
    let orders: [[usize; 4]; 4] = [[0, 1, 2, 3], [3, 2, 1, 0], [2, 0, 3, 1], [1, 3, 0, 2]];
    let writes = [("a", "1"), ("b", "2"), ("c", "3"), ("d", "4")];
    for order in orders {
        let mut cache = BoundedCache::new(4);
        for index in order {
            put(&mut cache, writes[index].0, writes[index].1);
        }
        assert_eq!(cache.size(), 4);
        assert_eq!(value_of(&mut cache, "c"), Some("3".to_string()));
        for (key, value) in writes {
            assert_eq!(value_of(&mut cache, key), Some(value.to_string()));
        }
        assert_eq!(cache.size(), 4);
    }
}

#[test]
fn size_after_distinct_writes_is_the_smaller_of_count_and_capacity() {
    for capacity in 1..6 {
        for count in 0..8 {
            let mut cache = BoundedCache::new(capacity);
            for i in 0..count {
                put(&mut cache, &format!("key{}", i), "v");
            }
            assert_eq!(cache.size(), count.min(capacity));
            assert!(cache.get("key0").is_some() == (count > 0 && count <= capacity));
            assert_eq!(cache.size(), count.min(capacity));
        }
    }
}
