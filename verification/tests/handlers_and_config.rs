use bounded_cache::cache::BoundedCache;
use bounded_cache::config::{entries_for, listen_address, BYTES_PER_ENTRY, MAX_ELEMENTS, MEMORY_BUDGET};
use bounded_cache::handlers::{
    all_infos_handler, delete_all_handler, delete_handler, health_check, info_handler,
    read_all_handler, read_handler, status, write_handler, Reply,
};
use bounded_cache::time::Timestamp;

#[test]
fn write_then_read_returns_the_payload() {
    let mut cache = BoundedCache::new(4);
    let reply = write_handler(&mut cache, "k".to_string(), "payload".to_string());
    assert!(matches!(reply, Reply::Done));
    assert_eq!(reply.status_code(), 200);
    let reply = read_handler(&mut cache, "k");
    assert_eq!(reply.status_code(), 200);
    match reply {
        Reply::Text(value) => assert_eq!(value, "payload"),
        other => panic!("unexpected reply {:?}", other),
    }
}

#[test]
fn read_of_a_missing_key_is_not_found() {
    let mut cache = BoundedCache::new(4);
    let reply = read_handler(&mut cache, "missing");
    assert!(matches!(reply, Reply::NotFound));
    assert_eq!(reply.status_code(), 404);
    let reply = info_handler(&mut cache, "missing");
    assert!(matches!(reply, Reply::NotFound));
    assert_eq!(reply.status_code(), 404);
}

#[test]
fn delete_answers_done_once_and_not_found_after() {
    let mut cache = BoundedCache::new(4);
    write_handler(&mut cache, "k".to_string(), "v".to_string());
    let first = delete_handler(&mut cache, "k");
    assert!(matches!(first, Reply::Done));
    assert_eq!(first.status_code(), 200);
    let second = delete_handler(&mut cache, "k");
    assert!(matches!(second, Reply::NotFound));
    assert_eq!(second.status_code(), 404);
}

#[test]
fn read_all_lists_values_by_key() {
    let mut cache = BoundedCache::new(4);
    write_handler(&mut cache, "a/2".to_string(), "two".to_string());
    write_handler(&mut cache, "b/1".to_string(), "bee".to_string());
    write_handler(&mut cache, "a/1".to_string(), "one".to_string());
    match read_all_handler(&mut cache, "a/") {
        Reply::Values(found) => assert_eq!(
            found,
            vec![("a/1".to_string(), "one".to_string()), ("a/2".to_string(), "two".to_string())]
        ),
        other => panic!("unexpected reply {:?}", other),
    }
    match read_all_handler(&mut cache, "none") {
        Reply::Values(found) => assert!(found.is_empty()),
        other => panic!("unexpected reply {:?}", other),
    }
}

#[test]
fn delete_all_succeeds_whatever_matched() {
    let mut cache = BoundedCache::new(4);
    write_handler(&mut cache, "a/1".to_string(), "one".to_string());
    write_handler(&mut cache, "b/1".to_string(), "bee".to_string());
    let reply = delete_all_handler(&mut cache, "a/");
    assert!(matches!(reply, Reply::Done));
    assert_eq!(cache.size(), 1);
    let reply = delete_all_handler(&mut cache, "a/");
    assert!(matches!(reply, Reply::Done));
    assert_eq!(reply.status_code(), 200);
    assert_eq!(cache.size(), 1);
}

#[test]
fn health_check_says_ok() {
    let reply = health_check();
    assert_eq!(reply.status_code(), 200);
    match reply {
        Reply::Text(text) => assert_eq!(text, "OK"),
        other => panic!("unexpected reply {:?}", other),
    }
}

#[test]
fn status_reports_size_and_version() {
    let mut cache = BoundedCache::new(4);
    write_handler(&mut cache, "a".to_string(), "1".to_string());
    write_handler(&mut cache, "b".to_string(), "2".to_string());
    match status(&cache, "1.2.3".to_string()) {
        Reply::Status(report) => {
            assert_eq!(report.num_entries, 2);
            assert_eq!(report.db_version, "1.2.3");
        }
        other => panic!("unexpected reply {:?}", other),
    }
}

#[test]
fn info_carries_value_and_time() {
    let mut cache = BoundedCache::new(4);
    cache.put_at("k".to_string(), "v".to_string(), Timestamp::new(1_700_000_000, 123));
    match info_handler(&mut cache, "k") {
        Reply::Info(info) => {
            assert_eq!(info.value, "v");
            assert_eq!(info.time, Timestamp::new(1_700_000_000, 123));
        }
        other => panic!("unexpected reply {:?}", other),
    }
}

#[test]
fn all_infos_lists_values_and_times_by_key() {
    let mut cache = BoundedCache::new(4);
    cache.put_at("p/b".to_string(), "bee".to_string(), Timestamp::new(2, 0));
    cache.put_at("q".to_string(), "cue".to_string(), Timestamp::new(3, 0));
    cache.put_at("p/a".to_string(), "ay".to_string(), Timestamp::new(1, 9));
    match all_infos_handler(&mut cache, "p/") {
        Reply::Infos(found) => {
            assert_eq!(found.len(), 2);
            assert_eq!(found[0].0, "p/a");
            assert_eq!(found[0].1.value, "ay");
            assert_eq!(found[0].1.time, Timestamp::new(1, 9));
            assert_eq!(found[1].0, "p/b");
            assert_eq!(found[1].1.value, "bee");
            assert_eq!(found[1].1.time, Timestamp::new(2, 0));
        }
        other => panic!("unexpected reply {:?}", other),
    }
}

#[test]
fn reads_through_handlers_refresh_recency() {
    let mut cache = BoundedCache::new(2);
    write_handler(&mut cache, "x".to_string(), "1".to_string());
    write_handler(&mut cache, "y".to_string(), "2".to_string());
    assert!(matches!(info_handler(&mut cache, "x"), Reply::Info(_)));
    write_handler(&mut cache, "z".to_string(), "3".to_string());
    assert!(matches!(read_handler(&mut cache, "y"), Reply::NotFound));
    assert!(matches!(read_handler(&mut cache, "x"), Reply::Text(_)));
}

#[test]
fn store_is_sized_for_the_memory_budget() {
    assert_eq!(MEMORY_BUDGET, 256 * 1024 * 1024);
    assert_eq!(BYTES_PER_ENTRY, 128);
    assert_eq!(MAX_ELEMENTS, 2_097_152);
    assert_eq!(entries_for(MEMORY_BUDGET, BYTES_PER_ENTRY), MAX_ELEMENTS);
    assert_eq!(entries_for(1000, 128), 7);
    assert_eq!(entries_for(0, 1), 0);
}

#[test]
fn listen_address_defaults_to_localhost() {
    assert_eq!(listen_address(&vec!["prog".to_string()]), "127.0.0.1:3000");
    assert_eq!(listen_address(&Vec::new()), "127.0.0.1:3000");
    assert_eq!(
        listen_address(&vec!["prog".to_string(), "0.0.0.0:8080".to_string()]),
        "0.0.0.0:8080"
    );
    assert_eq!(
        listen_address(&vec!["prog".to_string(), "[::1]:9".to_string(), "extra".to_string()]),
        "[::1]:9"
    );
}

#[test]
fn status_after_distinct_writes_and_reads_reports_the_kept_entries() {
    let mut cache = BoundedCache::new(3);
    for key in ["d", "b", "a", "c", "e"] {
        write_handler(&mut cache, key.to_string(), format!("payload of {}", key));
    }
    match read_handler(&mut cache, "a") {
        Reply::Text(value) => assert_eq!(value, "payload of a"),
        other => panic!("unexpected reply {:?}", other),
    }
    assert!(matches!(read_handler(&mut cache, "d"), Reply::NotFound));
    match status(&cache, "v".to_string()) {
        Reply::Status(report) => assert_eq!(report.num_entries, 3),
        other => panic!("unexpected reply {:?}", other),
    }
}
