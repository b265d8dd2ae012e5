use bounded_cache::entry::Entry;
use bounded_cache::text::{comes_before, starts_with};
use bounded_cache::time::Timestamp;

#[test]
fn starts_with_agrees_with_the_prefix_relation() {
    assert!(starts_with("a/1", "a/"));
    assert!(starts_with("a/1", "a/1"));
    assert!(starts_with("a/1", ""));
    assert!(starts_with("", ""));
    assert!(!starts_with("a/1", "a/12"));
    assert!(!starts_with("a/1", "b"));
    assert!(!starts_with("", "a"));
    assert!(!starts_with("ab", "aB"));
    assert!(starts_with("été", "ét"));
    assert!(!starts_with("été", "et"));
}

#[test]
fn comes_before_is_the_strict_lexicographic_order() {
    assert!(comes_before("a", "b"));
    assert!(!comes_before("b", "a"));
    assert!(!comes_before("a", "a"));
    assert!(comes_before("", "a"));
    assert!(!comes_before("a", ""));
    assert!(!comes_before("", ""));
    assert!(comes_before("a", "ab"));
    assert!(!comes_before("ab", "a"));
    assert!(comes_before("B", "a"));
    assert!(comes_before("a/9", "a0"));
    assert!(comes_before("z", "é"));
    assert!(comes_before("é", "€"));
    assert!(comes_before("\u{ffff}", "\u{10000}"));
}

#[test]
fn comes_before_agrees_with_the_order_of_strings() {
    let samples = ["", "a", "A", "ab", "abc", "b", "a/", "é", "e", "\u{10000}", "\u{ffff}", "~"];
    for a in samples {
        for b in samples {
            assert_eq!(comes_before(a, b), a < b);
        }
    }
}

#[test]
fn duplicate_copies_value_and_time() {
    let first = Entry::new("payload".to_string(), Timestamp::new(42, 7));
    let copy = first.duplicate();
    assert_eq!(copy.value, "payload");
    assert_eq!(copy.time, Timestamp::new(42, 7));
    assert_eq!(first.value, "payload");
}

#[test]
fn later_than_compares_seconds_then_nanoseconds() {
    let base = Timestamp::new(10, 500);
    assert!(Timestamp::new(11, 0).later_than(&base));
    assert!(Timestamp::new(10, 501).later_than(&base));
    assert!(!Timestamp::new(10, 500).later_than(&base));
    assert!(!Timestamp::new(10, 499).later_than(&base));
    assert!(!Timestamp::new(9, 999_999_999).later_than(&base));
    assert!(Timestamp::new(0, 0).later_than(&Timestamp::new(-1, 999_999_999)));
}
