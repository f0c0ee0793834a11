use novadb_session::bounded::{BoundedLog, CAPACITY};
use novadb_session::clock::Timestamp;
use novadb_session::keyed::IdMap;
use novadb_session::text::{after_last, push_decimal, same_text};

#[test]
fn same_text_compares_characters() {
    assert!(same_text("", ""));
    assert!(same_text("abc", "abc"));
    assert!(!same_text("abc", "abd"));
    assert!(!same_text("abc", "ab"));
    assert!(!same_text("", "a"));
    assert!(same_text("névé—雪", "névé—雪"));
    assert!(!same_text("neve", "névé"));
}

#[test]
fn after_last_takes_the_tail() {
    assert_eq!(after_last("a,b,c", ','), "c");
    assert_eq!(after_last("abc", ','), "abc");
    assert_eq!(after_last("abc,", ','), "");
    assert_eq!(after_last(",abc", ','), "abc");
    assert_eq!(after_last("", ','), "");
    assert_eq!(after_last("é@ü@ñandú", '@'), "ñandú");
}

#[test]
fn push_decimal_appends_the_numeral() {
    for (n, text) in [(0u64, "0"), (9, "9"), (10, "10"), (105, "105"), (9_007_199_254_740_993, "9007199254740993")] {
        let mut out = String::from("n=");
        push_decimal(&mut out, n);
        assert_eq!(out, format!("n={}", text));
    }
}

#[test]
fn timestamps_order_by_seconds_then_nanoseconds() {
    let a = Timestamp { secs: 5, nanos: 10 };
    let b = Timestamp { secs: 5, nanos: 11 };
    let c = Timestamp { secs: 6, nanos: 0 };
    let d = Timestamp { secs: -1, nanos: 999 };
    assert!(b.is_later_than(&a));
    assert!(!a.is_later_than(&b));
    assert!(!a.is_later_than(&a));
    assert!(c.is_later_than(&b));
    assert!(!b.is_later_than(&c));
    assert!(a.is_later_than(&d));
}

#[test]
fn id_map_keeps_insertion_order_and_unique_keys() {
    let mut map: IdMap<u32> = IdMap::new();
    map.insert("b".to_string(), 2);
    map.insert("a".to_string(), 1);
    map.insert("b".to_string(), 20);
    assert_eq!(map.len(), 2);
    assert_eq!(map.find("b"), Some(0));
    assert_eq!(map.find("a"), Some(1));
    assert_eq!(map.find("c"), None);
    assert_eq!(map.key_at(0), "b");
    assert_eq!(*map.value_at(0), 20);
    *map.value_at_mut(1) = 11;
    assert_eq!(*map.value_at(1), 11);
    assert_eq!(map.remove("b"), Some(20));
    assert_eq!(map.remove("b"), None);
    assert_eq!(map.len(), 1);
    assert_eq!(map.find("a"), Some(0));
}

#[test]
fn bounded_log_keeps_the_last_thousand() {
    let mut log: BoundedLog<u32> = BoundedLog::new();
    assert_eq!(CAPACITY, 1000);
    for i in 0..1000 {
        log.push(i);
    }
    assert_eq!(log.len(), 1000);
    assert_eq!(*log.get(0), 0);
    log.push(1000);
    assert_eq!(log.len(), 1000);
    assert_eq!(*log.get(0), 1);
    assert_eq!(*log.get(999), 1000);
    let recent: Vec<u32> = log.recent(3).into_iter().copied().collect();
    assert_eq!(recent, vec![1000, 999, 998]);
    assert_eq!(log.remove_at(0), 1);
    assert_eq!(log.len(), 999);
    assert_eq!(log.recent(5000).len(), 999);
    log.clear();
    assert_eq!(log.len(), 0);
    assert!(log.recent(10).is_empty());
}
