use novadb_session::clock::Timestamp;
use novadb_session::history::{QueryHistory, QueryHistoryEntry, QueryRecord, DEFAULT_QUERY_LIMIT};

fn entry(id: &str, connection: &str, secs: i64, nanos: u32) -> QueryHistoryEntry<u32> {
    QueryHistoryEntry {
        id: id.to_string(),
        connection_id: connection.to_string(),
        database: "shop".to_string(),
        collection: "orders".to_string(),
        query: QueryRecord::Find { filter: 1, sort: None, limit: None, skip: None, projection: None },
        executed_at: Timestamp { secs, nanos },
        execution_time_ms: Some(3),
    }
}

fn ids(entries: Vec<&QueryHistoryEntry<u32>>) -> Vec<String> {
    entries.into_iter().map(|e| e.id.clone()).collect()
}

#[test]
fn query_type_names_the_operation() {
    assert_eq!(entry("a", "c", 1, 0).query_type(), "find");
    let mut aggregate = entry("b", "c", 1, 0);
    aggregate.query = QueryRecord::Aggregate { pipeline: vec![1, 2] };
    assert_eq!(aggregate.query_type(), "aggregate");
}

#[test]
fn a_full_history_evicts_its_oldest_entry() {
    let mut history: QueryHistory<u32> = QueryHistory::new();
    for i in 0..1000 {
        history.record(entry(&format!("e{}", i), "c", i, 0));
    }
    assert_eq!(history.len(), 1000);
    history.record(entry("e1000", "c", 1000, 0));
    assert_eq!(history.len(), 1000);
    let all = ids(history.query(None, Some(5000)));
    assert_eq!(all.len(), 1000);
    assert!(!all.contains(&"e0".to_string()));
    assert_eq!(all[0], "e1000");
    assert_eq!(all[999], "e1");
}

#[test]
fn query_orders_newest_first() {
    let mut history: QueryHistory<u32> = QueryHistory::new();
    history.record(entry("a", "c", 30, 0));
    history.record(entry("b", "c", 10, 0));
    history.record(entry("c", "c", 20, 5));
    history.record(entry("d", "c", 20, 9));
    assert_eq!(ids(history.query(None, None)), vec!["a", "d", "c", "b"]);
    assert_eq!(history.len(), 4);
}

#[test]
fn entries_of_one_instant_keep_their_order() {
    let mut history: QueryHistory<u32> = QueryHistory::new();
    history.record(entry("a", "c", 5, 1));
    history.record(entry("b", "c", 9, 1));
    history.record(entry("c", "c", 5, 1));
    history.record(entry("d", "c", 9, 1));
    history.record(entry("e", "c", 5, 1));
    assert_eq!(ids(history.query(None, None)), vec!["b", "d", "a", "c", "e"]);
}

#[test]
fn query_filters_by_connection_then_limits() {
    let mut history: QueryHistory<u32> = QueryHistory::new();
    history.record(entry("a", "c1", 1, 0));
    history.record(entry("b", "c2", 2, 0));
    history.record(entry("c", "c1", 3, 0));
    history.record(entry("d", "c1", 4, 0));
    assert_eq!(ids(history.query(Some("c1"), None)), vec!["d", "c", "a"]);
    assert_eq!(ids(history.query(Some("c1"), Some(2))), vec!["d", "c"]);
    assert_eq!(ids(history.query(Some("c2"), Some(2))), vec!["b"]);
    assert!(history.query(Some("c3"), None).is_empty());
    assert!(history.query(None, Some(0)).is_empty());
}

#[test]
fn query_defaults_to_one_hundred_entries() {
    let mut history: QueryHistory<u32> = QueryHistory::new();
    for i in 0..150 {
        history.record(entry(&format!("e{}", i), "c", i, 0));
    }
    assert_eq!(DEFAULT_QUERY_LIMIT, 100);
    let got = ids(history.query(None, None));
    assert_eq!(got.len(), 100);
    assert_eq!(got[0], "e149");
    assert_eq!(got[99], "e50");
}

#[test]
fn delete_removes_by_identifier_and_is_idempotent() {
    let mut history: QueryHistory<u32> = QueryHistory::new();
    history.record(entry("a", "c", 1, 0));
    history.record(entry("b", "c", 2, 0));
    history.record(entry("a", "c", 3, 0));
    history.record(entry("c", "c", 4, 0));
    history.delete("a");
    assert_eq!(ids(history.query(None, None)), vec!["c", "b"]);
    history.delete("a");
    history.delete("zzz");
    assert_eq!(ids(history.query(None, None)), vec!["c", "b"]);
    history.delete("c");
    history.delete("b");
    assert_eq!(history.len(), 0);
}

#[test]
fn clear_removes_everything() {
    let mut history: QueryHistory<u32> = QueryHistory::new();
    history.record(entry("a", "c", 1, 0));
    history.record(entry("b", "c", 2, 0));
    history.clear();
    assert_eq!(history.len(), 0);
    assert!(history.query(None, None).is_empty());
    history.clear();
    assert_eq!(history.len(), 0);
}

#[test]
fn record_find_logs_the_parameters() {
    let mut history: QueryHistory<&str> = QueryHistory::new();
    let id = history.record_find(
        "c1".to_string(),
        "shop".to_string(),
        "orders".to_string(),
        "{filter}",
        Some("{sort}"),
        Some(25),
        None,
        Some("{projection}"),
        12,
    );
    assert_eq!(id.chars().count(), 36);
    let listed = history.query(Some("c1"), None);
    assert_eq!(listed.len(), 1);
    let e = listed[0];
    assert_eq!(e.id, id);
    assert_eq!(e.query_type(), "find");
    assert_eq!(e.database, "shop");
    assert_eq!(e.collection, "orders");
    assert_eq!(e.execution_time_ms, Some(12));
    assert!(e.executed_at.secs > 1_500_000_000);
    match &e.query {
        QueryRecord::Find { filter, sort, limit, skip, projection } => {
            assert_eq!(*filter, "{filter}");
            assert_eq!(*sort, Some("{sort}"));
            assert_eq!(*limit, Some(25));
            assert_eq!(*skip, None);
            assert_eq!(*projection, Some("{projection}"));
        }
        QueryRecord::Aggregate { .. } => panic!("a find was recorded"),
    }
}

#[test]
fn record_aggregate_logs_the_pipeline() {
    let mut history: QueryHistory<&str> = QueryHistory::new();
    let first = history.record_aggregate("c1".to_string(), "shop".to_string(), "orders".to_string(), vec!["{match}", "{group}"], 40);
    let second = history.record_aggregate("c1".to_string(), "shop".to_string(), "orders".to_string(), vec![], 1);
    assert_ne!(first, second);
    assert_eq!(history.len(), 2);
    let listed = history.query(None, None);
    let e = listed.iter().find(|e| e.id == first).unwrap();
    assert_eq!(e.query_type(), "aggregate");
    assert_eq!(e.execution_time_ms, Some(40));
    match &e.query {
        QueryRecord::Aggregate { pipeline } => assert_eq!(pipeline, &vec!["{match}", "{group}"]),
        QueryRecord::Find { .. } => panic!("an aggregation was recorded"),
    }
}
