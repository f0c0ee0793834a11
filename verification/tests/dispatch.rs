use novadb_session::explain::{explain_query, ExplainError, ExplainPlan};
use novadb_session::index::{analyze_index_usage, get_index_recommendations};
use novadb_session::json::{JsonObject, JsonValue};
use novadb_session::options::{create_index_with_options, find_with_options, to_signed, to_unsigned};

fn text(s: &str) -> JsonValue {
    JsonValue::Text(s.to_string())
}

fn object(fields: Vec<(&str, JsonValue)>) -> JsonValue {
    let mut keys = Vec::new();
    let mut values = Vec::new();
    for (k, v) in fields {
        keys.push(k.to_string());
        values.push(v);
    }
    JsonValue::Object(JsonObject { keys, values, compact: String::new() })
}

fn names(entries: Vec<&JsonValue>) -> Vec<String> {
    entries
        .into_iter()
        .map(|e| match e.get("name") {
            Some(JsonValue::Text(n)) => n.clone(),
            _ => String::from("?"),
        })
        .collect()
}

#[test]
fn bits_are_read_as_signed() {
    assert_eq!(to_signed(0), 0);
    assert_eq!(to_signed(25), 25);
    assert_eq!(to_signed(i64::MAX as u64), i64::MAX);
    assert_eq!(to_signed(i64::MAX as u64 + 1), i64::MIN);
    assert_eq!(to_signed(u64::MAX), -1);
    assert_eq!(to_signed(u64::MAX - 41), -42);
}

#[test]
fn bits_are_read_as_unsigned() {
    assert_eq!(to_unsigned(0), 0);
    assert_eq!(to_unsigned(3600), 3600);
    assert_eq!(to_unsigned(i64::MAX), i64::MAX as u64);
    assert_eq!(to_unsigned(-1), u64::MAX);
    assert_eq!(to_unsigned(i64::MIN), 1u64 << 63);
    assert_eq!(to_unsigned(-42), u64::MAX - 41);
}

#[test]
fn find_settings_carry_what_was_given() {
    let all = find_with_options(Some("sort"), Some(10), Some(5), Some("projection"));
    assert_eq!(all.sort, Some("sort"));
    assert_eq!(all.limit, Some(10));
    assert_eq!(all.skip, Some(5));
    assert_eq!(all.projection, Some("projection"));

    let none = find_with_options::<&str>(None, None, None, None);
    assert_eq!((none.sort, none.limit, none.skip, none.projection), (None, None, None, None));

    assert_eq!(find_with_options::<()>(None, Some(u64::MAX), None, None).limit, Some(-1));
}

#[test]
fn index_settings_carry_what_was_given() {
    let s = create_index_with_options(
        Some("by_email".to_string()),
        Some(true),
        Some(false),
        None,
        Some(3600),
        Some("filter"),
        Some(3),
        Some("english".to_string()),
    );
    assert_eq!(s.name, Some("by_email".to_string()));
    assert_eq!(s.unique, Some(true));
    assert_eq!(s.sparse, Some(false));
    assert_eq!(s.background, None);
    assert_eq!(s.expire_after_secs, Some(3600));
    assert_eq!(s.partial_filter_expression, Some("filter"));
    assert_eq!(s.text_index_version, Some(3));
    assert_eq!(s.default_language, Some("english".to_string()));

    let bare = create_index_with_options::<()>(None, None, None, None, None, None, None, None);
    assert_eq!(bare.expire_after_secs, None);
    assert_eq!(bare.name, None);

    let negative = create_index_with_options::<()>(None, None, None, None, Some(-1), None, None, None);
    assert_eq!(negative.expire_after_secs, Some(u64::MAX));
}

#[test]
fn explain_a_find_needs_its_filter() {
    match explain_query("find", Some(7), Some(vec![1, 2])) {
        Ok(ExplainPlan::Find { filter }) => assert_eq!(filter, 7),
        _ => panic!("a find was to be explained"),
    }
    let missing = explain_query::<u32>("find", None, Some(vec![1]));
    assert_eq!(missing.err(), Some(ExplainError::FilterRequired));
    assert_eq!(ExplainError::FilterRequired.message(), "Filter required for find query");
}

#[test]
fn explain_an_aggregation_needs_its_pipeline() {
    match explain_query("aggregate", Some(7), Some(vec![1, 2])) {
        Ok(ExplainPlan::Aggregate { pipeline }) => assert_eq!(pipeline, vec![1, 2]),
        _ => panic!("an aggregation was to be explained"),
    }
    let missing = explain_query::<u32>("aggregate", Some(1), None);
    assert_eq!(missing.err(), Some(ExplainError::PipelineRequired));
    assert_eq!(ExplainError::PipelineRequired.message(), "Pipeline required for aggregate query");
}

#[test]
fn explain_of_another_query_type_is_refused() {
    for kind in ["count", "", "Find", "find ", "aggregat"] {
        let r = explain_query::<u32>(kind, Some(1), Some(vec![]));
        assert_eq!(r.err(), Some(ExplainError::InvalidQueryType));
    }
    assert_eq!(
        ExplainError::InvalidQueryType.message(),
        "Invalid query type. Use 'find' or 'aggregate'"
    );
}

#[test]
fn usage_entries_are_the_documents_of_the_first_batch() {
    let stats = object(vec![
        ("ok", JsonValue::Number("1".to_string())),
        (
            "cursor",
            object(vec![(
                "firstBatch",
                JsonValue::Array(vec![
                    object(vec![("name", text("_id_"))]),
                    text("stray"),
                    object(vec![("name", text("by_email"))]),
                    JsonValue::Null,
                ]),
            )]),
        ),
    ]);
    assert_eq!(names(analyze_index_usage(&stats)), vec!["_id_", "by_email"]);
}

#[test]
fn a_reply_of_another_shape_holds_no_usage_entries() {
    assert!(analyze_index_usage(&JsonValue::Null).is_empty());
    assert!(analyze_index_usage(&object(vec![])).is_empty());
    assert!(analyze_index_usage(&object(vec![("cursor", text("x"))])).is_empty());
    assert!(analyze_index_usage(&object(vec![("cursor", object(vec![]))])).is_empty());
    assert!(analyze_index_usage(&object(vec![("cursor", object(vec![("firstBatch", object(vec![]))]))])).is_empty());
    assert!(analyze_index_usage(&object(vec![("firstBatch", JsonValue::Array(vec![object(vec![])]))])).is_empty());
}

#[test]
fn no_advice_where_the_id_index_exists() {
    let indexes = vec![object(vec![("name", text("by_email"))]), object(vec![("name", text("_id_"))])];
    assert!(get_index_recommendations(&indexes).is_empty());
}

#[test]
fn advice_where_the_id_index_is_missing() {
    let cases = vec![
        vec![],
        vec![object(vec![("name", text("by_email"))])],
        vec![object(vec![("name", JsonValue::Number("1".to_string()))]), object(vec![])],
        vec![object(vec![("title", text("_id_"))]), text("_id_")],
    ];
    for indexes in cases {
        let advice = get_index_recommendations(&indexes);
        assert_eq!(advice.len(), 1);
        assert_eq!(advice[0].kind, "missing");
        assert_eq!(advice[0].field, "_id");
        assert_eq!(advice[0].recommendation, "Ensure _id index exists (should be automatic)");
    }
}
