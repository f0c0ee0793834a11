use novadb_session::export::{
    escape_csv_field, export_results, extract_keys, extract_keys_recursive, format_value_for_csv,
    less_text, merge_key, push_joined, to_csv, ExportError, ExportPlan,
};
use novadb_session::json::{JsonObject, JsonValue};

fn text(s: &str) -> JsonValue {
    JsonValue::Text(s.to_string())
}

fn number(s: &str) -> JsonValue {
    JsonValue::Number(s.to_string())
}

fn object(fields: Vec<(&str, JsonValue)>, compact: &str) -> JsonValue {
    let mut keys = Vec::new();
    let mut values = Vec::new();
    for (k, v) in fields {
        keys.push(k.to_string());
        values.push(v);
    }
    JsonValue::Object(JsonObject { keys, values, compact: compact.to_string() })
}

fn strings(items: &[&str]) -> Vec<String> {
    items.iter().map(|s| s.to_string()).collect()
}

#[test]
fn plain_fields_are_left_alone() {
    assert_eq!(escape_csv_field(""), "");
    assert_eq!(escape_csv_field("plain"), "plain");
    assert_eq!(escape_csv_field("semi;colon and space"), "semi;colon and space");
    assert_eq!(escape_csv_field("tab\tand\rreturn"), "tab\tand\rreturn");
}

#[test]
fn fields_with_comma_quote_or_line_feed_are_quoted() {
    assert_eq!(escape_csv_field("a,b"), "\"a,b\"");
    assert_eq!(escape_csv_field("line\nbreak"), "\"line\nbreak\"");
    assert_eq!(escape_csv_field("say \"hi\""), "\"say \"\"hi\"\"\"");
    assert_eq!(escape_csv_field("\""), "\"\"\"\"");
    assert_eq!(escape_csv_field(","), "\",\"");
    assert_eq!(escape_csv_field("é,\"ü\""), "\"é,\"\"ü\"\"\"");
}

#[test]
fn push_joined_puts_the_separator_between() {
    let mut out = String::from(">");
    push_joined(&mut out, &strings(&["a", "", "c"]), ',');
    assert_eq!(out, ">a,,c");
    let mut one = String::new();
    push_joined(&mut one, &strings(&["solo"]), ',');
    assert_eq!(one, "solo");
    let mut none = String::from("x");
    push_joined(&mut none, &Vec::new(), ',');
    assert_eq!(none, "x");
}

#[test]
fn values_are_formatted_by_kind() {
    assert_eq!(format_value_for_csv(&JsonValue::Null), "");
    assert_eq!(format_value_for_csv(&JsonValue::Bool(true)), "true");
    assert_eq!(format_value_for_csv(&JsonValue::Bool(false)), "false");
    assert_eq!(format_value_for_csv(&number("-12.5e3")), "-12.5e3");
    assert_eq!(format_value_for_csv(&text("a,b")), "a,b");
    assert_eq!(format_value_for_csv(&object(vec![("k", number("1"))], "{\"k\":1}")), "{\"k\":1}");
}

#[test]
fn arrays_are_bracketed_and_joined_by_semicolons() {
    assert_eq!(format_value_for_csv(&JsonValue::Array(vec![])), "[]");
    assert_eq!(format_value_for_csv(&JsonValue::Array(vec![number("1")])), "[1]");
    let mixed = JsonValue::Array(vec![
        number("1"),
        text("two"),
        JsonValue::Null,
        JsonValue::Bool(true),
        JsonValue::Array(vec![number("3"), number("4")]),
        object(vec![("a", number("5"))], "{\"a\":5}"),
    ]);
    assert_eq!(format_value_for_csv(&mixed), "[1;two;;true;[3;4];{\"a\":5}]");
}

#[test]
fn strings_are_ordered_by_their_bytes() {
    assert!(less_text("a", "b"));
    assert!(!less_text("b", "a"));
    assert!(!less_text("a", "a"));
    assert!(less_text("", "a"));
    assert!(!less_text("a", ""));
    assert!(!less_text("", ""));
    assert!(less_text("ab", "abc"));
    assert!(less_text("Z", "a"));
    assert!(less_text("a.b", "ab"));
    assert!(less_text("z", "é"));
}

#[test]
fn merge_key_keeps_the_list_ascending_and_free_of_duplicates() {
    let mut keys: Vec<String> = Vec::new();
    for k in ["m", "a", "z", "m", "b", "a", "zz", ""] {
        merge_key(&mut keys, k.to_string());
    }
    assert_eq!(keys, strings(&["", "a", "b", "m", "z", "zz"]));
}

#[test]
fn keys_of_a_flat_document_are_sorted() {
    let doc = object(vec![("name", text("x")), ("age", number("3")), ("_id", text("1"))], "{}");
    assert_eq!(extract_keys(&doc), strings(&["_id", "age", "name"]));
}

#[test]
fn keys_of_nested_objects_are_dotted_paths() {
    let doc = object(
        vec![
            ("user", object(vec![("name", text("x")), ("address", object(vec![("city", text("y"))], "{}"))], "{}")),
            ("id", number("1")),
            ("tags", JsonValue::Array(vec![object(vec![("deep", number("1"))], "{}")])),
            ("empty", object(vec![], "{}")),
        ],
        "{}",
    );
    assert_eq!(extract_keys(&doc), strings(&["id", "tags", "user.address.city", "user.name"]));
}

#[test]
fn a_path_reached_twice_is_listed_once() {
    let doc = object(vec![("a.b", number("1")), ("a", object(vec![("b", number("2"))], "{}"))], "{}");
    assert_eq!(extract_keys(&doc), strings(&["a.b"]));
}

#[test]
fn an_empty_field_name_adds_no_prefix() {
    let doc = object(vec![("", object(vec![("x", number("1"))], "{}"))], "{}");
    assert_eq!(extract_keys(&doc), strings(&["x"]));
}

#[test]
fn only_objects_have_keys() {
    assert!(extract_keys(&JsonValue::Null).is_empty());
    assert!(extract_keys(&text("x")).is_empty());
    assert!(extract_keys(&JsonValue::Array(vec![object(vec![("a", number("1"))], "{}")])).is_empty());
    assert!(extract_keys(&object(vec![], "{}")).is_empty());
}

#[test]
fn extract_keys_recursive_extends_the_given_list() {
    let inner = JsonObject {
        keys: strings(&["y", "x"]),
        values: vec![number("1"), number("2")],
        compact: String::new(),
    };
    let mut keys = strings(&["b", "p.x"]);
    extract_keys_recursive(&inner, &mut keys, "p".to_string());
    assert_eq!(keys, strings(&["b", "p.x", "p.y"]));
}

#[test]
fn fields_without_a_value_are_not_read() {
    let lopsided = JsonObject {
        keys: strings(&["a", "b", "c"]),
        values: vec![number("1")],
        compact: String::new(),
    };
    assert_eq!(lopsided.len(), 1);
    assert!(lopsided.get("a").is_some());
    assert!(lopsided.get("b").is_none());
    assert_eq!(extract_keys(&JsonValue::Object(lopsided)), strings(&["a"]));
}

#[test]
fn no_documents_give_no_text() {
    assert_eq!(to_csv(&Vec::new(), None), Ok(String::new()));
    assert_eq!(to_csv(&Vec::new(), Some(strings(&["a"]))), Ok(String::new()));
}

#[test]
fn csv_with_columns_of_the_first_document() {
    let docs = vec![
        object(vec![("name", text("Ann")), ("age", number("31"))], "{}"),
        object(vec![("age", number("40")), ("name", text("Bob, Jr.")), ("extra", text("x"))], "{}"),
        object(vec![("name", text("say \"hi\""))], "{}"),
    ];
    assert_eq!(
        to_csv(&docs, None),
        Ok("age,name\n31,Ann\n40,\"Bob, Jr.\"\n,\"say \"\"hi\"\"\"\n".to_string())
    );
}

#[test]
fn csv_with_given_columns() {
    let docs = vec![
        object(
            vec![
                ("a", number("1")),
                ("b", JsonValue::Array(vec![number("1"), number("2")])),
                ("c", object(vec![("k", text("v"))], "{\"k\":\"v\"}")),
                ("d", JsonValue::Null),
            ],
            "{}",
        ),
        text("not an object"),
    ];
    assert_eq!(
        to_csv(&docs, Some(strings(&["c", "missing", "b", "a", "d"]))),
        Ok("c,missing,b,a,d\n\"{\"\"k\"\":\"\"v\"\"}\",,[1;2],1,\n,,,,\n".to_string())
    );
}

#[test]
fn the_header_line_is_written_as_given() {
    let docs = vec![object(vec![("a,b", number("1"))], "{}")];
    assert_eq!(to_csv(&docs, Some(strings(&["a,b"]))), Ok("a,b\n1\n".to_string()));
}

#[test]
fn nested_columns_stay_empty_unless_a_field_has_the_dotted_name() {
    let docs = vec![
        object(vec![("user", object(vec![("name", text("Ann"))], "{}"))], "{}"),
        object(vec![("user.name", text("Bob"))], "{}"),
    ];
    assert_eq!(to_csv(&docs, None), Ok("user.name\n\nBob\n".to_string()));
}

#[test]
fn csv_without_columns() {
    let docs = vec![number("1"), number("2")];
    assert_eq!(to_csv(&docs, None), Ok("\n\n\n".to_string()));
    assert_eq!(to_csv(&docs, Some(Vec::new())), Ok("\n\n\n".to_string()));
}

#[test]
fn export_as_csv_reads_the_headers() {
    let options = object(
        vec![("headers", JsonValue::Array(vec![text("b"), number("1"), text("a"), JsonValue::Null]))],
        "{}",
    );
    match export_results("csv", Some(&options)) {
        Ok(ExportPlan::Csv { headers }) => assert_eq!(headers, Some(strings(&["b", "a"]))),
        _ => panic!("a CSV export was asked for"),
    }
}

#[test]
fn export_as_csv_without_usable_headers() {
    for options in [
        None,
        Some(object(vec![], "{}")),
        Some(object(vec![("headers", text("a,b"))], "{}")),
        Some(JsonValue::Array(vec![text("a")])),
    ] {
        match export_results("csv", options.as_ref()) {
            Ok(ExportPlan::Csv { headers }) => assert_eq!(headers, None),
            _ => panic!("a CSV export was asked for"),
        }
    }
}

#[test]
fn export_as_json_reads_pretty() {
    let cases = vec![
        (None, false),
        (Some(object(vec![("pretty", JsonValue::Bool(true))], "{}")), true),
        (Some(object(vec![("pretty", JsonValue::Bool(false))], "{}")), false),
        (Some(object(vec![("pretty", text("true"))], "{}")), false),
        (Some(object(vec![("headers", JsonValue::Array(vec![]))], "{}")), false),
    ];
    for (options, expected) in cases {
        match export_results("json", options.as_ref()) {
            Ok(ExportPlan::Json { pretty }) => assert_eq!(pretty, expected),
            _ => panic!("a JSON export was asked for"),
        }
    }
}

#[test]
fn other_export_formats_are_refused() {
    for format in ["xml", "", "CSV", "Json", "csv ", "jso"] {
        match export_results(format, None) {
            Err(e) => {
                assert_eq!(e, ExportError::UnsupportedFormat);
                assert_eq!(e.message(), "Unsupported export format. Use 'csv' or 'json'");
            }
            Ok(_) => panic!("the format is not known"),
        }
    }
}
