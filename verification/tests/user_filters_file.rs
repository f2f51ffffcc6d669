use ccr::json_schema::{json_to_schema, schema_of_text, JsonValue, Schema};
use ccr::handlers::json::{filter_with_schema, JsonHandler};
use ccr::user_filters::{UserCommandFilter, UserFilterHandler, UserFiltersFile};

fn with_max(n: usize) -> UserCommandFilter {
    UserCommandFilter { max_lines: Some(n), ..Default::default() }
}

#[test]
fn filters_file_get_after_insert_sees_latest() {
    let mut f = UserFiltersFile::default();
    assert!(f.get("make").is_none());
    f.insert("make".to_string(), with_max(1));
    f.insert("cargo".to_string(), with_max(2));
    f.insert("make".to_string(), with_max(3));
    assert_eq!(f.get("make").and_then(|d| d.max_lines), Some(3));
    assert_eq!(f.get("cargo").and_then(|d| d.max_lines), Some(2));
    assert!(f.get("npm").is_none());
}

#[test]
fn filters_file_merge_lets_later_file_win() {
    let mut global = UserFiltersFile::default();
    global.insert("make".to_string(), with_max(1));
    global.insert("cargo".to_string(), with_max(2));
    let mut local = UserFiltersFile::default();
    local.insert("make".to_string(), with_max(9));
    local.insert("npm".to_string(), with_max(4));
    global.merge(local);
    assert_eq!(global.get("make").and_then(|d| d.max_lines), Some(9));
    assert_eq!(global.get("cargo").and_then(|d| d.max_lines), Some(2));
    assert_eq!(global.get("npm").and_then(|d| d.max_lines), Some(4));
}

#[test]
fn user_filter_without_rules_keeps_lines_joined() {
    let h = UserFilterHandler { filter_def: UserCommandFilter::default() };
    assert_eq!(h.filter("a\r\nb\n", &[]), "a\nb");
    assert_eq!(h.filter("", &[]), "");
}

#[test]
fn user_filter_max_lines_zero_gives_on_empty() {
    let def = UserCommandFilter {
        max_lines: Some(0),
        on_empty: Some("(none)".to_string()),
        ..Default::default()
    };
    let h = UserFilterHandler { filter_def: def };
    assert_eq!(h.filter("a\nb", &[]), "(none)");
}

// ── JSON schema ──────────────────────────────────────────────────────────────

fn render(s: &Schema) -> String {
    match s {
        Schema::Name(n) => n.clone(),
        Schema::List(items) => format!("[{}]", items.iter().map(render).collect::<Vec<_>>().join(",")),
        Schema::Fields(fields) => format!(
            "{{{}}}",
            fields.iter().map(|(k, v)| format!("{}:{}", k, render(v))).collect::<Vec<_>>().join(",")
        ),
    }
}

#[test]
fn json_schema_names_types_and_counts_items() {
    let doc = JsonValue::Object(vec![
        ("id".to_string(), JsonValue::Number { integral: true }),
        ("score".to_string(), JsonValue::Number { integral: false }),
        ("ok".to_string(), JsonValue::Bool(true)),
        ("tags".to_string(), JsonValue::Array(vec![JsonValue::Str("a".to_string()), JsonValue::Null])),
        ("none".to_string(), JsonValue::Array(vec![])),
    ]);
    assert_eq!(
        render(&json_to_schema(&doc)),
        "{id:int,score:float,ok:bool,tags:[string,[2 items total]],none:[]}"
    );
}

#[test]
fn json_schema_of_text_parses_and_renders() {
    assert_eq!(schema_of_text("not json"), None);
    let rendered = schema_of_text("[1, 2, 3]").expect("valid JSON").expect("renders");
    assert_eq!(rendered, "[\n  \"int\",\n  \"[3 items total]\"\n]");
}

#[test]
fn json_filter_with_schema_compares_bytes_of_trimmed_output() {
    assert_eq!(filter_with_schema("  [1,2,3]  ", Some("[x]")), "[x]");
    assert_eq!(filter_with_schema("[1]", Some("[int]")), "[1]");
    assert_eq!(filter_with_schema("[1]", None), "[1]");
}

#[test]
fn json_handler_replaces_large_array_by_schema() {
    let input = format!("[{}]", (0..50).map(|i| format!("{{\"n\":{}}}", i)).collect::<Vec<_>>().join(","));
    let out = JsonHandler.filter(&input, &[]);
    assert_eq!(out, "[\n  {\n    \"n\": \"int\"\n  },\n  \"[50 items total]\"\n]");
}
