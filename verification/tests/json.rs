use simpleedit::preview::json::{
    brackets, child_path, container_paths, is_container, parse, scalar_text, tree_rows, JsonValue, Tone,
    TreeRow, MAX_ROWS, ROOT,
};

fn s(text: &str) -> String {
    text.to_string()
}

fn num(text: &str) -> JsonValue {
    JsonValue::Number(s(text))
}

fn obj(members: Vec<(&str, JsonValue)>) -> JsonValue {
    JsonValue::Object(members.into_iter().map(|(k, v)| (s(k), v)).collect())
}

fn value(src: &str) -> JsonValue {
    parse(src).expect("valid json")
}

fn sorted(paths: Vec<String>) -> Vec<String> {
    let mut paths = paths;
    paths.sort_unstable();
    paths
}

#[test]
fn parse_reports_errors() {
    assert!(parse("{").is_err());
    assert!(parse(r#"{"a": 1}"#).is_ok());
}

#[test]
fn object_key_order_is_preserved() {
    let v = value(r#"{"b": 1, "a": 2, "c": 3}"#);
    let keys: Vec<&str> = match &v {
        JsonValue::Object(members) => members.iter().map(|(k, _)| k.as_str()).collect(),
        _ => panic!("not an object"),
    };
    assert_eq!(keys, ["b", "a", "c"]);
}

#[test]
fn container_paths_covers_nested_nodes() {
    let paths = container_paths(&value(r#"{"a": {"b": [1, {"c": 2}]}}"#));
    assert_eq!(sorted(paths), ["$", "$.a", "$.a.b", "$.a.b[1]"]);
}

#[test]
fn container_paths_skips_empty_and_scalar_nodes() {
    let paths = container_paths(&value(r#"{"a": {}, "b": [], "c": 1}"#));
    assert_eq!(paths.len(), 1);
    assert!(paths.iter().any(|p| p == ROOT));
}

#[test]
fn scalars_render_as_json() {
    assert_eq!(scalar_text(&value(r#""a\"b""#)), r#""a\"b""#);
    assert_eq!(scalar_text(&value("1.5")), "1.5");
    assert_eq!(scalar_text(&value("null")), "null");
    assert_eq!(scalar_text(&value("true")), "true");
}

#[test]
fn brackets_report_child_counts() {
    assert_eq!(brackets(&value(r#"{"a": 1, "b": 2}"#)), ("{", "}", 2));
    assert_eq!(brackets(&value("[1, 2, 3]")), ("[", "]", 3));
}

#[test]
fn parsed_documents_keep_their_shape() {
    let v = value(r#"[null, false, -0.5e3, "x\ny", {"k": []}]"#);
    match &v {
        JsonValue::Array(items) => {
            assert_eq!(items.len(), 5);
            assert!(matches!(items[0], JsonValue::Null));
            assert!(matches!(items[1], JsonValue::Bool(false)));
            assert!(matches!(&items[2], JsonValue::Number(n) if n == "-500.0"));
            assert!(matches!(&items[3], JsonValue::String(t) if t == "x\ny"));
            assert!(matches!(&items[4], JsonValue::Object(m) if m.len() == 1 && m[0].0 == "k"));
        }
        _ => panic!("not an array"),
    }
    let err = parse("[1,").unwrap_err();
    assert!(err.contains("line 1"), "{err}");
}

#[test]
fn strings_escape_control_characters() {
    assert_eq!(
        scalar_text(&JsonValue::String(s("\\\n\t\u{1}\u{7f}\u{e9}"))),
        "\"\\\\\\n\\t\\u0001\u{7f}\u{e9}\""
    );
    assert_eq!(scalar_text(&JsonValue::Bool(false)), "false");
}

#[test]
fn child_paths_index_arrays_and_name_members() {
    assert_eq!(child_path("$.a", "", Some(12)), "$.a[12]");
    assert_eq!(child_path("$", "key", None), "$.key");
}

#[test]
fn only_non_empty_containers_fold() {
    assert!(!is_container(&JsonValue::Array(Vec::new())));
    assert!(is_container(&JsonValue::Array(vec![JsonValue::Null])));
    assert!(!is_container(&num("3")));
    assert_eq!(brackets(&num("3")), ("", "", 0));
}

#[test]
fn duplicate_paths_are_listed_once() {
    // {"a.b": {"x": 1}, "a": {"b": {"y": 1}}}: two nodes share "$.a.b".
    let doc = obj(vec![
        ("a.b", obj(vec![("x", num("1"))])),
        ("a", obj(vec![("b", obj(vec![("y", num("1"))]))])),
    ]);
    assert_eq!(sorted(container_paths(&doc)), ["$", "$.a", "$.a.b"]);
}

fn row(depth: usize, toggle: Option<(&str, bool)>, key: Option<&str>, text: &str, count: Option<usize>, tone: Tone) -> TreeRow {
    TreeRow {
        depth,
        toggle: toggle.map(|(p, open)| (s(p), open)),
        key: key.map(s),
        text: s(text),
        count,
        tone,
    }
}

#[test]
fn an_open_tree_lists_every_node_with_closing_rows() {
    // {"a": [1, "x"], "b": null}
    let doc = obj(vec![
        ("a", JsonValue::Array(vec![num("1"), JsonValue::String(s("x"))])),
        ("b", JsonValue::Null),
    ]);
    let (rows, truncated) = tree_rows(&doc, &Vec::new());
    assert!(!truncated);
    assert_eq!(
        rows,
        vec![
            row(0, Some(("$", true)), None, "{", None, Tone::Muted),
            row(1, Some(("$.a", true)), Some("\"a\": "), "[", None, Tone::Muted),
            row(2, None, None, "1,", None, Tone::Number),
            row(2, None, None, "\"x\"", None, Tone::Text),
            row(1, None, None, "],", None, Tone::Muted),
            row(1, None, Some("\"b\": "), "null", None, Tone::Literal),
            row(0, None, None, "}", None, Tone::Muted),
        ]
    );
}

#[test]
fn a_collapsed_path_folds_into_one_row() {
    let doc = obj(vec![
        ("a", JsonValue::Array(vec![num("1"), num("2")])),
        ("b", JsonValue::Object(Vec::new())),
    ]);
    let (rows, truncated) = tree_rows(&doc, &vec![s("$.a")]);
    assert!(!truncated);
    assert_eq!(
        rows,
        vec![
            row(0, Some(("$", true)), None, "{", None, Tone::Muted),
            row(1, Some(("$.a", false)), Some("\"a\": "), "[ \u{2026} ],", Some(2), Tone::Muted),
            row(1, None, Some("\"b\": "), "{}", None, Tone::Muted),
            row(0, None, None, "}", None, Tone::Muted),
        ]
    );
    let (rows, _) = tree_rows(&doc, &vec![s("$")]);
    assert_eq!(rows, vec![row(0, Some(("$", false)), None, "{ \u{2026} }", Some(2), Tone::Muted)]);
}

#[test]
fn a_huge_document_is_cut_at_the_row_budget() {
    let items: Vec<JsonValue> = (0..MAX_ROWS + 5).map(|_| JsonValue::Null).collect();
    let doc = JsonValue::Array(items);
    let (rows, truncated) = tree_rows(&doc, &Vec::new());
    assert!(truncated);
    // The opening row and MAX_ROWS - 1 items; no closing row.
    assert_eq!(rows.len(), MAX_ROWS);
    assert_eq!(rows[0].text, "[");
    assert_eq!(rows[rows.len() - 1].text, "null,");
}

#[test]
fn every_chevron_toggles_a_container_path() {
    let doc = obj(vec![
        ("a", JsonValue::Array(vec![obj(vec![("c", num("1"))]), num("2")])),
        ("b", obj(vec![("d", JsonValue::Array(Vec::new()))])),
    ]);
    let paths = container_paths(&doc);
    for collapsed in [Vec::new(), vec![s("$.b")], vec![s("$.a[0]"), s("$.a")]] {
        let (rows, _) = tree_rows(&doc, &collapsed);
        for r in rows {
            if let Some((p, _)) = r.toggle {
                assert!(paths.contains(&p), "{p} is not a container path");
            }
        }
    }
}
