use pajamas::path::{parse_array_index, path_indices_fit, split_path};
use pajamas::render::{decimal_text, render_value, signed_decimal_text};
use pajamas::resolve::get_array_index;
use pajamas::{fetch, json_value_type, JsonNumber, JsonValue, PajamasError};

fn s(text: &str) -> JsonValue {
    JsonValue::String(text.to_string())
}

fn obj(members: Vec<(&str, JsonValue)>) -> JsonValue {
    JsonValue::Object(members.into_iter().map(|(k, v)| (k.to_string(), v)).collect())
}

fn arr(items: Vec<JsonValue>) -> JsonValue {
    JsonValue::Array(items)
}

#[test]
fn it_fetches_a_key_from_the_top_level() {
    assert_eq!(
        &JsonValue::String("bar".to_string()),
        fetch(Some("foo"), &obj(vec![("foo", s("bar"))])).unwrap()
    );
}

#[test]
fn it_fetches_a_key_from_the_second_level() {
    assert_eq!(
        &JsonValue::String("baz".to_string()),
        fetch(Some("foo.bar"), &obj(vec![("foo", obj(vec![("bar", s("baz"))]))])).unwrap()
    );
}

#[test]
fn it_fetches_a_key_from_the_third_level() {
    assert_eq!(
        &JsonValue::String("quux".to_string()),
        fetch(
            Some("foo.bar.baz"),
            &obj(vec![("foo", obj(vec![("bar", obj(vec![("baz", s("quux"))]))]))])
        )
        .unwrap()
    );
}

#[test]
fn it_allows_array_indexing() {
    assert_eq!(
        &JsonValue::String("quux".to_string()),
        fetch(Some("foo[2]"), &obj(vec![("foo", arr(vec![s("bar"), s("baz"), s("quux")]))])).unwrap()
    );
}

#[test]
fn it_allows_more_path_segments_after_array_index() {
    assert_eq!(
        &JsonValue::String("baz".to_string()),
        fetch(Some("foo[0].bar"), &obj(vec![("foo", arr(vec![obj(vec![("bar", s("baz"))])]))]))
            .unwrap()
    );
}

#[test]
fn absent_path_returns_whole_document() {
    let doc = obj(vec![("foo", s("bar")), ("n", JsonValue::Null)]);
    assert_eq!(fetch(None, &doc), Ok(&doc));
    let scalar = JsonValue::Bool(true);
    assert_eq!(fetch(None, &scalar), Ok(&scalar));
}

#[test]
fn single_key_returns_member() {
    let doc = obj(vec![("a", JsonValue::Number(JsonNumber::PosInt(1))), ("b", arr(vec![]))]);
    assert_eq!(fetch(Some("b"), &doc), Ok(&arr(vec![])));
    assert_eq!(fetch(Some("a"), &doc), Ok(&JsonValue::Number(JsonNumber::PosInt(1))));
}

#[test]
fn dotted_path_equals_two_steps() {
    let doc = obj(vec![("a", obj(vec![("b", s("x"))]))]);
    let first = fetch(Some("a"), &doc).unwrap();
    assert_eq!(fetch(Some("a.b"), &doc), fetch(Some("b"), first));
    assert_eq!(fetch(Some("a.b"), &doc), Ok(&s("x")));
}

#[test]
fn every_in_bounds_index_addresses_its_element() {
    let items = vec![s("x"), s("y"), JsonValue::Null];
    let doc = obj(vec![("foo", arr(items))]);
    let expected = [s("x"), s("y"), JsonValue::Null];
    for (i, e) in expected.iter().enumerate() {
        let path = format!("foo[{}]", i);
        assert_eq!(fetch(Some(&path), &doc), Ok(e));
    }
}

#[test]
fn index_past_end_is_invalid_array_index() {
    let doc = obj(vec![("foo", arr(vec![s("a")]))]);
    let expected = arr(vec![s("a")]);
    assert_eq!(fetch(Some("foo[5]"), &doc), Err(PajamasError::InvalidArrayIndex(5, &expected)));
    assert_eq!(fetch(Some("foo[1]"), &doc), Err(PajamasError::InvalidArrayIndex(1, &expected)));
}

#[test]
fn index_into_non_array_is_invalid_index_operation() {
    let doc = obj(vec![("foo", s("bar"))]);
    assert_eq!(fetch(Some("foo[0]"), &doc), Err(PajamasError::InvalidIndexOperation(&s("bar"))));
    let nested = obj(vec![("foo", obj(vec![("0", s("x"))]))]);
    let inner = obj(vec![("0", s("x"))]);
    assert_eq!(fetch(Some("foo[0]"), &nested), Err(PajamasError::InvalidIndexOperation(&inner)));
}

#[test]
fn missing_key_is_key_not_found() {
    let doc = obj(vec![("foo", s("bar"))]);
    assert_eq!(
        fetch(Some("missing"), &doc),
        Err(PajamasError::KeyNotFound("missing".to_string(), &doc))
    );
    assert_eq!(
        fetch(Some("missing[3]"), &doc),
        Err(PajamasError::KeyNotFound("missing".to_string(), &doc))
    );
}

#[test]
fn key_lookup_on_non_object_is_key_not_found() {
    let doc = obj(vec![("foo", s("bar"))]);
    assert_eq!(
        fetch(Some("foo.len"), &doc),
        Err(PajamasError::KeyNotFound("len".to_string(), &s("bar")))
    );
}

#[test]
fn first_failure_stops_resolution() {
    let doc = obj(vec![("a", obj(vec![]))]);
    let inner = obj(vec![]);
    assert_eq!(
        fetch(Some("a.b.c"), &doc),
        Err(PajamasError::KeyNotFound("b".to_string(), &inner))
    );
}

#[test]
fn chained_index_then_key() {
    let doc = obj(vec![("foo", arr(vec![obj(vec![("bar", s("baz"))])]))]);
    assert_eq!(fetch(Some("foo[0].bar"), &doc), Ok(&s("baz")));
}

#[test]
fn empty_key_with_index() {
    let doc = obj(vec![("", arr(vec![s("zero"), s("one")]))]);
    assert_eq!(fetch(Some("[1]"), &doc), Ok(&s("one")));
    assert_eq!(fetch(Some(""), &doc), Ok(&arr(vec![s("zero"), s("one")])));
}

#[test]
fn two_bracket_groups_make_a_plain_key() {
    let doc = obj(vec![("a[1]", arr(vec![s("p"), s("q"), s("r")]))]);
    assert_eq!(
        fetch(Some("a[1][2]"), &doc),
        Err(PajamasError::KeyNotFound("a[1][2]".to_string(), &doc))
    );
    let literal = obj(vec![("a[1][2]", s("lit"))]);
    assert_eq!(fetch(Some("a[1][2]"), &literal), Ok(&s("lit")));
    let inner = obj(vec![("x[", arr(vec![s("y")]))]);
    assert_eq!(
        fetch(Some("x[[0]"), &inner),
        Err(PajamasError::KeyNotFound("x[[0]".to_string(), &inner))
    );
}

#[test]
fn get_array_index_reports_each_case() {
    let doc = obj(vec![("foo", arr(vec![s("a"), s("b")])), ("bar", JsonValue::Null)]);
    let items = arr(vec![s("a"), s("b")]);
    assert_eq!(get_array_index("foo", 1, &doc), Ok(&s("b")));
    assert_eq!(get_array_index("foo", 2, &doc), Err(PajamasError::InvalidArrayIndex(2, &items)));
    assert_eq!(get_array_index("bar", 0, &doc), Err(PajamasError::InvalidIndexOperation(&JsonValue::Null)));
    assert_eq!(
        get_array_index("baz", 0, &doc),
        Err(PajamasError::KeyNotFound("baz".to_string(), &doc))
    );
}

#[test]
fn control_characters_are_escaped() {
    assert_eq!(render_value(&s("\u{1}\t\u{8}\u{c}\r\u{1f}")), "\"\\u0001\\t\\b\\f\\r\\u001f\"");
    assert_eq!(render_value(&s("é/")), "\"é/\"");
}

#[test]
fn text_after_bracket_is_a_plain_key() {
    let doc = obj(vec![("a[1]x", s("plain"))]);
    assert_eq!(fetch(Some("a[1]x"), &doc), Ok(&s("plain")));
    let doc2 = obj(vec![("a[]", s("empty"))]);
    assert_eq!(fetch(Some("a[]"), &doc2), Ok(&s("empty")));
}

#[test]
fn first_member_with_key_wins() {
    let doc = obj(vec![("k", s("first")), ("k", s("second"))]);
    assert_eq!(fetch(Some("k"), &doc), Ok(&s("first")));
}

#[test]
fn parse_array_index_splits_key_and_index() {
    assert_eq!(parse_array_index("foo[12]"), Some(("foo", 12)));
    assert_eq!(parse_array_index("[0]"), Some(("", 0)));
    assert_eq!(parse_array_index("x[007]"), Some(("x", 7)));
    assert_eq!(parse_array_index("foo"), None);
    assert_eq!(parse_array_index("foo[]"), None);
    assert_eq!(parse_array_index("foo[1a]"), None);
    assert_eq!(parse_array_index("foo1]"), None);
    assert_eq!(parse_array_index("a[1][2]"), None);
    assert_eq!(parse_array_index("a]b[3]"), Some(("a]b", 3)));
    assert_eq!(parse_array_index(""), None);
}

#[test]
fn split_path_keeps_empty_segments() {
    assert_eq!(split_path("a.b[1].c"), vec!["a", "b[1]", "c"]);
    assert_eq!(split_path(""), vec![""]);
    assert_eq!(split_path("a..b."), vec!["a", "", "b", ""]);
}

#[test]
fn indices_that_overflow_are_detected() {
    assert!(path_indices_fit("a[18446744073709551615].b"));
    assert!(!path_indices_fit("a.b[18446744073709551616]"));
    assert!(path_indices_fit("plain.keys"));
    assert!(path_indices_fit("x[99999999999999999999999]y"));
}

#[test]
fn value_kinds_are_named() {
    assert_eq!(json_value_type(&arr(vec![])), Some("array"));
    assert_eq!(json_value_type(&JsonValue::Bool(false)), Some("boolean"));
    assert_eq!(json_value_type(&JsonValue::Number(JsonNumber::Float("1.5".to_string()))), Some("f64"));
    assert_eq!(json_value_type(&JsonValue::Null), Some("null"));
    assert_eq!(json_value_type(&JsonValue::Number(JsonNumber::PosInt(3))), Some("number"));
    assert_eq!(json_value_type(&JsonValue::Number(JsonNumber::NegInt(-3))), Some("number"));
    assert_eq!(json_value_type(&obj(vec![])), Some("object"));
    assert_eq!(json_value_type(&s("")), Some("string"));
}

#[test]
fn integers_render_in_decimal() {
    assert_eq!(decimal_text(0), "0");
    assert_eq!(decimal_text(1207), "1207");
    assert_eq!(decimal_text(u64::MAX), "18446744073709551615");
    assert_eq!(signed_decimal_text(-45), "-45");
    assert_eq!(signed_decimal_text(i64::MIN), "-9223372036854775808");
    assert_eq!(signed_decimal_text(8), "8");
}

#[test]
fn values_render_as_compact_json() {
    let doc = obj(vec![
        ("a", arr(vec![JsonValue::Number(JsonNumber::PosInt(1)), JsonValue::Null, JsonValue::Bool(true)])),
        ("b", JsonValue::Number(JsonNumber::Float("2.5".to_string()))),
        ("c", obj(vec![])),
    ]);
    assert_eq!(render_value(&doc), "{\"a\":[1,null,true],\"b\":2.5,\"c\":{}}");
}

#[test]
fn strings_render_quoted_and_escaped() {
    assert_eq!(render_value(&s("say \"hi\"\n")), "\"say \\\"hi\\\"\\n\"");
    assert_eq!(render_value(&obj(vec![("k\\", s("v"))])), "{\"k\\\\\":\"v\"}");
}

#[test]
fn messages_describe_each_failure() {
    let doc = obj(vec![("foo", arr(vec![s("a")]))]);
    let err = fetch(Some("foo[5]"), &doc).unwrap_err();
    assert_eq!(err.message(), "Error: invalid array index\n  Array of length 1 has no index 5\n    [\"a\"]");

    let doc = obj(vec![("foo", s("bar"))]);
    let err = fetch(Some("foo[0]"), &doc).unwrap_err();
    assert_eq!(err.message(), "Error: cannot index into value of type string\n  \"bar\"");

    let err = fetch(Some("missing"), &doc).unwrap_err();
    assert_eq!(err.message(), "Error: key 'missing' not found in value:\n  {\"foo\":\"bar\"}");
}

#[test]
fn report_places_the_shown_text() {
    let items = arr(vec![s("a"), s("b")]);
    let err = PajamasError::InvalidArrayIndex(9, &items);
    assert_eq!(err.report("<v>"), "Error: invalid array index\n  Array of length 2 has no index 9\n    <v>");
    let value = JsonValue::Bool(true);
    let err = PajamasError::KeyNotFound("k.x".to_string(), &value);
    assert_eq!(err.report("true"), "Error: key 'k.x' not found in value:\n  true");
    assert_eq!(err.subject(), &JsonValue::Bool(true));
    assert_eq!(err.message(), "Error: key 'k.x' not found in value:\n  true");
}

#[test]
fn get_looks_up_object_members_only() {
    let doc = obj(vec![("a", JsonValue::Null), ("b", s("x"))]);
    assert_eq!(doc.get("b"), Some(&s("x")));
    assert_eq!(doc.get("c"), None);
    assert_eq!(arr(vec![s("b")]).get("b"), None);
    assert_eq!(s("b").get("b"), None);
}
