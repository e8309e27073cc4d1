use versioned_data_engine::delta::diff;
use versioned_data_engine::fault::ApiError;
use versioned_data_engine::input::read_json;
use versioned_data_engine::json::Json;
use versioned_data_engine::number::Decimal;
use versioned_data_engine::replay::apply;

fn parse(text: &str) -> Json {
    read_json(text.as_bytes()).expect("test JSON should be valid")
}

fn to_value(j: &Json) -> serde_json::Value {
    match j {
        Json::Null => serde_json::Value::Null,
        Json::Bool(b) => serde_json::Value::Bool(*b),
        Json::Number(s) => serde_json::Value::Number(serde_json::from_str(s).unwrap()),
        Json::String(s) => serde_json::Value::String(s.clone()),
        Json::Array(v) => serde_json::Value::Array(v.iter().map(to_value).collect()),
        Json::Object(m) => serde_json::Value::Object(
            m.entries
                .iter()
                .map(|(k, v)| (k.clone(), to_value(v)))
                .collect(),
        ),
    }
}

fn render(j: &Json) -> String {
    serde_json::to_string(&to_value(j)).unwrap()
}

fn diff_ok(text: &str) -> Json {
    diff(&parse(text)).expect("diff should succeed")
}

fn apply_ok(text: &str) -> Json {
    apply(&parse(text)).expect("apply should succeed")
}

fn diff_err(text: &str) -> ApiError {
    diff(&parse(text)).unwrap_err()
}

fn apply_err(text: &str) -> ApiError {
    apply(&parse(text)).unwrap_err()
}

fn assert_same(result: &Json, expected: &str) {
    assert!(result.same(&parse(expected)), "{}", render(result));
}

#[test]
fn diff_add_remove_update() {
    let result = diff_ok(
        r#"{
            "before": [
                {"id": "b", "values": {"x": 1}},
                {"id": "c", "values": {"keep": true}}
            ],
            "after": [
                {"id": "a", "values": {"new": 1}},
                {"id": "b", "values": {"x": 2}}
            ]
        }"#,
    );
    assert_same(
        &result,
        r#"{"changes": [
            {"id": "a", "op": "add", "value": {"new": 1}},
            {"id": "b", "op": "update", "fields": [{"path": "/x", "old": 1, "new": 2}]},
            {"id": "c", "op": "remove", "value": {"keep": true}}
        ]}"#,
    );
}

#[test]
fn diff_ignores_key_order_and_number_form() {
    let result = diff_ok(
        r#"{
            "before": [{"id": "r", "values": {"a": 1, "b": [1, 2.0]}}],
            "after": [{"id": "r", "values": {"b": [1.0, 2], "a": 1.0}}]
        }"#,
    );
    assert_same(&result, r#"{"changes": []}"#);
}

#[test]
fn diff_nested_and_missing_vs_null() {
    let result = diff_ok(
        r#"{
            "before": [{"id": "r", "values": {"obj": {"gone": 1, "n": null}, "arr": [1, 2]}}],
            "after": [{"id": "r", "values": {"obj": {"n": null, "added": {"k": "v"}}, "arr": [1, 3]}}]
        }"#,
    );
    assert_same(
        &result,
        r#"{"changes": [{
            "id": "r",
            "op": "update",
            "fields": [
                {"path": "/arr", "old": [1, 2], "new": [1, 3]},
                {"path": "/obj/added", "new": {"k": "v"}},
                {"path": "/obj/gone", "old": 1}
            ]
        }]}"#,
    );
}

#[test]
fn diff_escapes_pointer_segments() {
    let result = diff_ok(
        r#"{
            "before": [{"id": "r", "values": {"a/b~c": 1}}],
            "after": [{"id": "r", "values": {"a/b~c": 2}}]
        }"#,
    );
    assert_same(
        &result,
        r#"{"changes": [{
            "id": "r",
            "op": "update",
            "fields": [{"path": "/a~1b~0c", "old": 1, "new": 2}]
        }]}"#,
    );
}

#[test]
fn diff_rejects_duplicate_ids() {
    let err = diff_err(
        r#"{
            "before": [{"id": "r", "values": {}}, {"id": "r", "values": {}}],
            "after": []
        }"#,
    );
    assert_eq!(err.status, 400);
    assert_eq!(err.path, "/before");
    assert_eq!(err.message, "duplicate row id \"r\"");
}

#[test]
fn diff_rejects_non_object_values() {
    let err = diff_err(
        r#"{
            "before": [{"id": "r", "values": [1]}],
            "after": []
        }"#,
    );
    assert_eq!(err.status, 400);
    assert_eq!(err.path, "/before/0/values");
}

#[test]
fn apply_forward_then_reverse_roundtrip() {
    let rows = r#"[
        {"id": "b", "values": {"x": 1, "deep": {"gone": true}}},
        {"id": "c", "values": {"keep": true}}
    ]"#;
    let changes = r#"[
        {"id": "a", "op": "add", "value": {"new": 1}},
        {"id": "b", "op": "update", "fields": [
            {"path": "/x", "old": 1, "new": 2},
            {"path": "/deep/gone", "old": true},
            {"path": "/deep/added", "new": null}
        ]},
        {"id": "c", "op": "remove", "value": {"keep": true}}
    ]"#;

    let forward = apply_ok(&format!(
        r#"{{"rows": {rows}, "changes": {changes}, "direction": "forward"}}"#
    ));
    let after_rows = r#"[
        {"id": "a", "values": {"new": 1}},
        {"id": "b", "values": {"x": 2, "deep": {"added": null}}}
    ]"#;
    assert_same(&forward, &format!(r#"{{"rows": {after_rows}}}"#));

    let backward = apply_ok(&format!(
        r#"{{"rows": {after_rows}, "changes": {changes}, "direction": "reverse"}}"#
    ));
    assert_same(&backward, &format!(r#"{{"rows": {rows}}}"#));
}

#[test]
fn apply_conflict_on_value_mismatch() {
    let err = apply_err(
        r#"{
            "rows": [{"id": "r", "values": {"x": 9}}],
            "changes": [{"id": "r", "op": "update", "fields": [{"path": "/x", "old": 1, "new": 2}]}],
            "direction": "forward"
        }"#,
    );
    assert_eq!(err.status, 409);
    assert_eq!(err.path, "/changes/0/fields/0/old");
}

#[test]
fn apply_distinguishes_missing_from_null() {
    let err = apply_err(
        r#"{
            "rows": [{"id": "r", "values": {"x": null}}],
            "changes": [{"id": "r", "op": "update", "fields": [{"path": "/x", "new": 1}]}],
            "direction": "forward"
        }"#,
    );
    assert_eq!(err.status, 409);

    let err = apply_err(
        r#"{
            "rows": [{"id": "r", "values": {}}],
            "changes": [{"id": "r", "op": "update", "fields": [{"path": "/x", "old": null}]}],
            "direction": "forward"
        }"#,
    );
    assert_eq!(err.status, 409);
}

#[test]
fn apply_is_atomic_on_conflict() {
    let err = apply_err(
        r#"{
            "rows": [{"id": "a", "values": {}}, {"id": "b", "values": {"x": 1}}],
            "changes": [
                {"id": "a", "op": "update", "fields": [{"path": "/y", "new": 1}]},
                {"id": "b", "op": "update", "fields": [{"path": "/x", "old": 2, "new": 3}]}
            ],
            "direction": "forward"
        }"#,
    );
    assert_eq!(err.status, 409);
    assert_eq!(err.path, "/changes/1/fields/0/old");
}

#[test]
fn apply_rejects_bad_direction_and_duplicate_paths() {
    let err = apply_err(
        r#"{
            "rows": [],
            "changes": [],
            "direction": "sideways"
        }"#,
    );
    assert_eq!(err.status, 400);
    assert_eq!(err.path, "/direction");

    let err = apply_err(
        r#"{
            "rows": [{"id": "r", "values": {"x": 1}}],
            "changes": [{"id": "r", "op": "update", "fields": [
                {"path": "/x", "old": 1, "new": 2},
                {"path": "/x", "old": 1, "new": 3}
            ]}],
            "direction": "forward"
        }"#,
    );
    assert_eq!(err.status, 400);
    assert_eq!(err.path, "/changes/0/fields/1/path");
}

#[test]
fn apply_reverse_checks_new_side() {
    let err = apply_err(
        r#"{
            "rows": [{"id": "r", "values": {"x": 1}}],
            "changes": [{"id": "r", "op": "update", "fields": [{"path": "/x", "old": 1, "new": 2}]}],
            "direction": "reverse"
        }"#,
    );
    assert_eq!(err.status, 409);
    assert_eq!(err.path, "/changes/0/fields/0/new");
}

#[test]
fn apply_remove_checks_expected_value() {
    let err = apply_err(
        r#"{
            "rows": [{"id": "r", "values": {"x": 1}}],
            "changes": [{"id": "r", "op": "remove", "value": {"x": 2}}],
            "direction": "forward"
        }"#,
    );
    assert_eq!(err.status, 409);
    assert_eq!(err.path, "/changes/0/value");
}

#[test]
fn decimal_canonicalizes_equal_number_forms() {
    let forms = ["1", "1.0", "1.00", "1e0", "1E0", "1e+0", "100e-2", "10e-1"];
    for a in forms {
        for b in forms {
            let x = Decimal::parse(a).unwrap();
            let y = Decimal::parse(b).unwrap();
            assert_eq!(x, y, "{a} 与 {b} 数学值应相等");
        }
    }
    for z in ["0", "-0", "0.0", "-0.0", "0e0", "-0e10", "0.000e-5"] {
        assert_eq!(Decimal::parse(z).unwrap(), Decimal::zero());
    }
}

#[test]
fn decimal_distinguishes_close_large_and_small_values() {
    assert_ne!(
        Decimal::parse("9007199254740993").unwrap(),
        Decimal::parse("9007199254740992.0").unwrap()
    );
    assert_eq!(
        Decimal::parse("9007199254740992").unwrap(),
        Decimal::parse("9007199254740992.0").unwrap()
    );
    assert_ne!(Decimal::parse("-1").unwrap(), Decimal::parse("1").unwrap());
    assert_ne!(
        Decimal::parse("1.5").unwrap(),
        Decimal::parse("1.5000000000000001").unwrap()
    );
    assert_ne!(
        Decimal::parse("1e-100000000").unwrap(),
        Decimal::parse("2e-100000000").unwrap()
    );
}

#[test]
fn decimal_handles_unbounded_integers_and_exponents() {
    let huge = "1234567890123456789012345678901234567890123456789012345678901234567890123456789012345678901234567891";
    assert_eq!(
        Decimal::parse(huge).unwrap(),
        Decimal::parse(&format!("{huge}.000e0")).unwrap()
    );
    let expanded = format!("123{}", "0".repeat(100_000));
    assert_eq!(
        Decimal::parse("123e100000").unwrap(),
        Decimal::parse(&expanded).unwrap()
    );
    assert_ne!(
        Decimal::parse("124e100000").unwrap(),
        Decimal::parse(&expanded).unwrap()
    );
    assert_eq!(
        Decimal::parse("1e-100000000").unwrap(),
        Decimal::parse("10e-100000001").unwrap()
    );
}

#[test]
fn diff_treats_equal_number_forms_as_unchanged() {
    let result = diff_ok(
        r#"{"before":[{"id":"r","values":{
            "i": 1, "z": -0, "nested": {"k": 100e-2}, "arr": [1.0, {"q": 1e0}]
        }}],"after":[{"id":"r","values":{
            "i": 1.0, "z": 0, "nested": {"k": 1.00}, "arr": [100e-2, {"q": 10e-1}]
        }}]}"#,
    );
    assert_same(&result, r#"{"changes": []}"#);
}

#[test]
fn diff_finds_precise_numeric_change_everywhere_and_preserves_tokens() {
    let result = diff_ok(
        r#"{"before":[{"id":"r","values":{
            "big": 9007199254740993,
            "obj": {"deep": [1, 123456789012345678901234567890]},
            "tiny": 1e-100000000
        }}],"after":[{"id":"r","values":{
            "big": 9007199254740992.0,
            "obj": {"deep": [1, 123456789012345678901234567891]},
            "tiny": 2e-100000000
        }}]}"#,
    );
    let shown = to_value(&result);
    let fields = shown["changes"][0]["fields"].as_array().unwrap();
    let paths: Vec<&str> = fields.iter().map(|f| f["path"].as_str().unwrap()).collect();
    assert_eq!(paths, ["/big", "/obj/deep", "/tiny"]);

    let rendered = render(&result);
    assert!(rendered.contains("9007199254740993"));
    assert!(rendered.contains("9007199254740992.0"));
    assert!(rendered.contains("123456789012345678901234567890"));
    assert!(rendered.contains("123456789012345678901234567891"));
    assert!(rendered.contains("1e-100000000"));
    assert!(rendered.contains("2e-100000000"));
    assert!(!rendered.contains("null"));
}

#[test]
fn apply_accepts_equal_forms_and_echoes_exact_target_numbers() {
    let new_big = "9876543210987654321098765432109876543210";
    let forward = apply_ok(&format!(
        r#"{{
            "rows": [{{"id":"r","values":{{"x": 100e-2, "obj": {{"q": {new_big}.0}}}}}}],
            "changes": [{{"id":"r","op":"update","fields":[
                {{"path":"/x","old": 1.0, "new": 1e5}},
                {{"path":"/obj/q","old": {new_big}, "new": -0.0}}
            ]}}],
            "direction": "forward"
        }}"#
    ));
    let rendered = render(&forward);
    assert!(rendered.contains("1e5"));
    assert!(rendered.contains("-0"));
    assert!(!rendered.contains(new_big));

    let backward = apply_ok(
        r#"{"rows":[{"id":"r","values":{"x":100000,"obj":{"q":0}}}],
           "changes":[{"id":"r","op":"update","fields":[
               {"path":"/x","old":1.0,"new":1e5},
               {"path":"/obj/q","old":9876543210987654321098765432109876543210,"new":-0}
           ]}],"direction":"reverse"}"#,
    );
    let rendered = render(&backward);
    assert!(rendered.contains("1.0"));
    assert!(rendered.contains(new_big));
}

#[test]
fn apply_conflicts_on_real_numeric_difference_with_original_path() {
    let err = apply_err(
        r#"{"rows":[{"id":"r","values":{"x":9007199254740993}}],
           "changes":[{"id":"r","op":"update","fields":[
               {"path":"/x","old":9007199254740992.0,"new":1}
           ]}],"direction":"forward"}"#,
    );
    assert_eq!(err.status, 409);
    assert_eq!(err.code, "conflict");
    assert_eq!(err.path, "/changes/0/fields/0/old");
}

#[test]
fn apply_add_remove_match_equal_number_forms() {
    let result = apply_ok(
        r#"{"rows":[{"id":"r","values":{"big":123456789012345678901234567890}}],
           "changes":[{"id":"r","op":"add","value":{"big":123456789012345678901234567890.0}}],
           "direction":"reverse"}"#,
    );
    assert_eq!(to_value(&result)["rows"].as_array().unwrap().len(), 0);

    let err = apply_err(
        r#"{"rows":[{"id":"r","values":{"big":123456789012345678901234567890}}],
           "changes":[{"id":"r","op":"remove","value":{"big":123456789012345678901234567891}}],
           "direction":"forward"}"#,
    );
    assert_eq!(err.status, 409);
    assert_eq!(err.path, "/changes/0/value");
}

#[test]
fn diff_then_apply_leads_to_the_other_rows() {
    let before = r#"[{"id":"a","values":{"n":1,"o":{"x":[1,2],"y":null}}},{"id":"b","values":{}}]"#;
    let after = r#"[{"id":"a","values":{"n":1.0,"o":{"x":[1],"z":true}}},{"id":"c","values":{"k":0}}]"#;
    let changes = diff_ok(&format!(r#"{{"before":{before},"after":{after}}}"#));
    let list = render(&changes);
    let list = list.strip_prefix(r#"{"changes":"#).unwrap().strip_suffix('}').unwrap();
    let forward = apply_ok(&format!(
        r#"{{"rows":{before},"changes":{list},"direction":"forward"}}"#
    ));
    let same = format!(
        r#"{{"before":{},"after":{after}}}"#,
        to_value(&forward)["rows"]
    );
    assert_same(&diff_ok(&same), r#"{"changes":[]}"#);
    let backward = apply_ok(&format!(
        r#"{{"rows":{after},"changes":{list},"direction":"reverse"}}"#
    ));
    let same = format!(
        r#"{{"before":{},"after":{before}}}"#,
        to_value(&backward)["rows"]
    );
    assert_same(&diff_ok(&same), r#"{"changes":[]}"#);
}

#[test]
fn diff_sorts_rows_and_paths_by_text() {
    let result = diff_ok(
        r#"{"before":[{"id":"b","values":{"b":1,"a/":1,"a":{"c":1}}},{"id":"a","values":{}}],
            "after":[{"id":"b","values":{"a":{"c":2}}},{"id":"B","values":{}}]}"#,
    );
    assert_eq!(
        render(&result),
        concat_all(&[
            r#"{"changes":[{"id":"B","op":"add","value":{}},"#,
            r#"{"id":"a","op":"remove","value":{}},"#,
            r#"{"fields":[{"new":2,"old":1,"path":"/a/c"},{"old":1,"path":"/a~1"},"#,
            r#"{"old":1,"path":"/b"}],"id":"b","op":"update"}]}"#,
        ])
    );
}

fn concat_all(parts: &[&str]) -> String {
    parts.concat()
}

#[test]
fn row_faults_are_told_with_their_places() {
    let cases = [
        (r#"[]"#, "", "request body must be a JSON object"),
        (r#"{"after":[]}"#, "/before", "missing required field"),
        (r#"{"before":{},"after":[]}"#, "/before", "expected an array of rows"),
        (r#"{"before":[],"after":[1]}"#, "/after/0", "row must be an object"),
        (r#"{"before":[],"after":[{"id":1,"values":{}}]}"#, "/after/0/id", "row id must be a string"),
        (r#"{"before":[],"after":[{"id":"","values":{}}]}"#, "/after/0/id", "row id must be non-empty"),
        (
            r#"{"before":[],"after":[{"id":"a","values":{}},{"id":"b"}]}"#,
            "/after/1/values",
            "missing required field",
        ),
        (
            r#"{"before":[{"id":"z","values":{}},{"id":"y","values":{}},{"id":"z","values":{}},{"id":"y","values":{}}],"after":[]}"#,
            "/before",
            "duplicate row id \"y\"",
        ),
    ];
    for (text, path, message) in cases {
        let err = diff_err(text);
        assert_eq!(err.status, 400);
        assert_eq!(err.code, "bad_request");
        assert_eq!(err.path, path);
        assert_eq!(err.message, message);
    }
}

#[test]
fn change_faults_are_told_with_their_places() {
    let cases = [
        (r#"1"#, "/changes/0", "change must be an object"),
        (r#"{"op":"add"}"#, "/changes/0/id", "change id must be a string"),
        (r#"{"id":"","op":"add"}"#, "/changes/0/id", "change id must be non-empty"),
        (r#"{"id":"a"}"#, "/changes/0/op", "change op must be a string"),
        (r#"{"id":"a","op":"x\n"}"#, "/changes/0/op", "unknown change op \"x\\n\""),
        (r#"{"id":"a","op":"add"}"#, "/changes/0/value", "missing required field"),
        (r#"{"id":"a","op":"remove","value":1}"#, "/changes/0/value", "change value must be an object"),
        (r#"{"id":"a","op":"update"}"#, "/changes/0/fields", "missing required field"),
        (r#"{"id":"a","op":"update","fields":1}"#, "/changes/0/fields", "fields must be an array"),
        (r#"{"id":"a","op":"update","fields":[1]}"#, "/changes/0/fields/0", "field must be an object"),
        (
            r#"{"id":"a","op":"update","fields":[{}]}"#,
            "/changes/0/fields/0/path",
            "field path must be a string",
        ),
        (
            r#"{"id":"a","op":"update","fields":[{"path":"/~2","new":1}]}"#,
            "/changes/0/fields/0/path",
            "field path must be a non-empty RFC 6901 JSON Pointer",
        ),
        (
            r#"{"id":"a","op":"update","fields":[{"path":"/x"}]}"#,
            "/changes/0/fields/0",
            "field must contain old and/or new",
        ),
    ];
    for (change, path, message) in cases {
        let err = apply_err(&format!(
            r#"{{"rows":[],"changes":[{change}],"direction":"forward"}}"#
        ));
        assert_eq!(err.status, 400);
        assert_eq!(err.path, path);
        assert_eq!(err.message, message);
    }
    let err = apply_err(r#"{"rows":[],"direction":"forward"}"#);
    assert_eq!((err.path.as_str(), err.message.as_str()), ("/changes", "missing required field"));
    let err = apply_err(r#"{"rows":[],"direction":"forward","changes":0}"#);
    assert_eq!((err.path.as_str(), err.message.as_str()), ("/changes", "changes must be an array"));
    let err = apply_err(
        r#"{"rows":[],"direction":"forward","changes":[
            {"id":"a","op":"add","value":{}},{"id":"a","op":"add","value":{}}]}"#,
    );
    assert_eq!(err.path, "/changes/1/id");
    assert_eq!(err.message, "duplicate change for row id \"a\"");
}

#[test]
fn conflicts_are_told_with_their_places() {
    let cases = [
        (r#"{"id":"r","op":"add","value":{}}"#, "forward", "/changes/0/id", "row \"r\" already exists"),
        (r#"{"id":"s","op":"add","value":{}}"#, "reverse", "/changes/0/id", "row \"s\" does not exist"),
        (
            r#"{"id":"r","op":"add","value":{}}"#,
            "reverse",
            "/changes/0/value",
            "row \"r\" values do not match expected value",
        ),
        (r#"{"id":"r","op":"remove","value":{}}"#, "reverse", "/changes/0/id", "row \"r\" already exists"),
        (r#"{"id":"s","op":"update","fields":[]}"#, "forward", "/changes/0/id", "row \"s\" does not exist"),
        (
            r#"{"id":"r","op":"update","fields":[{"path":"/x","new":2}]}"#,
            "forward",
            "/changes/0/fields/0",
            "expected field to be absent but it exists",
        ),
        (
            r#"{"id":"r","op":"update","fields":[{"path":"/y","old":2}]}"#,
            "forward",
            "/changes/0/fields/0/old",
            "expected value but field is missing",
        ),
        (
            r#"{"id":"r","op":"update","fields":[{"path":"/x/y","new":2}]}"#,
            "forward",
            "/changes/0/fields/0/path",
            "parent path does not exist or is not an object",
        ),
    ];
    for (change, direction, path, message) in cases {
        let err = apply_err(&format!(
            r#"{{"rows":[{{"id":"r","values":{{"x":1}}}}],"changes":[{change}],"direction":"{direction}"}}"#
        ));
        assert_eq!(err.status, 409);
        assert_eq!(err.code, "conflict");
        assert_eq!(err.path, path);
        assert_eq!(err.message, message);
    }
}

#[test]
fn losing_a_parent_refuses_the_whole_request() {
    for (fields, path) in [
        (
            r#"{"path":"/a","old":{"b":1},"new":5},{"path":"/a/b","old":1,"new":2}"#,
            "/changes/1/fields/1/path",
        ),
        (
            r#"{"path":"/c","new":1},{"path":"/a","old":{"b":1}},{"path":"/a/b","old":1,"new":2}"#,
            "/changes/1/fields/2/path",
        ),
    ] {
        let err = apply_err(&format!(
            r#"{{"rows":[{{"id":"r","values":{{"a":{{"b":1}}}}}}],
                "changes":[{{"id":"q","op":"add","value":{{}}}},
                    {{"id":"r","op":"update","fields":[{fields}]}}],
                "direction":"forward"}}"#
        ));
        assert_eq!((err.status, err.code), (409, "conflict"));
        assert_eq!(err.path, path);
        assert_eq!(err.message, "parent path does not exist or is not an object");
    }
    let fine = parse(
        r#"{"rows":[{"id":"r","values":{"a":{"b":1}}}],
            "changes":[{"id":"r","op":"update","fields":[
                {"path":"/a/b","old":1,"new":3},
                {"path":"/a","old":{"b":1},"new":2}
            ]}],"direction":"forward"}"#,
    );
    assert_same(
        &apply(&fine).unwrap(),
        r#"{"rows":[{"id":"r","values":{"a":2}}]}"#,
    );
}

#[test]
fn tangled_paths_may_be_refused_backwards() {
    let changes = r#"[{"id":"r","op":"update","fields":[
        {"path":"/a/b","old":1,"new":3},
        {"path":"/a","old":{"b":1},"new":2}
    ]}]"#;
    let err = apply_err(&format!(
        r#"{{"rows":[{{"id":"r","values":{{"a":2}}}}],"changes":{changes},"direction":"reverse"}}"#
    ));
    assert_eq!(err.status, 409);
    assert_eq!(err.path, "/changes/0/fields/0/new");
    assert_eq!(err.message, "expected value but field is missing");
}

#[test]
fn equivalent_spellings_of_a_path_are_one_path() {
    let err = apply_err(
        r#"{"rows":[{"id":"r","values":{"~":1}}],
            "changes":[{"id":"r","op":"update","fields":[
                {"path":"/~0","old":1,"new":2},{"path":"/~0","old":1,"new":3}
            ]}],"direction":"forward"}"#,
    );
    assert_eq!(err.message, "duplicate field path \"/~0\"");
    assert_eq!(err.path, "/changes/0/fields/1/path");
}

#[test]
fn refusals_carry_their_status_and_code() {
    let e = ApiError::bad_request("m", "/p");
    assert_eq!((e.status, e.code, e.message.as_str(), e.path.as_str()), (400, "bad_request", "m", "/p"));
    let e = ApiError::conflict("m", "/p");
    assert_eq!((e.status, e.code, e.message.as_str(), e.path.as_str()), (409, "conflict", "m", "/p"));
}
