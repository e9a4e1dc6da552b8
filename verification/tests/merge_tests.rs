use hagi::json::JsonValue;
use hagi::json::json_eq;
use hagi::merge::merge_json;
use hagi::merge::merged;
use hagi::merge::merged_file_content;

fn s(x: &str) -> String {
    x.to_string()
}

fn num(n: &str) -> JsonValue {
    JsonValue::Number(s(n))
}

fn obj(pairs: Vec<(&str, JsonValue)>) -> JsonValue {
    JsonValue::Object(pairs.into_iter().map(|(k, v)| (s(k), v)).collect())
}

fn get<'a>(v: &'a JsonValue, key: &str) -> &'a JsonValue {
    match v {
        JsonValue::Object(entries) => {
            for (k, val) in entries {
                if k == key {
                    return val;
                }
            }
            panic!("key not found: {}", key);
        }
        _ => panic!("not an object"),
    }
}

fn num_is(v: &JsonValue, expected: &str) -> bool {
    match v {
        JsonValue::Number(n) => n == expected,
        _ => false,
    }
}

#[test]
fn test_merge_json() {
    let mut base = obj(vec![("a", num("1")), ("b", obj(vec![("c", num("2")), ("d", num("3"))]))]);

    let overlay = obj(vec![
        ("b", obj(vec![("c", num("20")), ("e", num("4"))])),
        ("f", num("5")),
    ]);

    merge_json(&mut base, &overlay);

    assert!(num_is(get(&base, "a"), "1"));
    assert!(num_is(get(get(&base, "b"), "c"), "20"));
    assert!(num_is(get(get(&base, "b"), "d"), "3"));
    assert!(num_is(get(get(&base, "b"), "e"), "4"));
    assert!(num_is(get(&base, "f"), "5"));
}

#[test]
fn test_merge_nested_overlay_wins() {
    let base = obj(vec![("a", num("1")), ("b", obj(vec![("c", num("2"))]))]);
    let overlay = obj(vec![
        ("b", obj(vec![("c", num("3")), ("d", num("4"))])),
        ("e", num("5")),
    ]);

    let result = merged(&base, &overlay);

    let expected = obj(vec![
        ("a", num("1")),
        ("b", obj(vec![("c", num("3")), ("d", num("4"))])),
        ("e", num("5")),
    ]);
    assert!(json_eq(&result, &expected));
}

#[test]
fn test_merge_arrays_replaced_wholesale() {
    let base = obj(vec![("xs", JsonValue::Array(vec![num("1"), num("2")]))]);
    let overlay = obj(vec![("xs", JsonValue::Array(vec![num("9")]))]);

    let result = merged(&base, &overlay);

    let expected = obj(vec![("xs", JsonValue::Array(vec![num("9")]))]);
    assert!(json_eq(&result, &expected));
}

#[test]
fn test_merge_type_mismatch_overlay_wins() {
    let base = obj(vec![("x", obj(vec![("inner", num("1"))]))]);
    let overlay = obj(vec![("x", JsonValue::Str(s("flat")))]);

    let result = merged(&base, &overlay);

    let expected = obj(vec![("x", JsonValue::Str(s("flat")))]);
    assert!(json_eq(&result, &expected));
}

#[test]
fn test_merge_top_level_non_objects() {
    let base = JsonValue::Array(vec![num("1")]);
    let overlay = JsonValue::Str(s("replacement"));

    let result = merged(&base, &overlay);

    assert!(json_eq(&result, &JsonValue::Str(s("replacement"))));
}

#[test]
fn test_merge_idempotent_concrete() {
    let base = obj(vec![("a", num("1")), ("b", obj(vec![("c", num("2"))]))]);
    let overlay = obj(vec![("b", obj(vec![("c", num("3"))])), ("d", num("4"))]);

    let once = merged(&base, &overlay);
    let twice = merged(&once, &overlay);

    assert!(json_eq(&once, &twice));
}

#[test]
fn test_merged_file_content_missing_file() {
    let overlay = obj(vec![("a", num("1"))]);

    let result = merged_file_content(None, &overlay);

    assert!(json_eq(&result, &overlay));
}

#[test]
fn test_merged_file_content_existing_file() {
    let existing = obj(vec![("keep", num("1")), ("both", num("2"))]);
    let overlay = obj(vec![("both", num("3")), ("add", num("4"))]);

    let result = merged_file_content(Some(&existing), &overlay);

    let expected = obj(vec![("keep", num("1")), ("both", num("3")), ("add", num("4"))]);
    assert!(json_eq(&result, &expected));
}
