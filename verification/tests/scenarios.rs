use json_tokens::error::JsonError;
use json_tokens::json::Json;
use json_tokens::value::JsonValue;

#[test]
fn depth_gating_tells_inner_key_from_outer() {
    let json = Json::from_string("{\"a\":{\"a\":1}}");
    assert_eq!(json.get(&["a", "a"]), Ok(JsonValue::Int(1)));
    assert_eq!(json.get(&["a"]), Err(JsonError::InvalidPath));
}

#[test]
fn insert_then_get_on_empty_object() {
    let mut json = Json::from_string("{}");
    assert_eq!(json.insert_value(&[], "x", JsonValue::Int(42)), Ok(()));
    assert_eq!(json.get(&["x"]), Ok(JsonValue::Int(42)));
    assert_eq!(json.to_string(), "{\"x\":42}");
}

#[test]
fn insert_into_scalar_is_rejected() {
    let mut json = Json::from_string("{\"x\":1}");
    assert_eq!(json.insert_object(&["x"], "y"), Err(JsonError::InsertCantInsertIntoValue));
    assert_eq!(json.to_string(), "{\"x\":1}");
}

#[test]
fn empty_path_is_rejected() {
    let json = Json::from_string("{\"x\":1}");
    assert_eq!(json.get(&[]), Err(JsonError::NoPathProvided));
}

#[test]
fn space_inside_quotes_is_kept() {
    let json = Json::from_string("{\"x\":\"hello world\"}");
    assert_eq!(json.get(&["x"]), Ok(JsonValue::String("hello world".to_string())));
}

#[test]
fn pretty_text_of_nested_object() {
    let json = Json::from_string("{\"a\":1,\"b\":{\"c\":2}}");
    let expected = "{\n\t\"a\": 1,\n\t\"b\": {\n\t\t\"c\": 2\n\t}\n}\n";
    assert_eq!(json.to_string_format(), Ok(expected.to_string()));
}

#[test]
fn compact_text_is_stable_under_relexing() {
    let text = "{ \"a\": 1,\n\t\"b\": { \"c\": [1, 2, \"x y\"] },\r\n \"d\": true }";
    let once = Json::from_string(text).to_string();
    assert_eq!(once, "{\"a\":1,\"b\":{\"c\":[1,2,\"x y\"]},\"d\":true}");
    let twice = Json::from_string(&once).to_string();
    assert_eq!(twice, once);
}
