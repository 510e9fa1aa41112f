use baggage_filter::codec::{decode_baggage, encode_baggage, BaggageMap};
use baggage_filter::config::{validate, BaggageRoot, ConfigError};
use baggage_filter::filter::BaggageFilter;
use baggage_filter::json::Json;
use std::rc::Rc;

fn s(text: &str) -> String {
    text.to_string()
}

fn headers_config(items: Vec<Json>) -> Json {
    Json::Object(vec![(s("headers"), Json::Array(items))])
}

fn empty_filter() -> BaggageFilter {
    BaggageFilter {
        headers: Rc::new(vec![]),
    }
}

fn filter_for(names: &[&str]) -> BaggageFilter {
    BaggageFilter {
        headers: Rc::new(names.iter().map(|n| n.to_string()).collect()),
    }
}

fn map_of(pairs: &[(&str, &str)]) -> BaggageMap {
    let mut map = BaggageMap::new();
    for (k, v) in pairs {
        map.insert(k.to_string(), v.to_string());
    }
    map
}

#[test]
fn test_configure() {
    let mut root_ctx = BaggageRoot::default();
    root_ctx
        .configure(&headers_config(vec![
            Json::Str(s("user-id")),
            Json::Str(s("trace-id")),
        ]))
        .unwrap();
    assert_eq!(
        root_ctx.headers,
        Rc::new(vec!["user-id".to_string(), "trace-id".to_string()])
    );
}

#[test]
fn test_configure_no_headers() {
    let mut root_ctx = BaggageRoot::default();
    let config = Json::Object(vec![]);
    let result = root_ctx.configure(&config);
    assert!(
        result.is_err(),
        "Expected an error when 'headers' is missing"
    );
}

#[test]
fn test_configure_headers_not_array() {
    let mut root_ctx = BaggageRoot::default();
    let config = Json::Object(vec![(s("headers"), Json::Str(s("not an array")))]);
    let result = root_ctx.configure(&config);
    assert!(
        result.is_err(),
        "Expected an error when 'headers' is not an array"
    );
}

#[test]
fn test_get_baggage_value() {
    let mut filter = empty_filter();
    let baggage = "key1=value1,key2=value2";
    let map = filter.get_baggage_value(baggage);
    assert_eq!(map.get("key1"), Some(&"value1".to_string()));
    assert_eq!(map.get("key2"), Some(&"value2".to_string()));
    assert_eq!(map.len(), 2, "Expected exactly 2 key-value pairs");
}

#[test]
fn test_get_baggage_value_edge_cases() {
    let mut filter = empty_filter();

    let map = filter.get_baggage_value("");
    assert!(map.is_empty(), "Expected empty map for empty baggage");

    let map = filter.get_baggage_value("key=value");
    assert_eq!(map.get("key"), Some(&"value".to_string()));
    assert_eq!(map.len(), 1, "Expected exactly 1 key-value pair");

    let map = filter.get_baggage_value("key=value,invalid");
    assert_eq!(map.get("key"), Some(&"value".to_string()));
    assert_eq!(map.get("invalid"), None);
    assert_eq!(map.len(), 1, "Expected only valid pairs to be parsed");

    let map = filter.get_baggage_value("key=value=extra");
    assert_eq!(map.get("key"), Some(&"value=extra".to_string()));
    assert_eq!(
        map.len(),
        1,
        "Expected 1 pair with remaining string as value"
    );
}

#[test]
fn test_create_baggage_value() {
    let mut filter = empty_filter();
    let mut map = BaggageMap::new();
    map.insert("key1".to_string(), "value1".to_string());
    map.insert("key2".to_string(), "value2".to_string());
    let baggage = filter.create_baggage_value(&map);
    assert!(
        baggage == "key1=value1,key2=value2" || baggage == "key2=value2,key1=value1",
        "Unexpected baggage string: {}",
        baggage
    );
}

#[test]
fn test_create_baggage_value_empty() {
    let mut filter = empty_filter();
    let map = BaggageMap::new();
    let baggage = filter.create_baggage_value(&map);
    assert_eq!(baggage, "", "Expected empty string for empty map");
}

#[test]
fn encode_keeps_insertion_order() {
    let map = map_of(&[("b", "2"), ("a", "1"), ("c", "3")]);
    assert_eq!(encode_baggage(&map), "b=2,a=1,c=3");
}

#[test]
fn insert_overwrites_in_place() {
    let mut map = map_of(&[("a", "1"), ("b", "2")]);
    map.insert(s("a"), s("9"));
    assert_eq!(map.len(), 2);
    assert_eq!(map.get("a"), Some(&s("9")));
    assert_eq!(encode_baggage(&map), "a=9,b=2");
}

#[test]
fn decode_later_duplicate_wins() {
    let map = decode_baggage("a=1,b=2,a=3");
    assert_eq!(map.len(), 2);
    assert_eq!(map.get("a"), Some(&s("3")));
    assert_eq!(encode_baggage(&map), "a=3,b=2");
}

#[test]
fn decode_empty_key_and_value() {
    let map = decode_baggage("=,k=,=v");
    assert_eq!(map.len(), 2);
    assert_eq!(map.get(""), Some(&s("v")));
    assert_eq!(map.get("k"), Some(&s("")));
}

#[test]
fn decode_only_separators() {
    assert!(decode_baggage(",,,").is_empty());
    assert!(decode_baggage("novalue").is_empty());
}

#[test]
fn decode_keeps_spaces_and_unicode() {
    let map = decode_baggage(" k = v ,ключ=значение");
    assert_eq!(map.get(" k "), Some(&s(" v ")));
    assert_eq!(map.get("ключ"), Some(&s("значение")));
}

#[test]
fn round_trip_restores_entries() {
    let map = map_of(&[("user", "alice"), ("span", "a=b"), ("empty", "")]);
    let text = encode_baggage(&map);
    assert_eq!(text, "user=alice,span=a=b,empty=");
    let back = decode_baggage(&text);
    assert_eq!(back.len(), 3);
    assert_eq!(back.get("user"), Some(&s("alice")));
    assert_eq!(back.get("span"), Some(&s("a=b")));
    assert_eq!(back.get("empty"), Some(&s("")));
    assert_eq!(encode_baggage(&back), text);
}

#[test]
fn encode_twice_is_identical() {
    let a = map_of(&[("x", "1"), ("y", "2")]);
    let b = map_of(&[("x", "1"), ("y", "2")]);
    assert_eq!(encode_baggage(&a), encode_baggage(&b));
    assert_eq!(encode_baggage(&a), encode_baggage(&a));
}

#[test]
fn validate_reads_string_items() {
    let config = headers_config(vec![Json::Str(s("user-id")), Json::Str(s("trace-id"))]);
    assert_eq!(validate(&config), Ok(vec![s("user-id"), s("trace-id")]));
}

#[test]
fn validate_skips_non_strings() {
    let config = headers_config(vec![
        Json::Number(s("7")),
        Json::Str(s("x-a")),
        Json::Null,
        Json::Bool(true),
        Json::Array(vec![]),
        Json::Str(s("x-b")),
    ]);
    assert_eq!(validate(&config), Ok(vec![s("x-a"), s("x-b")]));
}

#[test]
fn validate_accepts_empty_array() {
    assert_eq!(validate(&headers_config(vec![])), Ok(vec![]));
}

#[test]
fn validate_refuses_missing_or_wrong_kind() {
    assert_eq!(validate(&Json::Object(vec![])), Err(ConfigError::MissingField));
    let not_array = Json::Object(vec![(s("headers"), Json::Str(s("not an array")))]);
    assert_eq!(validate(&not_array), Err(ConfigError::MissingField));
    assert_eq!(validate(&Json::Array(vec![])), Err(ConfigError::MissingField));
    let other_field = Json::Object(vec![(s("header"), Json::Array(vec![]))]);
    assert_eq!(validate(&other_field), Err(ConfigError::MissingField));
}

#[test]
fn configure_error_keeps_previous_headers() {
    let mut root = BaggageRoot::default();
    root.configure(&headers_config(vec![Json::Str(s("a"))])).unwrap();
    assert_eq!(root.configure(&Json::Null), Err(ConfigError::MissingField));
    assert_eq!(root.headers, Rc::new(vec![s("a")]));
}

#[test]
fn json_get_finds_first_member() {
    let obj = Json::Object(vec![
        (s("a"), Json::Bool(true)),
        (s("a"), Json::Bool(false)),
    ]);
    assert!(matches!(obj.get(&s("a")), Some(Json::Bool(true))));
    assert!(obj.get(&s("b")).is_none());
    assert!(Json::Null.get(&s("a")).is_none());
}

#[test]
fn configured_value_overrides_existing() {
    let mut filter = filter_for(&["a"]);
    let out = filter.rewrite_baggage(Some("a=1"), &vec![Some(s("2"))]);
    assert_eq!(out, "a=2");
}

#[test]
fn configured_value_is_added() {
    let mut filter = filter_for(&["b"]);
    let out = filter.rewrite_baggage(Some("a=1"), &vec![Some(s("2"))]);
    assert_eq!(out, "a=1,b=2");
    let map = decode_baggage(&out);
    assert_eq!(map.get("a"), Some(&s("1")));
    assert_eq!(map.get("b"), Some(&s("2")));
}

#[test]
fn absent_header_changes_nothing() {
    let mut filter = filter_for(&["a", "b"]);
    let out = filter.rewrite_baggage(Some("a=1,bad"), &vec![None, None]);
    assert_eq!(out, "a=1");
}

#[test]
fn no_baggage_header_starts_empty() {
    let mut filter = filter_for(&["user-id", "trace-id"]);
    let out = filter.rewrite_baggage(None, &vec![Some(s("u1")), None]);
    assert_eq!(out, "user-id=u1");
    let mut none = empty_filter();
    assert_eq!(none.rewrite_baggage(None, &vec![]), "");
}

#[test]
fn rewrite_is_idempotent() {
    let mut filter = filter_for(&["a", "c"]);
    let values = vec![Some(s("2")), Some(s("3"))];
    let once = filter.rewrite_baggage(Some("b=0,a=1"), &values);
    let twice = filter.rewrite_baggage(Some(&once), &values);
    assert_eq!(once, "b=0,a=2,c=3");
    assert_eq!(twice, once);
}

#[test]
fn merge_headers_overwrites_and_appends() {
    let filter = filter_for(&["x", "y"]);
    let mut map = map_of(&[("y", "old"), ("z", "1")]);
    filter.merge_headers(&mut map, &vec![Some(s("new-x")), Some(s("new-y"))]);
    assert_eq!(encode_baggage(&map), "y=new-y,z=1,x=new-x");
}

#[test]
fn entry_reads_by_position() {
    let map = map_of(&[("k", "v")]);
    let (k, v) = map.entry(0);
    assert_eq!((k.as_str(), v.as_str()), ("k", "v"));
}
