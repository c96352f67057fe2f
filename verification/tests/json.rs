use log_view::json::Json;
use log_view::json::parse_json;
use log_view::json::print_json;

#[test]
fn parse_and_print_round_trip_simple_document() {
    let doc = Json::Obj(vec![
        ("a".to_string(), Json::Str("x".to_string())),
        ("b".to_string(), Json::Arr(vec![Json::Bool(true), Json::Null])),
    ]);
    let bytes = print_json(&doc);
    assert!(parse_json(&bytes).is_some());
    assert_eq!(String::from_utf8(bytes).unwrap(), "{\"a\":\"x\",\"b\":[true,null]}");
}

#[test]
fn nesting_up_to_the_parser_limit_round_trips() {
    let mut doc = Json::Null;
    for _ in 0..127 {
        doc = Json::Arr(vec![doc]);
    }
    let bytes = print_json(&doc);
    assert!(parse_json(&bytes).is_some());
}

#[test]
fn nesting_past_the_parser_limit_is_refused() {
    let mut doc = Json::Null;
    for _ in 0..128 {
        doc = Json::Arr(vec![doc]);
    }
    let bytes = print_json(&doc);
    assert!(parse_json(&bytes).is_none());
}
