use fast_routing_table::fast_routing_table::UsageError;
use fast_routing_table::methods::Methods;
use fast_routing_table::types::uuid_param;
use fast_routing_table::types::ParamParseResult;
use fast_routing_table::types::ParamRouteKey;
use fast_routing_table::types::StaticRouteKey;
use fast_routing_table::types::ParamType;

fn methods(names: &[&str]) -> Methods {
    Methods::from_vec(names.iter().map(|name| name.to_string()).collect())
}

#[test]
fn methods_hold_each_name_once() {
    let set = methods(&["GET", "POST", "GET"]);
    assert_eq!(set.len(), 2);
    assert!(set.contains("GET"));
    assert!(set.contains("POST"));
    assert!(!set.contains("PUT"));
    assert!(!set.contains("get"));
    assert_eq!(set.get(0), "GET");
    assert_eq!(set.get(1), "POST");
}

#[test]
fn methods_insert_says_whether_the_name_was_new() {
    let mut set = Methods::new();
    assert_eq!(set.len(), 0);
    assert!(!set.contains("GET"));
    assert!(set.insert("GET".to_string()));
    assert!(!set.insert("GET".to_string()));
    assert!(set.insert("PUT".to_string()));
    assert_eq!(set.len(), 2);
}

#[test]
fn methods_extend_is_the_union() {
    let mut set = methods(&["GET", "POST"]);
    set.extend(&methods(&["POST", "DELETE"]));
    assert_eq!(set.len(), 3);
    assert!(set.contains("GET"));
    assert!(set.contains("POST"));
    assert!(set.contains("DELETE"));
    set.extend(&Methods::new());
    assert_eq!(set.len(), 3);
}

#[test]
fn param_types_stand_in_the_order_of_trial() {
    assert_eq!(ParamType::UUID.order(), 0);
    assert_eq!(ParamType::Int.order(), 1);
    assert_eq!(ParamType::Float.order(), 2);
    assert_eq!(ParamType::Str.order(), 3);
    assert_eq!(ParamType::Path.order(), 4);
    assert!(ParamType::UUID < ParamType::Int);
    assert!(ParamType::Int < ParamType::Float);
    assert!(ParamType::Float < ParamType::Str);
    assert!(ParamType::Str < ParamType::Path);
}

#[test]
fn param_type_names_and_labels() {
    let all = [
        (ParamType::UUID, "uuid", "{uuid}"),
        (ParamType::Int, "int", "{int}"),
        (ParamType::Float, "float", "{float}"),
        (ParamType::Str, "str", "{str}"),
        (ParamType::Path, "path", "{path}"),
    ];
    for (kind, name, label) in all {
        assert_eq!(kind.name(), name);
        assert_eq!(kind.label(), label);
        assert_eq!(ParamType::from_name(name), Some(kind));
    }
    assert_eq!(ParamType::from_name("Int"), None);
    assert_eq!(ParamType::from_name(""), None);
    assert_eq!(ParamType::from_name("integer"), None);
}

#[test]
fn uuid_segment_parses_to_its_value() {
    assert_eq!(
        ParamType::UUID.parse("550e8400-e29b-41d4-a716-446655440000"),
        Some(ParamParseResult::UUID(0x550e8400_e29b_41d4_a716_446655440000))
    );
    assert_eq!(
        ParamType::UUID.parse("550E8400E29B41D4A716446655440000"),
        Some(ParamParseResult::UUID(0x550e8400_e29b_41d4_a716_446655440000))
    );
    assert_eq!(
        ParamType::UUID.parse("{a1a2a3a4-b1b2-c1c2-d1d2-d3d4d5d6d7d8}"),
        Some(ParamParseResult::UUID(0xa1a2a3a4_b1b2_c1c2_d1d2_d3d4d5d6d7d8))
    );
    assert_eq!(
        ParamType::UUID.parse("urn:uuid:a1a2a3a4-b1b2-c1c2-d1d2-d3d4d5d6d7d8"),
        Some(ParamParseResult::UUID(0xa1a2a3a4_b1b2_c1c2_d1d2_d3d4d5d6d7d8))
    );
    let value = uuid::Uuid::parse_str("936da01f-9abd-4d9d-80c7-02af85c822a8").unwrap().as_u128();
    assert_eq!(
        ParamType::UUID.parse("936da01f-9abd-4d9d-80c7-02af85c822a8"),
        Some(ParamParseResult::UUID(value))
    );
}

#[test]
fn malformed_uuid_is_rejected() {
    assert_eq!(ParamType::UUID.parse(""), None);
    assert_eq!(ParamType::UUID.parse("42"), None);
    assert_eq!(ParamType::UUID.parse("550e8400-e29b-41d4-a716-44665544000"), None);
    assert_eq!(ParamType::UUID.parse("550e8400-e29b-41d4-a716-4466554400000"), None);
    assert_eq!(ParamType::UUID.parse("550e8400-e29b-41d4-a716-44665544000g"), None);
    assert_eq!(ParamType::UUID.parse("550e8400e29b-41d4-a716-446655440000"), None);
    assert_eq!(ParamType::UUID.parse("not-a-uuid"), None);
}

#[test]
fn uuid_param_wraps_what_the_reader_found() {
    assert_eq!(uuid_param(Some(7)), Some(ParamParseResult::UUID(7)));
    assert_eq!(uuid_param(Some(u128::MAX)), Some(ParamParseResult::UUID(u128::MAX)));
    assert_eq!(uuid_param(None), None);
}

#[test]
fn int_segment_parses_to_its_number() {
    assert_eq!(ParamType::Int.parse("42"), Some(ParamParseResult::Int(42)));
    assert_eq!(ParamType::Int.parse("-7"), Some(ParamParseResult::Int(-7)));
    assert_eq!(ParamType::Int.parse("abc"), None);
    assert_eq!(ParamType::Int.parse("4.2"), None);
    assert_eq!(ParamType::Int.parse(""), None);
}

#[test]
fn float_segment_keeps_its_literal() {
    assert_eq!(ParamType::Float.parse("3.14"), Some(ParamParseResult::Float("3.14".to_string())));
    assert_eq!(ParamType::Float.parse("42"), Some(ParamParseResult::Float("42".to_string())));
    assert_eq!(ParamType::Float.parse("-1e9"), Some(ParamParseResult::Float("-1e9".to_string())));
    assert_eq!(ParamType::Float.parse("abc"), None);
    assert_eq!(ParamType::Float.parse(""), None);
    match ParamType::Float.parse("2.5E-3") {
        Some(ParamParseResult::Float(literal)) => {
            assert_eq!(literal.parse::<f64>().unwrap(), 0.0025);
        }
        other => panic!("no float: {:?}", other),
    }
}

#[test]
fn str_segment_is_one_path_element() {
    assert_eq!(ParamType::Str.parse("acme"), Some(ParamParseResult::Str("acme".to_string())));
    assert_eq!(ParamType::Str.parse(""), Some(ParamParseResult::Str("".to_string())));
    assert_eq!(ParamType::Str.parse("42"), Some(ParamParseResult::Str("42".to_string())));
    assert_eq!(ParamType::Str.parse("abc/def"), None);
    assert_eq!(ParamType::Str.parse("/"), None);
}

#[test]
fn path_segment_takes_anything() {
    assert_eq!(ParamType::Path.parse("abc/def"), Some(ParamParseResult::Path("abc/def".to_string())));
    assert_eq!(ParamType::Path.parse(""), Some(ParamParseResult::Path("".to_string())));
    assert_eq!(ParamType::Path.parse("42"), Some(ParamParseResult::Path("42".to_string())));
}

#[test]
fn only_the_catch_all_takes_what_the_stricter_types_reject() {
    let segment = "abc/def";
    assert_eq!(ParamType::UUID.parse(segment), None);
    assert_eq!(ParamType::Int.parse(segment), None);
    assert_eq!(ParamType::Float.parse(segment), None);
    assert_eq!(ParamType::Str.parse(segment), None);
    assert_eq!(ParamType::Path.parse(segment), Some(ParamParseResult::Path(segment.to_string())));
}

#[test]
fn route_keys_by_name() {
    assert!(matches!(StaticRouteKey::from_name("static"), Some(StaticRouteKey::Static)));
    assert!(StaticRouteKey::from_name("param").is_none());
    assert!(StaticRouteKey::from_name("").is_none());
    assert!(matches!(ParamRouteKey::from_name("param"), Some(ParamRouteKey::Param)));
    assert!(ParamRouteKey::from_name("static").is_none());
    assert!(ParamRouteKey::from_name("Param").is_none());
}

#[test]
fn usage_error_in_words() {
    assert_eq!(
        UsageError::AlreadyPrepared.message(),
        "Cannot add routes after prepare() has been called"
    );
}
