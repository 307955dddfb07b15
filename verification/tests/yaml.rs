use jylsp::json::{JsonNumber, JsonValue};
use jylsp::schema::{parse_schema, schema_from_yaml};
use jylsp::validate::{combine_documents, parse_yaml_documents};
use jylsp::yaml_json::{yaml_to_json_value, ConvertError, YamlKey, YamlNumber, YamlValue};

fn text(s: &str) -> JsonValue {
    JsonValue::Text(s.to_string())
}

fn unsigned(n: u64) -> JsonValue {
    JsonValue::Number(JsonNumber::Unsigned(n))
}

fn signed(n: i64) -> JsonValue {
    JsonValue::Number(JsonNumber::Signed(n))
}

fn float(s: &str) -> JsonValue {
    JsonValue::Number(JsonNumber::Float(s.to_string()))
}

fn object(members: Vec<(&str, JsonValue)>) -> JsonValue {
    JsonValue::Object(members.into_iter().map(|(k, v)| (k.to_string(), v)).collect())
}

fn json_of(yaml: &str) -> Result<JsonValue, ConvertError> {
    match parse_yaml_documents(yaml) {
        Ok(value) => yaml_to_json_value(&value),
        Err(e) => panic!("{}", e.message),
    }
}

#[test]
fn scalars() {
    assert_eq!(json_of("null"), Ok(JsonValue::Null));
    assert_eq!(json_of("~"), Ok(JsonValue::Null));
    assert_eq!(json_of("true"), Ok(JsonValue::Bool(true)));
    assert_eq!(json_of("hello"), Ok(text("hello")));
    assert_eq!(json_of("'7'"), Ok(text("7")));
    assert_eq!(json_of("2.5"), Ok(float("2.5")));
    assert_eq!(json_of("-1.5e3"), Ok(float("-1500")));
}

#[test]
fn integers_of_all_sizes() {
    assert_eq!(json_of("7"), Ok(signed(7)));
    assert_eq!(json_of("-7"), Ok(signed(-7)));
    assert_eq!(json_of("9223372036854775807"), Ok(signed(i64::MAX)));
    assert_eq!(json_of("9223372036854775808"), Ok(unsigned(9223372036854775808)));
    assert_eq!(json_of("18446744073709551615"), Ok(unsigned(u64::MAX)));
}

#[test]
fn numbers_without_a_json_number_are_null() {
    assert_eq!(json_of(".nan"), Ok(JsonValue::Null));
    assert_eq!(json_of(".inf"), Ok(JsonValue::Null));
    assert_eq!(json_of("-.inf"), Ok(JsonValue::Null));
    let nothing = YamlValue::Number(YamlNumber { signed: None, unsigned: None, float: None });
    assert_eq!(yaml_to_json_value(&nothing), Ok(JsonValue::Null));
}

#[test]
fn sequences_and_mappings_keep_their_order() {
    let json = json_of("b: [1, x]\na:\n  c: true\n");
    let expected = object(vec![
        ("b", JsonValue::Array(vec![signed(1), text("x")])),
        ("a", object(vec![("c", JsonValue::Bool(true))])),
    ]);
    assert_eq!(json, Ok(expected));
    assert_eq!(json_of("[]"), Ok(JsonValue::Array(vec![])));
    assert_eq!(json_of("{}"), Ok(object(vec![])));
}

#[test]
fn key_that_is_no_text_is_refused() {
    let error = match json_of("1: x") {
        Err(e) => e,
        Ok(_) => panic!("converted"),
    };
    assert!(matches!(error, ConvertError::KeyNotText(_)));
    assert_eq!(error.message(), "YAML mapping key must be string (got Number(1))");
    assert!(json_of("a:\n  - ? [x]\n    : y").is_err());
}

#[test]
fn later_of_two_equal_keys_wins() {
    let mapping = YamlValue::Mapping(vec![
        (YamlKey::Text("a".to_string()), YamlValue::Bool(true)),
        (YamlKey::Text("b".to_string()), YamlValue::Null),
        (YamlKey::Text("a".to_string()), YamlValue::Bool(false)),
    ]);
    let expected = object(vec![("a", JsonValue::Bool(false)), ("b", JsonValue::Null)]);
    assert_eq!(yaml_to_json_value(&mapping), Ok(expected));
}

#[test]
fn tagged_values_stand_under_their_tag() {
    assert_eq!(json_of("!thing x"), Ok(object(vec![("!thing", text("x"))])));
    assert_eq!(
        json_of("a: !thing [1]"),
        Ok(object(vec![("a", object(vec![("!thing", JsonValue::Array(vec![signed(1)]))]))]))
    );
}

#[test]
fn tags_may_stand_behind_tags() {
    let inner = YamlValue::Tagged("!b".to_string(), Box::new(YamlValue::Null));
    let value = YamlValue::Tagged("!a".to_string(), Box::new(inner));
    let expected = object(vec![("!a", object(vec![("!b", JsonValue::Null)]))]);
    assert_eq!(yaml_to_json_value(&value), Ok(expected));
    assert_eq!(json_of("!t .nan"), Ok(object(vec![("!t", JsonValue::Null)])));
}

#[test]
fn keys_below_a_tag_must_be_texts_too() {
    let refused = |yaml: &str, shown: &str| {
        assert_eq!(json_of(yaml), Err(ConvertError::KeyNotText(shown.to_string())));
    };
    refused("!t {1: a}", "Number(1)");
    refused("!t {true: a}", "Bool(true)");
    refused("x: [!t {y: !u {~: a}}]", "Null");
    assert_eq!(
        json_of("!t {a: 1}"),
        Ok(object(vec![("!t", object(vec![("a", signed(1))]))]))
    );
}

#[test]
fn json_written_as_yaml_reads_back() {
    let text = r#"{"a": [1, -2, 2.5, "x", null, true, {"b": {}}], "c": 18446744073709551615}"#;
    let as_json = parse_schema(text.as_bytes(), "x").unwrap();
    let expected = object(vec![
        (
            "a",
            JsonValue::Array(vec![
                unsigned(1),
                signed(-2),
                float("2.5"),
                JsonValue::Text("x".to_string()),
                JsonValue::Null,
                JsonValue::Bool(true),
                object(vec![("b", object(vec![]))]),
            ]),
        ),
        ("c", unsigned(u64::MAX)),
    ]);
    assert_eq!(as_json, expected);
    let with_signed_one = object(vec![
        (
            "a",
            JsonValue::Array(vec![
                signed(1),
                signed(-2),
                float("2.5"),
                JsonValue::Text("x".to_string()),
                JsonValue::Null,
                JsonValue::Bool(true),
                object(vec![("b", object(vec![]))]),
            ]),
        ),
        ("c", unsigned(u64::MAX)),
    ]);
    assert_eq!(json_of(text), Ok(with_signed_one));
}

#[test]
fn documents_are_one_value() {
    assert_eq!(combine_documents(vec![]), YamlValue::Null);
    assert_eq!(combine_documents(vec![YamlValue::Bool(true)]), YamlValue::Bool(true));
    assert_eq!(
        combine_documents(vec![YamlValue::Bool(true), YamlValue::Null]),
        YamlValue::Sequence(vec![YamlValue::Bool(true), YamlValue::Null])
    );
    assert_eq!(json_of("a\n---\nb\n"), Ok(JsonValue::Array(vec![text("a"), text("b")])));
    assert_eq!(json_of("---\na\n"), Ok(text("a")));
    assert_eq!(json_of(""), Ok(JsonValue::Null));
}

#[test]
fn text_that_is_no_yaml() {
    let error = match parse_yaml_documents("a: b: c") {
        Err(e) => e,
        Ok(_) => panic!("parsed"),
    };
    assert_eq!(error.location, Some((1, 5)));
    assert!(error.message.contains("mapping values are not allowed"));
    assert!(parse_yaml_documents("ok\n---\n[").is_err());
}

#[test]
fn schema_that_is_json() {
    assert_eq!(
        parse_schema(br#"{"type": "object", "minimum": -2, "maximum": 2.5}"#, "x"),
        Ok(object(vec![("maximum", float("2.5")), ("minimum", signed(-2)), ("type", text("object"))]))
    );
    assert_eq!(parse_schema(b"true", "x"), Ok(JsonValue::Bool(true)));
    assert_eq!(parse_schema(b"18446744073709551615", "x"), Ok(unsigned(u64::MAX)));
}

#[test]
fn schema_that_is_yaml() {
    assert_eq!(
        parse_schema(b"type: object\nminProperties: 2\n", "x"),
        Ok(object(vec![("type", text("object")), ("minProperties", signed(2))]))
    );
}

#[test]
fn schema_that_is_neither() {
    let error = match parse_schema(b"a: b: c", "parse YAML schema: \"/s\"") {
        Err(message) => message,
        Ok(_) => panic!("parsed"),
    };
    assert!(error.starts_with("parse YAML schema: \"/s\": "));
    assert_eq!(
        parse_schema(b"1: x", "context"),
        Err("YAML mapping key must be string (got Number(1))".to_string())
    );
}

#[test]
fn schema_from_a_given_yaml_value() {
    assert_eq!(schema_from_yaml(Ok(YamlValue::Null), "c"), Ok(JsonValue::Null));
    assert_eq!(schema_from_yaml(Err("bad".to_string()), "c"), Err("c: bad".to_string()));
    let key = YamlValue::Mapping(vec![(YamlKey::Other("Null".to_string()), YamlValue::Null)]);
    assert_eq!(
        schema_from_yaml(Ok(key), "c"),
        Err("YAML mapping key must be string (got Null)".to_string())
    );
}
