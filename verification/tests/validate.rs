use jylsp::json::{JsonNumber, JsonValue};
use jylsp::json_tree::{JsonNode, JsonSyntaxError};
use jylsp::report::{
    diag, report_json, report_yaml, Diagnostic, SchemaError, Severity,
};
use jylsp::text_index::{Position, Range, TextIndex};
use jylsp::validate::{
    find_yaml_schema_comment, json_source, plan_json, plan_yaml, validate_document, DocKind,
    Outcome, PendingValidation, StoredDocument, ValidateError,
};
use jylsp::yaml_json::{ConvertError, YamlKey, YamlSyntaxError, YamlValue};

fn range(start: (u32, u32), end: (u32, u32)) -> Range {
    Range {
        start: Position { line: start.0, character: start.1 },
        end: Position { line: end.0, character: end.1 },
    }
}

fn validate(uri: &str, text: &str) -> Result<Outcome, ValidateError> {
    let doc = StoredDocument { version: 1, text: text.to_string(), kind: DocKind::from_uri(uri) };
    validate_document(uri, &doc)
}

fn finished(uri: &str, text: &str) -> Vec<Diagnostic> {
    match validate(uri, text) {
        Ok(Outcome::Finished(diagnostics)) => diagnostics,
        _ => panic!("not finished"),
    }
}

fn pending(uri: &str, text: &str) -> PendingValidation {
    match validate(uri, text) {
        Ok(Outcome::Pending(pending)) => pending,
        _ => panic!("not pending"),
    }
}

fn failure(uri: &str, text: &str) -> ValidateError {
    match validate(uri, text) {
        Err(e) => e,
        _ => panic!("no failure"),
    }
}

fn validator(schema: &str) -> jsonschema::Validator {
    jsonschema::validator_for(&serde_json::from_str(schema).unwrap()).unwrap()
}

const JSON: &str = "file:///d/a.json";
const YAML: &str = "file:///d/a.yaml";

#[test]
fn kinds_by_extension() {
    assert_eq!(DocKind::from_uri("file:///d/a.json"), DocKind::Json);
    assert_eq!(DocKind::from_uri("file:///d/A.JSON"), DocKind::Json);
    assert_eq!(DocKind::from_uri("file:///d/a.yml"), DocKind::Yaml);
    assert_eq!(DocKind::from_uri("file:///d/a.YaML"), DocKind::Yaml);
    assert_eq!(DocKind::from_uri("file:///d/a.json5"), DocKind::Other);
    assert_eq!(DocKind::from_uri("file:///d/json"), DocKind::Other);
    assert_eq!(DocKind::from_uri("https://x/a.json?b=c.txt#d"), DocKind::Json);
    assert_eq!(DocKind::from_uri("https://x/a?b=c.json"), DocKind::Other);
    assert_eq!(DocKind::from_uri("a.json"), DocKind::Other);
    assert_eq!(DocKind::from_path(".yml"), DocKind::Yaml);
    assert_eq!(DocKind::from_path(""), DocKind::Other);
}

#[test]
fn other_documents_have_no_diagnostics() {
    assert!(finished("file:///d/a.txt", "{").is_empty());
}

#[test]
fn diagnostics_of_this_server() {
    let d = diag(range((1, 2), (3, 4)), "m".to_string());
    assert_eq!(d.range, range((1, 2), (3, 4)));
    assert_eq!(d.severity, Severity::Error);
    assert_eq!(d.source, "cgpt-jsonschema-lsp");
    assert_eq!(d.message, "m");
}

#[test]
fn text_that_is_no_json() {
    let diagnostics = finished(JSON, "{\n  \"a\": ]\n}");
    assert_eq!(diagnostics.len(), 1);
    assert_eq!(diagnostics[0].range.start, Position { line: 1, character: 7 });
    assert!(diagnostics[0].message.starts_with("JSON parse error: "));
}

#[test]
fn json_text_without_a_value() {
    for text in ["", "  \n", "// only a comment\n"] {
        assert_eq!(
            finished(JSON, text),
            vec![diag(Range::default(), "Empty JSON document".to_string())]
        );
    }
}

#[test]
fn json_with_comments_cannot_be_validated() {
    let error = failure(JSON, "// c\n{\"$schema\": \"s\"}");
    assert_eq!(
        error.message(),
        "parse JSON for validation: file:///d/a.json: expected value at line 1 column 1"
    );
}

#[test]
fn documents_without_a_schema_are_not_validated() {
    assert!(finished(JSON, "{\"a\": 1}").is_empty());
    assert!(finished(JSON, "{\"$schema\": 1}").is_empty());
    assert!(finished(JSON, "[{\"$schema\": \"s\"}]").is_empty());
    assert!(finished(YAML, "a: 1").is_empty());
    assert!(finished(YAML, "").is_empty());
}

#[test]
fn json_document_names_its_schema() {
    let p = pending(JSON, "{\"$schema\": \"./s.json\", \"a\": [1, -2, 2.5, \"x\", null, true]}");
    assert_eq!(p.schema, "./s.json");
    assert!(p.source.is_some());
    let a = JsonValue::Array(vec![
        JsonValue::Number(JsonNumber::Unsigned(1)),
        JsonValue::Number(JsonNumber::Signed(-2)),
        JsonValue::Number(JsonNumber::Float("2.5".to_string())),
        JsonValue::Text("x".to_string()),
        JsonValue::Null,
        JsonValue::Bool(true),
    ]);
    assert_eq!(p.instance, JsonValue::Object(vec![("a".to_string(), a)]));
}

#[test]
fn yaml_document_names_its_schema() {
    let p = pending(YAML, "$schema: s.json\na: x\n");
    assert_eq!(p.schema, "s.json");
    assert!(p.source.is_none());
    assert_eq!(
        p.instance,
        JsonValue::Object(vec![("a".to_string(), JsonValue::Text("x".to_string()))])
    );
}

#[test]
fn comment_goes_before_the_member() {
    let text = "# yaml-language-server: $schema=c.json\n$schema: m.json\na: x\n";
    let p = pending(YAML, text);
    assert_eq!(p.schema, "c.json");
    assert_eq!(
        p.instance,
        JsonValue::Object(vec![("a".to_string(), JsonValue::Text("x".to_string()))])
    );
}

#[test]
fn comment_names_the_schema_of_any_value() {
    let p = pending(YAML, "# yaml-language-server: $schema=c.json\n- 1\n- 2\n");
    assert_eq!(p.schema, "c.json");
    assert!(matches!(p.instance, JsonValue::Array(_)));
}

#[test]
fn directives_in_comments() {
    let found = |text: &str| find_yaml_schema_comment(text);
    let some = |s: &str| Some(s.to_string());
    assert_eq!(found("# yaml-language-server: $schema=a"), some("a"));
    assert_eq!(found("x: 1\n\t  ###  yaml-language-server:$schema=a\r\n"), some("a"));
    assert_eq!(found("# yaml-language-server: other $schema= $schema=a $schema=b"), some("a"));
    assert_eq!(
        found("# yaml-language-server: $schema=\n# yaml-language-server: $schema=b"),
        some("b")
    );
    assert_eq!(found("# yaml-language-server: x\n# yaml-language-server: $schema=b"), some("b"));
    assert_eq!(found("# yaml-language-server: $schema=a\n# yaml-language-server: $schema=b"), some("a"));
    assert_eq!(found("yaml-language-server: $schema=a"), None);
    assert_eq!(found("x: 1 # yaml-language-server: $schema=a"), None);
    assert_eq!(found("# $schema=a"), None);
    assert_eq!(found("# yaml-language-server : $schema=a"), None);
    assert_eq!(found("# yaml-language-server: schema=a"), None);
    assert_eq!(found(""), None);
}

#[test]
fn text_that_is_no_yaml_document() {
    let diagnostics = finished(YAML, "ok: 1\na: b: c\n");
    assert_eq!(diagnostics.len(), 1);
    assert_eq!(diagnostics[0].range, range((1, 4), (1, 4)));
    assert!(diagnostics[0].message.starts_with("YAML parse error: "));
}

#[test]
fn yaml_with_a_key_that_is_no_text() {
    assert_eq!(
        failure(YAML, "1: x").message(),
        "YAML mapping key must be string (got Number(1))"
    );
}

#[test]
fn given_json_syntax() {
    let error = JsonSyntaxError { span: (1, 3), message: "m".to_string() };
    match json_source("a\nbc", Err(error)) {
        Err(d) => {
            assert_eq!(d, diag(range((0, 1), (1, 1)), "JSON parse error: m".to_string()));
        }
        Ok(_) => panic!("an error"),
    }
    match json_source("", Ok(None)) {
        Err(d) => assert_eq!(d, diag(Range::default(), "Empty JSON document".to_string())),
        Ok(_) => panic!("no value"),
    }
    match json_source("7", Ok(Some(JsonNode::Leaf((0, 1))))) {
        Ok(source) => assert_eq!(source.root, JsonNode::Leaf((0, 1))),
        Err(_) => panic!("a value"),
    }
}

#[test]
fn given_json_values() {
    let source = || json_source("7", Ok(Some(JsonNode::Leaf((0, 1))))).ok().unwrap();
    match plan_json("u", source(), Err("c".to_string())) {
        Err(e) => assert_eq!(e.message(), "parse JSON for validation: u: c"),
        Ok(_) => panic!("an error"),
    }
    match plan_json("u", source(), Ok(JsonValue::Null)) {
        Ok(Outcome::Finished(diagnostics)) => assert!(diagnostics.is_empty()),
        _ => panic!("no schema"),
    }
    let value = JsonValue::Object(vec![("$schema".to_string(), JsonValue::Text("s".to_string()))]);
    match plan_json("u", source(), Ok(value)) {
        Ok(Outcome::Pending(p)) => {
            assert_eq!(p.schema, "s");
            assert_eq!(p.instance, JsonValue::Object(vec![]));
        }
        _ => panic!("a schema"),
    }
}

#[test]
fn given_yaml_values() {
    let at = |location| Err(YamlSyntaxError { message: "m".to_string(), location });
    let said = |value| match plan_yaml("", value) {
        Ok(Outcome::Finished(diagnostics)) => diagnostics,
        _ => panic!("finished"),
    };
    let message = || "YAML parse error: m".to_string();
    assert_eq!(said(at(Some((3, 5)))), vec![diag(range((2, 4), (2, 4)), message())]);
    assert_eq!(said(at(Some((0, 0)))), vec![diag(Range::default(), message())]);
    assert_eq!(said(at(None)), vec![diag(Range::default(), message())]);
    assert!(said(Ok(YamlValue::Null)).is_empty());
    let key = YamlValue::Mapping(vec![(YamlKey::Other("k".to_string()), YamlValue::Null)]);
    match plan_yaml("", Ok(key)) {
        Err(ValidateError::Convert(e)) => {
            assert_eq!(e, ConvertError::KeyNotText("k".to_string()));
        }
        _ => panic!("an error"),
    }
    match plan_yaml("# yaml-language-server: $schema=s", Ok(YamlValue::Null)) {
        Ok(Outcome::Pending(p)) => {
            assert_eq!(p.schema, "s");
            assert_eq!(p.instance, JsonValue::Null);
            assert!(p.source.is_none());
        }
        _ => panic!("a schema"),
    }
}

fn error(message: &str, instance_path: &str) -> SchemaError {
    SchemaError { message: message.to_string(), instance_path: instance_path.to_string() }
}

fn source_tree() -> (TextIndex, JsonNode) {
    let text = "{\n  \"a\": 1,\n  \"b\": 2\n}";
    let root = JsonNode::Object(
        (0, 24),
        vec![("a".to_string(), JsonNode::Leaf((9, 10))), ("b".to_string(), JsonNode::Leaf((19, 20)))],
    );
    (TextIndex::new(text), root)
}

#[test]
fn json_errors_are_reported_at_their_nodes() {
    let (index, root) = source_tree();
    let errors = vec![error("x", "/a"), error("y", "/b"), error("z", "/c"), error("w", "")];
    assert_eq!(
        report_json(&index, &root, &errors, 100),
        vec![
            diag(range((1, 7), (1, 8)), "x (instance path: /a)".to_string()),
            diag(range((2, 7), (2, 8)), "y (instance path: /b)".to_string()),
            diag(range((0, 0), (3, 1)), "z (instance path: /c)".to_string()),
            diag(range((0, 0), (3, 1)), "w (instance path: )".to_string()),
        ]
    );
}

#[test]
fn json_report_is_cut_off_with_a_note() {
    let (index, root) = source_tree();
    let errors = vec![error("x", "/a"), error("y", "/b"), error("z", "/c")];
    let report = report_json(&index, &root, &errors, 2);
    assert_eq!(report.len(), 2);
    assert_eq!(report[0].message, "x (instance path: /a)");
    assert_eq!(
        report[1],
        diag(
            Range::default(),
            "Too many errors; stopping after 2 (use --max-errors to raise)".to_string()
        )
    );
    for max in [3, 4] {
        let all = report_json(&index, &root, &errors, max);
        assert_eq!(all.len(), 3);
        assert_eq!(all[2].message, "z (instance path: /c)");
    }
    let one = report_json(&index, &root, &errors, 1);
    assert_eq!(one.len(), 1);
    assert!(one[0].message.starts_with("Too many errors; stopping after 1"));
}

#[test]
fn nothing_is_reported_where_nothing_is_allowed() {
    let (index, root) = source_tree();
    let errors = vec![error("x", "/a"), error("y", "/b")];
    assert!(report_json(&index, &root, &errors, 0).is_empty());
    assert!(report_yaml(&errors, 0).is_empty());
}

#[test]
fn no_report_is_longer_than_its_maximum() {
    let (index, root) = source_tree();
    let errors = || vec![error("x", "/a"), error("y", "/b"), error("z", "/c")];
    for max in 0..6 {
        assert_eq!(report_json(&index, &root, &errors(), max).len(), max.min(3));
        assert_eq!(report_yaml(&errors(), max).len(), max.min(3));
    }
}

#[test]
fn no_errors_give_an_empty_report() {
    let (index, root) = source_tree();
    assert!(report_json(&index, &root, &vec![], 0).is_empty());
    assert!(report_yaml(&vec![], 5).is_empty());
}

#[test]
fn yaml_errors_are_reported_at_the_start() {
    let errors = vec![error("x", "/a"), error("y", "/b"), error("z", "/c")];
    assert_eq!(
        report_yaml(&errors, 2),
        vec![
            diag(Range::default(), "x (instance path: /a)".to_string()),
            diag(Range::default(), "y (instance path: /b)".to_string()),
        ]
    );
    assert_eq!(report_yaml(&errors, 9).len(), 3);
}

#[test]
fn json_document_against_a_schema() {
    let schema = validator(
        r#"{"additionalProperties": false,
            "properties": {"a": {"type": "integer"}, "b": {"items": {"maximum": 3}}}}"#,
    );
    let text = "{\n \"$schema\": \"s\",\n \"a\": \"\u{1f600}\", \"b\": [1, 7]\n}";
    let report = pending(JSON, text).validate(&schema, 100);
    assert_eq!(
        report,
        vec![
            diag(
                range((2, 6), (2, 10)),
                "\"\u{1f600}\" is not of type \"integer\" (instance path: /a)".to_string()
            ),
            diag(
                range((2, 21), (2, 22)),
                "7 is greater than the maximum of 3 (instance path: /b/1)".to_string()
            ),
        ]
    );
}

#[test]
fn valid_document_against_a_schema() {
    let schema = validator(r#"{"additionalProperties": false, "properties": {"a": true}}"#);
    assert!(pending(JSON, "{\"$schema\": \"s\", \"a\": 1}").validate(&schema, 100).is_empty());
    assert!(pending(YAML, "$schema: s\na: 1").validate(&schema, 100).is_empty());
}

#[test]
fn yaml_document_against_a_schema() {
    let schema = validator(r#"{"items": {"type": "string"}}"#);
    let text = "# yaml-language-server: $schema=s\n- 1\n- x\n- 2.5\n- 3\n";
    let p = pending(YAML, text);
    assert_eq!(
        p.validate(&schema, 2),
        vec![
            diag(
                Range::default(),
                "1 is not of type \"string\" (instance path: /0)".to_string()
            ),
            diag(
                Range::default(),
                "2.5 is not of type \"string\" (instance path: /2)".to_string()
            ),
        ]
    );
    assert_eq!(p.validate(&schema, 100).len(), 3);
    assert_eq!(p.report(&vec![error("x", "")], 1).len(), 1);
}

#[test]
fn validation_stops_at_the_limit() {
    let schema = validator(r#"{"properties": {"a": {"items": {"type": "string"}}}}"#);
    let p = pending(JSON, "{\"$schema\": \"s\", \"a\": [1, 2, 3]}");
    let report = p.validate(&schema, 2);
    assert_eq!(report.len(), 2);
    assert_eq!(report[0].message, "1 is not of type \"string\" (instance path: /a/0)");
    assert_eq!(
        report[1].message,
        "Too many errors; stopping after 2 (use --max-errors to raise)"
    );
    assert!(p.validate(&schema, 0).is_empty());
    assert_eq!(p.validate(&schema, 3)[2].message, "3 is not of type \"string\" (instance path: /a/2)");
    assert_eq!(p.validate(&schema, 4).len(), 3);
}

#[test]
fn error_about_a_repeated_key_is_placed_on_the_last() {
    let schema = validator(r#"{"properties": {"a": {"type": "integer"}}}"#);
    let text = r#"{"$schema":"file:///w/s.json","a":1,"a":"x"}"#;
    let report = pending("file:///w/a.json", text).validate(&schema, 100);
    assert_eq!(
        report,
        vec![diag(
            range((0, 40), (0, 43)),
            "\"x\" is not of type \"integer\" (instance path: /a)".to_string()
        )]
    );
}

#[test]
fn json_text_is_reported_alike_as_yaml() {
    let schema = validator(r#"{"properties": {"a": {"items": {"type": "string"}}}}"#);
    let text = "{\n  \"$schema\": \"s\",\n  \"a\": [1, \"x\", 2.5]\n}";
    let json = pending(JSON, text).validate(&schema, 100);
    let yaml = pending(YAML, text).validate(&schema, 100);
    assert_eq!(json.len(), 2);
    let messages = |report: &Vec<Diagnostic>| -> Vec<String> {
        report.iter().map(|d| d.message.clone()).collect()
    };
    assert_eq!(messages(&json), messages(&yaml));
    assert_ne!(json[0].range, yaml[0].range);
}

fn assert_nested(node: &JsonNode) {
    let span = node.span();
    assert!(span.0 <= span.1);
    let children: Vec<&JsonNode> = match node {
        JsonNode::Object(_, properties) => properties.iter().map(|(_, value)| value).collect(),
        JsonNode::Array(_, elements) => elements.iter().collect(),
        JsonNode::Leaf(_) => vec![],
    };
    for child in children {
        assert!(span.0 <= child.span().0 && child.span().1 <= span.1);
        assert_nested(child);
    }
}

#[test]
fn nodes_of_a_text_lie_in_their_parents() {
    let texts = [
        "{\"$schema\":\"s\"}",
        "  {\n \"$schema\": \"s\", \"a\": [ ], \"b\": [[1], {\"c\": {}, \"d\": \"\u{1f600}\"}, null] }\n",
        "{\"a\": {\"a\": {\"a\": [true, -1.5e3, \"\"]}}, \"$schema\": \"s\", \"a\": 2}",
    ];
    for text in texts {
        assert_nested(&pending(JSON, text).source.unwrap().root);
    }
}
