use std::path::PathBuf;
use std::sync::Arc;

use jylsp::backend::Validated;
use jylsp::json::JsonValue;
use jylsp::report::{diag, Diagnostic, SchemaError};
use jylsp::schema::{SchemaCache, ServerConfig};
use jylsp::steps::{begin, Checking, Compiling, Locating, Looking, Step};
use jylsp::text_index::{Position, Range};
use jylsp::validate::{DocKind, StoredDocument};

const JSON: &str = "file:///d/a.json";

fn start(uri: &str, text: &str) -> Step {
    let doc = StoredDocument { version: 1, text: text.to_string(), kind: DocKind::from_uri(uri) };
    begin(uri, &doc)
}

fn locating(uri: &str, text: &str) -> Locating {
    match start(uri, text) {
        Step::Locate(locating) => locating,
        other => panic!("{other:?}"),
    }
}

fn looking(uri: &str, text: &str) -> Looking {
    match locating(uri, text).located(None).unwrap() {
        Step::Look(looking) => looking,
        other => panic!("{other:?}"),
    }
}

fn compiling(step: Step) -> Compiling {
    match step {
        Step::Compile(compiling) => compiling,
        other => panic!("{other:?}"),
    }
}

fn checking(step: Step) -> Checking {
    match step {
        Step::Check(checking) => checking,
        other => panic!("{other:?}"),
    }
}

fn failed(step: Step) -> String {
    match step {
        Step::Say(Validated::Failed(message)) => message,
        other => panic!("{other:?}"),
    }
}

fn said(validated: Validated) -> Vec<Diagnostic> {
    match validated {
        Validated::Done(diagnostics) => diagnostics,
        other => panic!("{other:?}"),
    }
}

fn cache() -> SchemaCache {
    cache_of(2)
}

fn cache_of(schema_cache_size: usize) -> SchemaCache {
    SchemaCache::new(ServerConfig { validate_formats: false, max_errors: 100, schema_cache_size })
}

fn string_schema() -> Arc<jsonschema::Validator> {
    let schema = serde_json::from_str(r#"{"properties": {"a": {"type": "string"}}}"#).unwrap();
    Arc::new(jsonschema::validator_for(&schema).unwrap())
}

#[test]
fn documents_without_a_schema_end_at_once() {
    match start(JSON, "{}") {
        Step::Say(validated) => assert!(said(validated).is_empty()),
        other => panic!("{other:?}"),
    }
    match start("file:///d/a.txt", "x") {
        Step::Say(validated) => assert!(said(validated).is_empty()),
        other => panic!("{other:?}"),
    }
    match start(JSON, "") {
        Step::Say(validated) => assert_eq!(
            said(validated),
            vec![diag(Range::default(), "Empty JSON document".to_string())]
        ),
        other => panic!("{other:?}"),
    }
}

#[test]
fn failures_before_the_schema_is_located() {
    assert_eq!(failed(start(JSON, "{\"$schema\": \"  \"}")), "empty $schema");
    assert_eq!(
        failed(start("https://x/a.json", "{\"$schema\": \"s.json\"}")),
        "instance is not a file:// URI: https://x/a.json"
    );
    assert_eq!(
        failed(start("file:///d/a.yml", "1: x")),
        "YAML mapping key must be string (got Number(1))"
    );
}

#[test]
fn schema_in_a_file_has_a_path() {
    let locating = locating(JSON, "{\"$schema\": \"s.json#/x\"}");
    assert_eq!(locating.uri, JSON);
    assert_eq!(locating.path, Some(PathBuf::from("/d/s.json")));
    match locating.located(Some(PathBuf::from("/real/s.json"))).unwrap() {
        Step::Look(looking) => {
            assert_eq!(looking.schema_uri, "file:///real/s.json#/x");
            assert_eq!(looking.file, Some(PathBuf::from("/real/s.json")));
        }
        other => panic!("{other:?}"),
    }
}

#[test]
fn schema_on_the_network_has_none() {
    assert_eq!(locating(JSON, "{\"$schema\": \"https://x/s\"}").path, None);
    let looking = looking(JSON, "{\"$schema\": \"https://x/s\"}");
    assert_eq!(looking.schema_uri, "https://x/s");
    assert_eq!(looking.file, None);
}

#[test]
fn path_that_has_no_url() {
    let step = locating(JSON, "{\"$schema\": \"s\"}").located(Some(PathBuf::from("r"))).unwrap();
    assert_eq!(failed(step), "failed to convert to file:// URL: \"r\"");
}

#[test]
fn unknown_schema_is_compiled_and_kept() {
    let mut cache = cache();
    let text = "{\"$schema\": \"s\", \"a\": 1}";
    let compiling = compiling(looking(JSON, text).looked_up(&cache, Some(7)));
    assert_eq!(compiling.schema_uri, "file:///d/s");
    assert_eq!(compiling.root_mtime, Some(7));
    assert_eq!(
        compiling.schema,
        JsonValue::Object(vec![(
            "$ref".to_string(),
            JsonValue::Text("file:///d/s".to_string())
        )])
    );
    let first = checking(compiling.compiled(&mut cache, Ok(string_schema())));
    let at = |character| Position { line: 0, character };
    let expected = || {
        vec![diag(
            Range { start: at(22), end: at(23) },
            "1 is not of type \"string\" (instance path: /a)".to_string(),
        )]
    };
    assert_eq!(said(first.check()), expected());
    let given = SchemaError { message: "m".to_string(), instance_path: "/a".to_string() };
    assert_eq!(
        said(first.report(&vec![given])),
        vec![diag(Range { start: at(22), end: at(23) }, "m (instance path: /a)".to_string())]
    );

    let again = checking(looking(JSON, text).looked_up(&cache, Some(7)));
    assert!(Arc::ptr_eq(&again.validator, &first.validator));
    assert_eq!(said(again.check()), expected());
}

#[test]
fn changed_schema_is_compiled_again() {
    let mut cache = cache();
    let text = "{\"$schema\": \"s\", \"a\": \"x\"}";
    let first = compiling(looking(JSON, text).looked_up(&cache, Some(7)));
    assert!(said(checking(first.compiled(&mut cache, Ok(string_schema()))).check()).is_empty());
    let second = compiling(looking(JSON, text).looked_up(&cache, Some(8)));
    assert_eq!(second.root_mtime, Some(8));
}

#[test]
fn schema_that_cannot_be_compiled() {
    let mut cache = cache();
    let text = "{\"$schema\": \"https://x/s\"}";
    let compiling = compiling(looking(JSON, text).looked_up(&cache, None));
    assert_eq!(
        failed(compiling.compiled(&mut cache, Err("gone".to_string()))),
        "build schema validator for https://x/s: gone"
    );
    assert_eq!(cache.inner.len(), 0);
}

#[test]
fn document_is_checked_though_no_schema_is_kept() {
    let mut cache = cache_of(0);
    let text = "{\"$schema\": \"s\", \"a\": 1}";
    let first = compiling(looking(JSON, text).looked_up(&cache, Some(7)));
    let checking = checking(first.compiled(&mut cache, Ok(string_schema())));
    assert_eq!(said(checking.check()).len(), 1);
    assert_eq!(cache.inner.len(), 0);
    compiling(looking(JSON, text).looked_up(&cache, Some(7)));
}
