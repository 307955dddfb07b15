use std::path::PathBuf;
use std::sync::Arc;

use jylsp::json::{JsonNumber, JsonValue};
use jylsp::schema::{
    choose_route, failed_to_retrieve, resolve_schema_uri, retrieval_of, schema_path,
    split_reference, try_resolve_schema_uri, watched_file, CacheAnswer, ResolveError, Retrieval,
    SchemaCache, SchemaReference, ServerConfig,
};
use jylsp::uri::UrlParts;

const DOC: &str = "file:///work/docs/a.json";

fn resolve(raw: &str) -> Result<String, ResolveError> {
    try_resolve_schema_uri(DOC, raw, None).unwrap()
}

#[test]
fn uri_stays_as_it_is() {
    for uri in ["http://x/s.json", "https://x/s.json#/defs/Foo", "file:///s.json", "file://"] {
        assert_eq!(resolve(uri), Ok(uri.to_string()));
        assert_eq!(resolve(&format!("  {uri}\t\n")), Ok(uri.to_string()));
        assert_eq!(schema_path(DOC, uri), Ok(None));
    }
}

#[test]
fn resolving_again_changes_nothing() {
    for raw in [" https://x/s.json ", "s.json#a b", "\u{e9} \u{a0}.json", "/x y#\u{2003}"] {
        let once = resolve(raw).unwrap();
        assert!(once.chars().all(|c| ('!'..='~').contains(&c)));
        assert_eq!(resolve(&once), Ok(once.clone()));
        assert_eq!(try_resolve_schema_uri("untitled:1", &once, None), Some(Ok(once)));
    }
}

#[test]
fn path_is_taken_from_the_directory_of_the_document() {
    assert_eq!(resolve("s.json"), Ok("file:///work/docs/s.json".to_string()));
    assert_eq!(resolve("sub/s.json"), Ok("file:///work/docs/sub/s.json".to_string()));
    assert_eq!(schema_path(DOC, "sub/s.json"), Ok(Some(PathBuf::from("/work/docs/sub/s.json"))));
    assert_eq!(schema_path(DOC, "./s.json"), Ok(Some(PathBuf::from("/work/docs/./s.json"))));
}

#[test]
fn absolute_path_is_taken_as_it_is() {
    assert_eq!(resolve("/schemas/s.json"), Ok("file:///schemas/s.json".to_string()));
    assert_eq!(schema_path(DOC, "/schemas/s.json"), Ok(Some(PathBuf::from("/schemas/s.json"))));
}

#[test]
fn canonical_path_goes_first() {
    assert_eq!(
        resolve_schema_uri(DOC, "../s.json#/a", Some(PathBuf::from("/work/s.json"))),
        Ok("file:///work/s.json#/a".to_string())
    );
}

#[test]
fn fragment_is_kept() {
    assert_eq!(resolve("s.json#/defs/Foo"), Ok("file:///work/docs/s.json#/defs/Foo".to_string()));
    assert_eq!(resolve("s.json#"), Ok("file:///work/docs/s.json#".to_string()));
    assert_eq!(resolve("s.json#a#b"), Ok("file:///work/docs/s.json#a#b".to_string()));
    assert_eq!(resolve("s.json#a b"), Ok("file:///work/docs/s.json#a%20b".to_string()));
    assert_eq!(schema_path(DOC, "s.json#x"), Ok(Some(PathBuf::from("/work/docs/s.json"))));
}

#[test]
fn parts_of_references() {
    assert_eq!(split_reference(" \t"), None);
    assert_eq!(split_reference(" http://x "), Some(SchemaReference::Uri("http://x".to_string())));
    assert_eq!(
        split_reference("a#b#c"),
        Some(SchemaReference::Local("a".to_string(), Some("b#c".to_string())))
    );
    assert_eq!(split_reference("a"), Some(SchemaReference::Local("a".to_string(), None)));
    assert_eq!(
        split_reference("#x"),
        Some(SchemaReference::Local("".to_string(), Some("x".to_string())))
    );
    assert_eq!(
        split_reference("HTTP://x"),
        Some(SchemaReference::Local("HTTP://x".to_string(), None))
    );
}

#[test]
fn blank_reference_is_an_error() {
    assert_eq!(resolve(""), Err(ResolveError::Empty));
    assert_eq!(resolve(" \n "), Err(ResolveError::Empty));
    assert_eq!(schema_path(DOC, ""), Err(ResolveError::Empty));
    assert_eq!(ResolveError::Empty.message(), "empty $schema");
}

#[test]
fn document_that_is_no_file() {
    let error = try_resolve_schema_uri("untitled:1", "s.json", None).unwrap().unwrap_err();
    assert_eq!(error, ResolveError::NotAFile("untitled:1".to_string()));
    assert_eq!(error.message(), "instance is not a file:// URI: untitled:1");
    assert_eq!(
        try_resolve_schema_uri("untitled:1", "http://x", None),
        Some(Ok("http://x".to_string()))
    );
}

#[test]
fn document_without_a_directory() {
    let error = try_resolve_schema_uri("file:///", "s.json", None).unwrap().unwrap_err();
    assert_eq!(error, ResolveError::NoParent("\"/\"".to_string()));
    assert_eq!(error.message(), "instance has no parent dir: \"/\"");
}

#[test]
fn path_without_a_url() {
    let relative = Some(PathBuf::from("relative"));
    let error = try_resolve_schema_uri(DOC, "s.json", relative).unwrap().unwrap_err();
    assert_eq!(error, ResolveError::NotConvertible("\"relative\"".to_string()));
    assert_eq!(error.message(), "failed to convert to file:// URL: \"relative\"");
}

#[test]
fn watched_files() {
    assert_eq!(watched_file("file:///work/s.json#/a"), Some(PathBuf::from("/work/s.json")));
    assert_eq!(watched_file("file:///a%20b"), Some(PathBuf::from("/a b")));
    assert_eq!(watched_file("https://x/s.json"), None);
    assert_eq!(watched_file("no url"), None);
    assert_eq!(watched_file("file://host/s.json"), None);
}

#[test]
fn routes_to_schemas() {
    assert_eq!(retrieval_of("http://x/s"), Ok(Retrieval::Http));
    assert_eq!(retrieval_of("HTTPS://x/s"), Ok(Retrieval::Http));
    assert_eq!(retrieval_of("file:///a/s"), Ok(Retrieval::File(PathBuf::from("/a/s"))));
    assert_eq!(
        retrieval_of("ftp://x/s"),
        Err("unsupported schema URI scheme: ftp (ftp://x/s)".to_string())
    );
    assert_eq!(
        retrieval_of("s.json"),
        Err("invalid schema URI: s.json: relative URL without a base".to_string())
    );
    assert_eq!(
        retrieval_of("file://host/s"),
        Err("failed to retrieve file://host/s: not a valid file:// URL: file://host/s".to_string())
    );
}

#[test]
fn routes_from_given_parts() {
    let parts = |scheme: &str| UrlParts {
        text: "u:x".to_string(),
        scheme: scheme.to_string(),
        path: "x".to_string(),
    };
    assert_eq!(choose_route("u", Ok(parts("https")), None), Ok(Retrieval::Http));
    assert_eq!(
        choose_route("u", Ok(parts("file")), Some(PathBuf::from("/p"))),
        Ok(Retrieval::File(PathBuf::from("/p")))
    );
    assert_eq!(
        choose_route("u", Ok(parts("file")), None),
        Err("failed to retrieve u: not a valid file:// URL: u:x".to_string())
    );
    assert_eq!(
        choose_route("u", Err("bad".to_string()), None),
        Err("invalid schema URI: u: bad".to_string())
    );
    assert_eq!(failed_to_retrieve("u", "gone"), "failed to retrieve u: gone");
}

fn cache(size: usize) -> SchemaCache {
    SchemaCache::new(ServerConfig {
        validate_formats: false,
        max_errors: 100,
        schema_cache_size: size,
    })
}

fn validator() -> Arc<jsonschema::Validator> {
    Arc::new(jsonschema::validator_for(&serde_json::Value::Bool(true)).unwrap())
}

fn is_ready(cache: &SchemaCache, uri: &str, mtime: Option<i128>) -> bool {
    matches!(cache.validator_for_schema_uri(uri, mtime), CacheAnswer::Ready(_))
}

#[test]
fn unknown_schema_is_built_from_a_reference() {
    match cache(2).validator_for_schema_uri("http://x/s", None) {
        CacheAnswer::Build(schema) => assert_eq!(
            schema,
            JsonValue::Object(vec![(
                "$ref".to_string(),
                JsonValue::Text("http://x/s".to_string())
            )])
        ),
        CacheAnswer::Ready(_) => panic!("not stored"),
    }
}

#[test]
fn stored_schema_is_ready_until_its_file_changes() {
    let mut cache = cache(2);
    let stored = validator();
    cache.store_validator("file:///s", Some(5), stored.clone());
    match cache.validator_for_schema_uri("file:///s", Some(5)) {
        CacheAnswer::Ready(found) => assert!(Arc::ptr_eq(&found, &stored)),
        CacheAnswer::Build(_) => panic!("stored"),
    }
    assert!(!is_ready(&cache, "file:///s", Some(6)));
    assert!(!is_ready(&cache, "file:///s", None));
    assert!(!is_ready(&cache, "file:///t", Some(5)));
}

#[test]
fn schema_without_a_file_is_ready_while_there_is_none() {
    let mut cache = cache(2);
    cache.store_validator("http://x", None, validator());
    assert!(is_ready(&cache, "http://x", None));
    assert!(!is_ready(&cache, "http://x", Some(1)));
}

#[test]
fn new_validator_replaces_the_old_one() {
    let mut cache = cache(1);
    cache.store_validator("u", Some(1), validator());
    let second = validator();
    cache.store_validator("u", Some(2), second.clone());
    assert!(!is_ready(&cache, "u", Some(1)));
    match cache.validator_for_schema_uri("u", Some(2)) {
        CacheAnswer::Ready(found) => assert!(Arc::ptr_eq(&found, &second)),
        CacheAnswer::Build(_) => panic!("stored"),
    }
}

#[test]
fn cache_holds_no_more_than_its_size() {
    let mut cache = cache(2);
    for uri in ["a", "b", "c", "d"] {
        cache.store_validator(uri, None, validator());
        assert!(is_ready(&cache, uri, None));
    }
    let kept = ["a", "b", "c", "d"].into_iter().filter(|uri| is_ready(&cache, uri, None)).count();
    assert_eq!(kept, 2);
    assert_eq!(cache.inner.len(), 2);
}

#[test]
fn cache_of_no_size_keeps_nothing() {
    let mut cache = cache(0);
    cache.store_validator("u", None, validator());
    assert!(!is_ready(&cache, "u", None));
    assert_eq!(cache.inner.len(), 0);
}

#[test]
fn changed_schema_replaces_its_entry_alone() {
    let mut cache = cache(2);
    cache.store_validator("a", Some(1), validator());
    cache.store_validator("b", Some(1), validator());
    cache.store_validator("a", Some(2), validator());
    assert!(is_ready(&cache, "a", Some(2)));
    assert!(!is_ready(&cache, "a", Some(1)));
    assert!(is_ready(&cache, "b", Some(1)));
    assert_eq!(cache.inner.len(), 2);
}

#[test]
fn schema_member_of_values() {
    let value = || {
        JsonValue::Object(vec![
            ("a".to_string(), JsonValue::Number(JsonNumber::Unsigned(1))),
            ("$schema".to_string(), JsonValue::Text("s".to_string())),
        ])
    };
    assert_eq!(value().schema_reference(), Some("s".to_string()));
    assert_eq!(
        value().remove_schema(),
        JsonValue::Object(vec![("a".to_string(), JsonValue::Number(JsonNumber::Unsigned(1)))])
    );
    assert_eq!(value().remove_schema().schema_reference(), None);
    let other = JsonValue::Object(vec![("$schema".to_string(), JsonValue::Null)]);
    assert_eq!(other.schema_reference(), None);
    assert_eq!(JsonValue::Text("$schema".to_string()).schema_reference(), None);
    assert_eq!(JsonValue::Array(vec![]).remove_schema(), JsonValue::Array(vec![]));
}
