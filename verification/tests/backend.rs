use jylsp::backend::{Backend, Validated};
use jylsp::report::diag;
use jylsp::schema::ServerConfig;
use jylsp::text_index::Range;
use jylsp::validate::DocKind;

const A: &str = "file:///d/a.json";
const B: &str = "file:///d/b.yml";
const C: &str = "file:///d/c.txt";

fn backend() -> Backend {
    Backend::new(ServerConfig { validate_formats: true, max_errors: 7, schema_cache_size: 3 })
}

#[test]
fn new_server_is_empty() {
    let server = backend();
    assert!(server.get_doc(A).is_none());
    assert_eq!(server.cache.cfg.max_errors, 7);
    assert_eq!(server.cache.inner.len(), 0);
    assert!(server.did_change_watched_files().is_empty());
}

#[test]
fn opened_document_is_kept() {
    let mut server = backend();
    server.did_open(A, 3, "{}".to_string());
    let doc = server.get_doc(A).unwrap();
    assert_eq!(doc.version, 3);
    assert_eq!(doc.text, "{}");
    assert_eq!(doc.kind, DocKind::Json);
    assert!(server.get_doc(B).is_none());
}

#[test]
fn last_change_holds_the_text() {
    let mut server = backend();
    server.did_open(A, 1, "one".to_string());
    server.did_change(A, 2, vec!["two".to_string(), "three".to_string()]);
    let doc = server.get_doc(A).unwrap();
    assert_eq!((doc.version, doc.text.as_str()), (2, "three"));
    server.did_change(A, 3, vec![]);
    let doc = server.get_doc(A).unwrap();
    assert_eq!((doc.version, doc.text.as_str()), (3, ""));
}

#[test]
fn saved_text_keeps_the_version() {
    let mut server = backend();
    server.did_open(A, 5, "one".to_string());
    server.did_save(A, Some("two".to_string()));
    let doc = server.get_doc(A).unwrap();
    assert_eq!((doc.version, doc.text.as_str()), (5, "two"));
    server.did_save(A, None);
    assert_eq!(server.get_doc(A).unwrap().text, "two");
}

#[test]
fn saved_text_of_an_unknown_document_has_version_zero() {
    let mut server = backend();
    server.did_save(B, None);
    assert!(server.get_doc(B).is_none());
    server.did_save(B, Some("x".to_string()));
    let doc = server.get_doc(B).unwrap();
    assert_eq!((doc.version, doc.text.as_str(), doc.kind), (0, "x", DocKind::Yaml));
}

#[test]
fn closed_document_is_forgotten() {
    let mut server = backend();
    server.did_open(A, 1, "one".to_string());
    server.did_open(B, 1, "two".to_string());
    assert!(server.did_close(A).is_empty());
    assert!(server.get_doc(A).is_none());
    assert_eq!(server.get_doc(B).unwrap().text, "two");
    assert!(server.did_close(A).is_empty());
}

#[test]
fn documents_with_a_kind_are_validated_again() {
    let mut server = backend();
    for uri in [A, B, C] {
        server.did_open(uri, 1, String::new());
    }
    let mut uris = server.did_change_watched_files();
    uris.sort();
    assert_eq!(uris, vec![A, B]);
    server.did_close(A);
    assert_eq!(server.did_change_watched_files(), vec![B]);
}

#[test]
fn results_of_the_current_version_are_published() {
    let mut server = backend();
    server.did_open(A, 1, String::new());
    let found = vec![diag(Range::default(), "m".to_string())];
    assert_eq!(
        server.publication(A, 1, Validated::Done(found)),
        Some(vec![diag(Range::default(), "m".to_string())])
    );
}

#[test]
fn stale_results_are_not_published() {
    let mut server = backend();
    server.did_open(A, 1, String::new());
    server.did_change(A, 2, vec!["x".to_string()]);
    assert!(server.publication(A, 1, Validated::Done(vec![])).is_none());
    assert!(server.publication(A, 1, Validated::Failed("e".to_string())).is_none());
    assert!(server.publication(A, 2, Validated::Done(vec![])).is_some());
    server.did_save(A, Some("y".to_string()));
    assert!(server.publication(A, 2, Validated::Done(vec![])).is_some());
}

#[test]
fn results_of_a_closed_document_are_published() {
    let server = backend();
    assert_eq!(server.publication(A, 1, Validated::Done(vec![])), Some(vec![]));
}

#[test]
fn failures_are_said_at_the_start() {
    let server = backend();
    assert_eq!(
        server.publication(A, 1, Validated::Failed("e".to_string())),
        Some(vec![diag(Range::default(), "validator failure: e".to_string())])
    );
    assert_eq!(
        server.publication(A, 1, Validated::Lost("panic".to_string())),
        Some(vec![diag(Range::default(), "validator task failed: panic".to_string())])
    );
}
