//! The state of the server: the open documents and the compiled schemas.
use vstd::prelude::*;

use crate::report::{diag, Diagnostic};
use crate::report::{diagnostic_views, error_at, DiagnosticView, Severity};
use crate::schema::{CacheEntry, SchemaCache, ServerConfig};
use crate::table::Table;
use crate::text::concat;
use crate::text_index::Range;
use crate::uri::url_in_text;
use crate::validate::{kind_of_path, kind_of_url};
use crate::validate::{DocKind, StoredDocument};

verus! {

/// What came of validating a document.
#[derive(Debug)]
pub enum Validated {
    /// These diagnostics.
    Done(Vec<Diagnostic>),
    /// An error with this message.
    Failed(String),
    /// The task was lost, and why.
    Lost(String),
}

/// What came of validating a document.
pub ghost enum ValidatedView {
    Done(Seq<DiagnosticView>),
    Failed(Seq<char>),
    Lost(Seq<char>),
}

impl View for Validated {
    type V = ValidatedView;

    open spec fn view(&self) -> ValidatedView {
        match self {
            Validated::Done(diagnostics) => ValidatedView::Done(diagnostic_views(diagnostics@)),
            Validated::Failed(message) => ValidatedView::Failed(message@),
            Validated::Lost(cause) => ValidatedView::Lost(cause@),
        }
    }
}

/// What is said of a document: the diagnostics that were found, or one at its start about what went
/// wrong.
pub open spec fn said(v: ValidatedView) -> Seq<DiagnosticView> {
    match v {
        ValidatedView::Done(diagnostics) => diagnostics,
        ValidatedView::Failed(message) => seq![
            error_at(Range::origin(), "validator failure: "@ + message),
        ],
        ValidatedView::Lost(cause) => seq![
            error_at(Range::origin(), "validator task failed: "@ + cause),
        ],
    }
}

impl Validated {
    /// The diagnostics that say what came of it.
    pub fn into_diagnostics(self) -> (r: Vec<Diagnostic>)
        ensures
            diagnostic_views(r@) == said(self@),
    {
        let message = match self {
            Validated::Done(diagnostics) => {
                return diagnostics;
            },
            Validated::Failed(message) => concat("validator failure: ", message.as_str()),
            Validated::Lost(cause) => concat("validator task failed: ", cause.as_str()),
        };
        let mut out: Vec<Diagnostic> = Vec::new();
        let d = diag(Range::default(), message);
        out.push(d);
        assert(diagnostic_views(out@) =~= seq![d@]);
        out
    }
}

/// The open documents, under their URIs, and the compiled schemas.
#[derive(Debug)]
pub struct Backend {
    pub cache: SchemaCache,
    pub docs: Table<StoredDocument>,
}

/// What is kept of an open document.
pub open spec fn stored(uri: Seq<char>, version: i32, text: String) -> StoredDocument {
    StoredDocument { version, text, kind: kind_of_url(url_in_text(uri)) }
}

/// The text behind the last of the changes, or the empty text where there is none.
pub open spec fn last_text(changes: Seq<String>) -> Seq<char> {
    if changes.len() > 0 {
        changes.last()@
    } else {
        ""@
    }
}

/// The version of an open document, or zero where it is not open.
pub open spec fn version_of(docs: Map<Seq<char>, StoredDocument>, uri: Seq<char>) -> i32 {
    if docs.contains_key(uri) {
        docs[uri].version
    } else {
        0
    }
}

/// Whether what was found in a version of a document no longer holds: there is another version.
pub open spec fn stale(docs: Map<Seq<char>, StoredDocument>, uri: Seq<char>, version: i32) -> bool {
    docs.contains_key(uri) && docs[uri].version != version
}

/// Whether a document is one of those that have a schema.
pub open spec fn has_kind(doc: StoredDocument) -> bool {
    doc.kind == DocKind::Json || doc.kind == DocKind::Yaml
}

impl Backend {
    /// A server without documents and schemas.
    pub fn new(cfg: ServerConfig) -> (r: Backend)
        ensures
            r.cache.cfg == cfg,
            r.cache@ == Map::<Seq<char>, CacheEntry>::empty(),
            r.docs@ == Map::<Seq<char>, StoredDocument>::empty(),
    {
        Backend { cache: SchemaCache::new(cfg), docs: Table::new() }
    }

    /// Keeps the content of a document, in place of any that it had.
    pub fn upsert_doc(&mut self, uri: &str, version: i32, text: String)
        ensures
            final(self).docs@ == old(self).docs@.insert(uri@, stored(uri@, version, text)),
            final(self).cache == old(self).cache,
    {
        let kind = DocKind::from_uri(uri);
        self.docs.insert(uri.to_string(), StoredDocument { version, text, kind });
    }

    /// Forgets a document.
    pub fn remove_doc(&mut self, uri: &str)
        ensures
            final(self).docs@ == old(self).docs@.remove(uri@),
            final(self).cache == old(self).cache,
    {
        self.docs.remove(uri);
    }

    /// A copy of the content of a document, where it is open.
    pub fn get_doc(&self, uri: &str) -> (r: Option<StoredDocument>)
        ensures
            match r {
                Some(doc) => self.docs@.contains_key(uri@) && doc == self.docs@[uri@],
                None => !self.docs@.contains_key(uri@),
            },
    {
        match self.docs.get(uri) {
            Some(doc) => Some(doc.clone()),
            None => None,
        }
    }

    /// A document was opened.
    pub fn did_open(&mut self, uri: &str, version: i32, text: String)
        ensures
            final(self).docs@ == old(self).docs@.insert(uri@, stored(uri@, version, text)),
            final(self).cache == old(self).cache,
    {
        self.upsert_doc(uri, version, text);
    }

    /// A document was changed: the last of the changes holds the whole text, and no change means an
    /// empty text.
    pub fn did_change(&mut self, uri: &str, version: i32, changes: Vec<String>)
        ensures
            final(self).docs@ == old(self).docs@.insert(uri@, final(self).docs@[uri@]),
            final(self).docs@[uri@].version == version,
            final(self).docs@[uri@].text@ == last_text(changes@),
            final(self).docs@[uri@].kind == kind_of_url(url_in_text(uri@)),
            final(self).cache == old(self).cache,
    {
        let mut changes = changes;
        let text = match changes.pop() {
            Some(text) => text,
            None => "".to_string(),
        };
        self.upsert_doc(uri, version, text);
    }

    /// A document was saved: where its text was sent along, it is kept under the version that the
    /// document had, or else zero.
    pub fn did_save(&mut self, uri: &str, text: Option<String>)
        ensures
            final(self).docs@ == match text {
                Some(text) => old(self).docs@.insert(
                    uri@,
                    stored(uri@, version_of(old(self).docs@, uri@), text),
                ),
                None => old(self).docs@,
            },
            final(self).cache == old(self).cache,
    {
        if let Some(text) = text {
            let version: i32 = match self.docs.get(uri) {
                Some(doc) => doc.version,
                None => 0,
            };
            self.upsert_doc(uri, version, text);
        }
    }

    /// A document was closed. What was said of it is taken back: there is nothing to say any more.
    pub fn did_close(&mut self, uri: &str) -> (r: Vec<Diagnostic>)
        ensures
            final(self).docs@ == old(self).docs@.remove(uri@),
            final(self).cache == old(self).cache,
            r@.len() == 0,
    {
        self.remove_doc(uri);
        Vec::new()
    }

    /// Files were changed that may be schemas: the open documents that may have one, each once, are
    /// to be validated again.
    pub fn did_change_watched_files(&self) -> (r: Vec<String>)
        ensures
            forall|i: int|
                0 <= i < r@.len() ==> self.docs@.contains_key((#[trigger] r@[i])@) && has_kind(
                    self.docs@[r@[i]@],
                ),
            forall|i: int, j: int| 0 <= i < j < r@.len() ==> r@[i]@ != r@[j]@,
            forall|uri: Seq<char>| #[trigger]
                self.docs@.contains_key(uri) && has_kind(self.docs@[uri]) ==> exists|i: int|
                    0 <= i < r@.len() && (#[trigger] r@[i])@ == uri,
    {
        let keys = self.docs.keys();
        let mut out: Vec<String> = Vec::new();
        let mut i: usize = 0;
        while i < keys.len()
            invariant
                i <= keys@.len(),
                forall|k: int| 0 <= k < keys@.len() ==> self.docs@.contains_key((#[trigger] keys@[k])@),
                forall|j: int, k: int| 0 <= j < k < keys@.len() ==> keys@[j]@ != keys@[k]@,
                forall|k: int|
                    0 <= k < out@.len() ==> self.docs@.contains_key((#[trigger] out@[k])@)
                        && has_kind(self.docs@[out@[k]@]),
                forall|k: int|
                    0 <= k < out@.len() ==> exists|j: int|
                        0 <= j < i && (#[trigger] keys@[j])@ == (#[trigger] out@[k])@,
                forall|j: int, k: int| 0 <= j < k < out@.len() ==> out@[j]@ != out@[k]@,
                forall|j: int|
                    0 <= j < i && has_kind(self.docs@[(#[trigger] keys@[j])@]) ==> exists|k: int|
                        0 <= k < out@.len() && (#[trigger] out@[k])@ == keys@[j]@,
            decreases keys@.len() - i,
        {
            let uri = &keys[i];
            let wanted = match self.docs.get(uri.as_str()) {
                Some(doc) => doc.kind == DocKind::Json || doc.kind == DocKind::Yaml,
                None => false,
            };
            let ghost before = out@;
            if wanted {
                out.push(uri.clone());
                proof {
                    assert(out@[before.len() as int]@ == keys@[i as int]@);
                    assert forall|j: int|
                        0 <= j < i + 1 && has_kind(self.docs@[(#[trigger] keys@[j])@]) implies exists|
                        k: int,
                    |
                        0 <= k < out@.len() && (#[trigger] out@[k])@ == keys@[j]@ by {
                        if j < i {
                            let k = choose|k: int|
                                0 <= k < before.len() && (#[trigger] before[k])@ == keys@[j]@;
                            assert(out@[k] == before[k]);
                        }
                    }
                }
            }
            i = i + 1;
        }
        proof {
            assert forall|uri: Seq<char>| #[trigger]
                self.docs@.contains_key(uri) && has_kind(self.docs@[uri]) implies exists|i: int|
                0 <= i < out@.len() && (#[trigger] out@[i])@ == uri by {
                let j = choose|j: int| 0 <= j < keys@.len() && (#[trigger] keys@[j])@ == uri;
                assert(has_kind(self.docs@[keys@[j]@]));
            }
        }
        out
    }

    /// What to publish about a document, given what came of validating a version of it: nothing
    /// where there is another version by now.
    pub fn publication(&self, uri: &str, version: i32, validated: Validated) -> (r: Option<
        Vec<Diagnostic>,
    >)
        ensures
            match r {
                Some(diagnostics) => !stale(self.docs@, uri@, version) && diagnostic_views(
                    diagnostics@,
                ) == said(validated@),
                None => stale(self.docs@, uri@, version),
            },
    {
        if let Some(current) = self.docs.get(uri) {
            if current.version != version {
                return None;
            }
        }
        Some(validated.into_diagnostics())
    }
}

/// Closing a document right after it was opened leaves the documents as they were.
pub proof fn closing_undoes_opening(
    docs: Map<Seq<char>, StoredDocument>,
    uri: Seq<char>,
    version: i32,
    text: String,
)
    requires
        !docs.contains_key(uri),
    ensures
        docs.insert(uri, stored(uri, version, text)).remove(uri) == docs,
{
    assert(docs.insert(uri, stored(uri, version, text)).remove(uri) =~= docs);
}

/// What was found in one version of a document is not published once another one is there.
pub proof fn newer_version_makes_results_stale(
    docs: Map<Seq<char>, StoredDocument>,
    uri: Seq<char>,
    version: i32,
    newer: i32,
    text: String,
)
    requires
        newer != version,
    ensures
        stale(docs.insert(uri, stored(uri, newer, text)), uri, version),
        !stale(docs.insert(uri, stored(uri, newer, text)), uri, newer),
{
}

/// Saving an open document keeps its version, so that what holds of a result still does.
pub proof fn saving_keeps_version(
    docs: Map<Seq<char>, StoredDocument>,
    uri: Seq<char>,
    text: String,
    version: i32,
)
    requires
        docs.contains_key(uri),
    ensures
        ({
            let saved = docs.insert(uri, stored(uri, version_of(docs, uri), text));
            version_of(saved, uri) == version_of(docs, uri) && stale(saved, uri, version) == stale(
                docs,
                uri,
                version,
            )
        }),
{
}

/// What happens to one document makes no result about another one stale.
pub proof fn documents_are_independent(
    docs: Map<Seq<char>, StoredDocument>,
    uri: Seq<char>,
    doc: StoredDocument,
    other: Seq<char>,
    version: i32,
)
    requires
        other != uri,
    ensures
        stale(docs.insert(uri, doc), other, version) == stale(docs, other, version),
        stale(docs.remove(uri), other, version) == stale(docs, other, version),
{
}

/// What is said of a document is every diagnostic that was found, in order and no other.
pub proof fn all_that_was_found_is_said(found: Seq<DiagnosticView>)
    ensures
        said(ValidatedView::Done(found)).len() == found.len(),
        forall|i: int|
            0 <= i < found.len() ==> #[trigger] said(ValidatedView::Done(found))[i] == found[i],
{
}

/// Of a document that could not be validated, one error at its start says why, with the whole cause.
pub proof fn failures_are_said_with_their_cause(cause: Seq<char>)
    ensures
        ({
            let failed = said(ValidatedView::Failed(cause));
            let lost = said(ValidatedView::Lost(cause));
            &&& failed.len() == 1 && lost.len() == 1
            &&& failed[0].message == "validator failure: "@ + cause
            &&& lost[0].message == "validator task failed: "@ + cause
            &&& failed[0].range == Range::origin() && lost[0].range == Range::origin()
            &&& failed[0].severity == Severity::Error && lost[0].severity == Severity::Error
            &&& failed[0].source == "cgpt-jsonschema-lsp"@
            &&& lost[0].source == "cgpt-jsonschema-lsp"@
        }),
{
}

/// What came of validating is what it holds.
pub proof fn results_are_what_they_hold(ds: Vec<Diagnostic>, s: String, i: int)
    ensures
        Validated::Done(ds)@ matches ValidatedView::Done(all) && all.len() == ds@.len() && (0 <= i
            < ds@.len() ==> all[i] == ds@[i]@),
        Validated::Failed(s)@ == ValidatedView::Failed(s@),
        Validated::Lost(s)@ == ValidatedView::Lost(s@),
{
}

/// What is kept of a document is the version and the text that came with it, and its kind is that of
/// the path of its URI, where that is a URL.
pub proof fn document_is_kept_as_it_came(uri: Seq<char>, version: i32, text: String)
    ensures
        stored(uri, version, text).version == version,
        stored(uri, version, text).text == text,
        url_in_text(uri) matches Ok(url) ==> stored(uri, version, text).kind == kind_of_path(
            url.path,
        ),
        url_in_text(uri) is Err ==> stored(uri, version, text).kind == DocKind::Other,
{
}

/// The text of a changed document is that of the last change, whatever came before it.
pub proof fn last_change_decides(changes: Seq<String>, last: String)
    ensures
        last_text(changes.push(last)) == last@,
        last_text(Seq::empty()).len() == 0,
{
    reveal_strlit("");
}

/// The version of a document that is not open is zero, and that of one that is open is its own. What
/// was found in a version is stale exactly where the document is open in another one.
pub proof fn only_another_version_makes_results_stale(
    docs: Map<Seq<char>, StoredDocument>,
    uri: Seq<char>,
    doc: StoredDocument,
    version: i32,
)
    ensures
        version_of(docs.insert(uri, doc), uri) == doc.version,
        version_of(docs.remove(uri), uri) == 0,
        stale(docs.insert(uri, doc), uri, version) <==> doc.version != version,
        !stale(docs.remove(uri), uri, version),
{
}

/// Every JSON document and every YAML document is one of those that may have a schema, and no other
/// is.
pub proof fn json_and_yaml_may_have_schemas(doc: StoredDocument)
    ensures
        doc.kind == DocKind::Json ==> has_kind(doc),
        doc.kind == DocKind::Yaml ==> has_kind(doc),
        doc.kind == DocKind::Other ==> !has_kind(doc),
{
}

} // verus!
