//! Which documents are validated, against which schema, and what comes of it.
use vstd::prelude::*;

use crate::json::{
    json_in_text, schema_of, validated_value_has_no_schema, without_schema, JsonView,
};
use crate::json::{parse_json_text, JsonValue};
use crate::json_tree::{json_syntax, nested, syntax_view, JsonSyntaxErrorView, NodeView};
use crate::json_tree::{parse_json_syntax, JsonNode, JsonSyntaxError};
use crate::report::{
    can_find, diagnostic_views, error_at, error_views, json_report,
    reports_differ_in_ranges_alone, yaml_report, DiagnosticView, SchemaErrorView, Severity,
};
use crate::report::{diag, report_json, report_yaml, schema_errors, Diagnostic, SchemaError};
use crate::text::{
    chars_of, concat, ends_with, part_of, split_at_char, split_words, starts_with, string_of,
    to_ascii_lower, trim_start,
};
use crate::text::{
    find_first, has_prefix, has_suffix, lemma_find_first, lemma_word_len, lowered, split, texts,
    trimmed_start, trimming_start_drops_white_space_alone, white_space, word_len, words,
};
use crate::text_index::{lemma_low_bits, range_of};
use crate::text_index::{Position, Range, TextIndex};
use crate::uri::parse_url;
use crate::uri::{url_in_text, UrlView};
use crate::yaml_json::{
    convert_message, lemma_sequence_view, yaml_in_text, yaml_json, yaml_views,
    ConvertErrorView, YamlSyntaxErrorView, YamlView,
};
use crate::yaml_json::{
    parse_yaml_text, yaml_to_json_value, ConvertError, YamlSyntaxError, YamlValue,
};

verus! {

/// How a document is read.
#[derive(Debug, Clone, Copy, PartialEq, Eq, Structural)]
pub enum DocKind {
    Json,
    Yaml,
    Other,
}

/// The kind of a document by the extension of its path, upper case or lower.
pub open spec fn kind_of_path(path: Seq<char>) -> DocKind {
    if has_suffix(lowered(path), ".json"@) {
        DocKind::Json
    } else if has_suffix(lowered(path), ".yml"@) || has_suffix(lowered(path), ".yaml"@) {
        DocKind::Yaml
    } else {
        DocKind::Other
    }
}

/// The kind of a document by its URI: by the path of that, or none where it is no URL.
pub open spec fn kind_of_url(url: Result<UrlView, Seq<char>>) -> DocKind {
    match url {
        Ok(url) => kind_of_path(url.path),
        Err(_) => DocKind::Other,
    }
}

impl DocKind {
    /// The kind of a document by the path of its URI.
    pub fn from_path(path: &str) -> (r: DocKind)
        ensures
            r == kind_of_path(path@),
    {
        let low = to_ascii_lower(&chars_of(path));
        if ends_with(&low, ".json") {
            DocKind::Json
        } else if ends_with(&low, ".yml") || ends_with(&low, ".yaml") {
            DocKind::Yaml
        } else {
            DocKind::Other
        }
    }

    /// The kind of a document by its URI.
    pub fn from_uri(uri: &str) -> (r: DocKind)
        ensures
            r == kind_of_url(url_in_text(uri@)),
    {
        match parse_url(uri) {
            Ok(url) => DocKind::from_path(url.path.as_str()),
            Err(_) => DocKind::Other,
        }
    }
}

/// The content of an open document.
#[derive(Debug)]
pub struct StoredDocument {
    pub version: i32,
    pub text: String,
    pub kind: DocKind,
}

impl Clone for StoredDocument {
    fn clone(&self) -> (r: StoredDocument)
        ensures
            r == *self,
    {
        StoredDocument { version: self.version, text: self.text.clone(), kind: self.kind }
    }
}

/// The text without the number signs that it starts with.
pub open spec fn without_hashes(s: Seq<char>) -> Seq<char>
    decreases s.len(),
{
    if s.len() > 0 && s[0] == '#' {
        without_hashes(s.drop_first())
    } else {
        s
    }
}

/// What the first word of the form `$schema=...` names, where it names anything.
pub open spec fn schema_word(words: Seq<Seq<char>>) -> Option<Seq<char>>
    decreases words.len(),
{
    if words.len() == 0 {
        None
    } else if has_prefix(words[0], "$schema="@) && words[0].len() > "$schema="@.len() {
        Some(words[0].skip("$schema="@.len() as int))
    } else {
        schema_word(words.drop_first())
    }
}

/// The schema that a line names, where it is a comment with the directive
/// `yaml-language-server:` and a word `$schema=...` behind that.
pub open spec fn line_directive(line: Seq<char>) -> Option<Seq<char>> {
    let t = trimmed_start(line);
    let comment = trimmed_start(without_hashes(t));
    if t.len() > 0 && t[0] == '#' && has_prefix(comment, "yaml-language-server:"@) {
        schema_word(words(comment.skip("yaml-language-server:"@.len() as int)))
    } else {
        None
    }
}

/// The schema that the first line with such a directive names.
pub open spec fn first_directive(lines: Seq<Seq<char>>) -> Option<Seq<char>>
    decreases lines.len(),
{
    if lines.len() == 0 {
        None
    } else if line_directive(lines[0]) is Some {
        line_directive(lines[0])
    } else {
        first_directive(lines.drop_first())
    }
}

/// What an optional text is.
pub open spec fn text_view(s: Option<String>) -> Option<Seq<char>> {
    match s {
        Some(s) => Some(s@),
        None => None,
    }
}

/// The text without the number signs that it starts with.
fn strip_hashes(chars: &Vec<char>) -> (r: Vec<char>)
    ensures
        r@ == without_hashes(chars@),
{
    let mut i: usize = 0;
    assert(chars@.skip(0) =~= chars@);
    while i < chars.len() && chars[i] == '#'
        invariant
            i <= chars@.len(),
            without_hashes(chars@) == without_hashes(chars@.skip(i as int)),
        decreases chars@.len() - i,
    {
        assert(chars@.skip(i as int).drop_first() =~= chars@.skip(i + 1));
        i = i + 1;
    }
    assert(chars@.subrange(i as int, chars@.len() as int) =~= chars@.skip(i as int));
    part_of(chars, i, chars.len())
}

/// What the first word of the form `$schema=...` names.
fn find_schema_word(parts: &Vec<Vec<char>>) -> (r: Option<String>)
    ensures
        text_view(r) == schema_word(texts(parts@)),
{
    let ghost all = texts(parts@);
    let skip: usize = chars_of("$schema=").len();
    let mut i: usize = 0;
    assert(all.skip(0) =~= all);
    while i < parts.len()
        invariant
            i <= parts@.len(),
            all == texts(parts@),
            skip == "$schema="@.len(),
            schema_word(all) == schema_word(all.skip(i as int)),
        decreases parts@.len() - i,
    {
        assert(all.skip(i as int)[0] == parts@[i as int]@);
        assert(all.skip(i as int).drop_first() =~= all.skip(i + 1));
        let word = &parts[i];
        if starts_with(word, "$schema=") && word.len() > skip {
            assert(word@.subrange(skip as int, word@.len() as int) =~= word@.skip(skip as int));
            return Some(string_of(&part_of(word, skip, word.len())));
        }
        i = i + 1;
    }
    None
}

/// The schema that a line names by a directive.
fn find_line_directive(line: &Vec<char>) -> (r: Option<String>)
    ensures
        text_view(r) == line_directive(line@),
{
    let trimmed = trim_start(line);
    if trimmed.len() == 0 || trimmed[0] != '#' {
        return None;
    }
    let comment = trim_start(&strip_hashes(&trimmed));
    if !starts_with(&comment, "yaml-language-server:") {
        return None;
    }
    let skip: usize = chars_of("yaml-language-server:").len();
    assert(comment@.subrange(skip as int, comment@.len() as int) =~= comment@.skip(skip as int));
    find_schema_word(&split_words(&part_of(&comment, skip, comment.len())))
}

/// The schema that a YAML text names by a comment, such as
/// `# yaml-language-server: $schema=./schema.json`.
pub fn find_yaml_schema_comment(text: &str) -> (r: Option<String>)
    ensures
        text_view(r) == first_directive(split(text@, '\n')),
{
    let lines = split_at_char(&chars_of(text), '\n');
    let ghost all = texts(lines@);
    let mut i: usize = 0;
    assert(all.skip(0) =~= all);
    while i < lines.len()
        invariant
            i <= lines@.len(),
            all == texts(lines@),
            all == split(text@, '\n'),
            first_directive(all) == first_directive(all.skip(i as int)),
        decreases lines@.len() - i,
    {
        assert(all.skip(i as int)[0] == lines@[i as int]@);
        assert(all.skip(i as int).drop_first() =~= all.skip(i + 1));
        if let Some(schema) = find_line_directive(&lines[i]) {
            return Some(schema);
        }
        i = i + 1;
    }
    None
}

/// What is needed to place the schema errors of a JSON document.
#[derive(Debug)]
pub struct JsonSource {
    pub index: TextIndex,
    pub root: JsonNode,
}

/// A document that is to be validated: what its schema is, the value to validate, and for a JSON
/// document where to place the errors.
#[derive(Debug)]
pub struct PendingValidation {
    pub schema: String,
    pub instance: JsonValue,
    pub source: Option<JsonSource>,
}

/// What can be said of a document without its schema.
#[derive(Debug)]
pub enum Outcome {
    /// All there is to say.
    Finished(Vec<Diagnostic>),
    /// That it names a schema.
    Pending(PendingValidation),
}

/// Why a document cannot be validated.
#[derive(Debug)]
pub enum ValidateError {
    /// The JSON text of the document with this URI could not be read, and why.
    ParseJson(String, String),
    /// The YAML value has no JSON value.
    Convert(ConvertError),
}

/// What a document that is to be validated holds. The source is the text and its syntax tree.
pub ghost struct PendingView {
    pub schema: Seq<char>,
    pub instance: JsonView,
    pub source: Option<(Seq<char>, NodeView)>,
}

/// What can be said of a document without its schema.
pub ghost enum OutcomeView {
    Finished(Seq<DiagnosticView>),
    Pending(PendingView),
}

/// What keeps a document from being validated.
pub ghost enum ValidateErrorView {
    ParseJson(Seq<char>, Seq<char>),
    Convert(ConvertErrorView),
}

impl View for JsonSource {
    type V = (Seq<char>, NodeView);

    open spec fn view(&self) -> (Seq<char>, NodeView) {
        (self.index.text(), self.root@)
    }
}

impl View for PendingValidation {
    type V = PendingView;

    open spec fn view(&self) -> PendingView {
        PendingView {
            schema: self.schema@,
            instance: self.instance@,
            source: match self.source {
                Some(source) => Some(source@),
                None => None,
            },
        }
    }
}

impl View for Outcome {
    type V = OutcomeView;

    open spec fn view(&self) -> OutcomeView {
        match self {
            Outcome::Finished(diagnostics) => OutcomeView::Finished(
                diagnostic_views(diagnostics@),
            ),
            Outcome::Pending(pending) => OutcomeView::Pending(pending@),
        }
    }
}

impl View for ValidateError {
    type V = ValidateErrorView;

    open spec fn view(&self) -> ValidateErrorView {
        match self {
            ValidateError::ParseJson(uri, cause) => ValidateErrorView::ParseJson(uri@, cause@),
            ValidateError::Convert(e) => ValidateErrorView::Convert(e@),
        }
    }
}

/// What a first look at a document came to.
pub open spec fn outcome_view(r: Result<Outcome, ValidateError>) -> Result<
    OutcomeView,
    ValidateErrorView,
> {
    match r {
        Ok(outcome) => Ok(outcome@),
        Err(e) => Err(e@),
    }
}

/// The message of a document that cannot be validated.
pub open spec fn validate_message(e: ValidateErrorView) -> Seq<char> {
    match e {
        ValidateErrorView::ParseJson(uri, cause) => "parse JSON for validation: "@ + uri + ": "@
            + cause,
        ValidateErrorView::Convert(e) => convert_message(e),
    }
}

impl ValidateError {
    /// The message of the error.
    pub fn message(&self) -> (r: String)
        ensures
            r@ == validate_message(self@),
    {
        match self {
            ValidateError::ParseJson(uri, cause) => {
                let head = concat("parse JSON for validation: ", uri.as_str());
                concat(concat(head.as_str(), ": ").as_str(), cause.as_str())
            },
            ValidateError::Convert(e) => e.message(),
        }
    }
}

/// The one diagnostic of a text that is no JSON, or holds no value; else its syntax tree.
pub open spec fn source_in(
    text: Seq<char>,
    syntax: Result<Option<NodeView>, JsonSyntaxErrorView>,
) -> Result<NodeView, DiagnosticView> {
    match syntax {
        Err(e) => Err(
            error_at(
                range_of(text, e.span.0 as int, e.span.1 as int),
                "JSON parse error: "@ + e.message,
            ),
        ),
        Ok(None) => Err(error_at(Range::origin(), "Empty JSON document"@)),
        Ok(Some(root)) => Ok(root),
    }
}

/// What a JSON document with a syntax tree comes to, given the value that it holds: an error where
/// there is none, nothing to say where it names no schema, and else its validation, without the
/// member `$schema`, which is not part of the instance.
pub open spec fn json_plan(
    uri: Seq<char>,
    text: Seq<char>,
    root: NodeView,
    value: Result<JsonView, Seq<char>>,
) -> Result<OutcomeView, ValidateErrorView> {
    match value {
        Err(cause) => Err(ValidateErrorView::ParseJson(uri, cause)),
        Ok(json) => match schema_of(json) {
            None => Ok(OutcomeView::Finished(seq![])),
            Some(schema) => Ok(
                OutcomeView::Pending(
                    PendingView {
                        schema,
                        instance: without_schema(json),
                        source: Some((text, root)),
                    },
                ),
            ),
        },
    }
}

/// What a JSON document comes to, given its syntax and the value that it holds.
pub open spec fn json_outcome(
    uri: Seq<char>,
    text: Seq<char>,
    syntax: Result<Option<NodeView>, JsonSyntaxErrorView>,
    value: Result<JsonView, Seq<char>>,
) -> Result<OutcomeView, ValidateErrorView> {
    match source_in(text, syntax) {
        Err(d) => Ok(OutcomeView::Finished(seq![d])),
        Ok(root) => json_plan(uri, text, root, value),
    }
}

/// The place of a syntax error in a YAML text: its line and column count from one.
pub open spec fn yaml_error_range(location: Option<(usize, usize)>) -> Range {
    match location {
        Some((line, column)) => {
            let at = Position {
                line: (if line > 0 {
                    line - 1
                } else {
                    0
                }) as u32,
                character: (if column > 0 {
                    column - 1
                } else {
                    0
                }) as u32,
            };
            Range { start: at, end: at }
        },
        None => Range::origin(),
    }
}

/// The documents of a YAML text as one value: null where there is none, the only one as it is, and
/// several as a sequence.
pub open spec fn combined(docs: Seq<YamlView>) -> YamlView {
    if docs.len() == 0 {
        YamlView::Null
    } else if docs.len() == 1 {
        docs[0]
    } else {
        YamlView::Sequence(docs)
    }
}

/// The documents of a YAML text as one value, where it could be read.
pub open spec fn combined_in(docs: Result<Seq<YamlView>, YamlSyntaxErrorView>) -> Result<
    YamlView,
    YamlSyntaxErrorView,
> {
    match docs {
        Ok(docs) => Ok(combined(docs)),
        Err(e) => Err(e),
    }
}

/// What a YAML document comes to, given the value that it holds: one diagnostic where it is no
/// YAML, an error where that value has no JSON value, nothing to say where it names no schema, and
/// else its validation, without the member `$schema`. A comment names the schema before that
/// member does.
pub open spec fn yaml_outcome(
    text: Seq<char>,
    value: Result<YamlView, YamlSyntaxErrorView>,
) -> Result<OutcomeView, ValidateErrorView> {
    match value {
        Err(e) => Ok(
            OutcomeView::Finished(
                seq![error_at(yaml_error_range(e.location), "YAML parse error: "@ + e.message)],
            ),
        ),
        Ok(yaml) => match yaml_json(yaml) {
            Err(e) => Err(ValidateErrorView::Convert(e)),
            Ok(json) => {
                let comment = first_directive(split(text, '\n'));
                let schema = if comment is Some {
                    comment
                } else {
                    schema_of(json)
                };
                match schema {
                    None => Ok(OutcomeView::Finished(seq![])),
                    Some(schema) => Ok(
                        OutcomeView::Pending(
                            PendingView { schema, instance: without_schema(json), source: None },
                        ),
                    ),
                }
            },
        },
    }
}

/// The outcome that says one thing.
fn finished_with(d: Diagnostic) -> (r: Outcome)
    ensures
        r@ == OutcomeView::Finished(seq![d@]),
{
    let mut out: Vec<Diagnostic> = Vec::new();
    out.push(d);
    assert(diagnostic_views(out@) =~= seq![d@]);
    Outcome::Finished(out)
}

/// The outcome that says nothing.
fn nothing_to_say() -> (r: Outcome)
    ensures
        r@ == OutcomeView::Finished(seq![]),
{
    let out: Vec<Diagnostic> = Vec::new();
    assert(diagnostic_views(out@) =~= seq![]);
    Outcome::Finished(out)
}

/// The source of a JSON document, or the one diagnostic of a text that has none.
pub fn json_source(text: &str, syntax: Result<Option<JsonNode>, JsonSyntaxError>) -> (r: Result<
    JsonSource,
    Diagnostic,
>)
    ensures
        match r {
            Ok(source) => source@.0 == text@ && source_in(text@, syntax_view(syntax)) == Ok::<
                NodeView,
                DiagnosticView,
            >(source@.1),
            Err(d) => source_in(text@, syntax_view(syntax)) == Err::<NodeView, DiagnosticView>(d@),
        },
{
    let index = TextIndex::new(text);
    match syntax {
        Err(e) => {
            let range = index.range_from_bytes(e.span.0, e.span.1);
            Err(diag(range, concat("JSON parse error: ", e.message.as_str())))
        },
        Ok(None) => Err(diag(Range::default(), "Empty JSON document".to_string())),
        Ok(Some(root)) => Ok(JsonSource { index, root }),
    }
}

/// What a JSON document comes to, given its source and the value that it holds.
pub fn plan_json(uri: &str, source: JsonSource, value: Result<JsonValue, String>) -> (r: Result<
    Outcome,
    ValidateError,
>)
    ensures
        outcome_view(r) == json_plan(
            uri@,
            source@.0,
            source@.1,
            match value {
                Ok(json) => Ok(json@),
                Err(cause) => Err(cause@),
            },
        ),
{
    match value {
        Err(cause) => Err(ValidateError::ParseJson(uri.to_string(), cause)),
        Ok(json) => match json.schema_reference() {
            None => Ok(nothing_to_say()),
            Some(schema) => Ok(
                Outcome::Pending(
                    PendingValidation {
                        schema,
                        instance: json.remove_schema(),
                        source: Some(source),
                    },
                ),
            ),
        },
    }
}

/// Whether what a document comes to, where it is to be validated, places the errors in a syntax tree
/// whose nodes lie in their parents.
pub open spec fn places_in_nested_tree(outcome: Result<OutcomeView, ValidateErrorView>) -> bool {
    outcome matches Ok(OutcomeView::Pending(pending)) ==> (pending.source matches Some((_, root))
        ==> nested(root))
}

/// What a JSON document comes to before its schema is known.
pub fn validate_json(uri: &str, text: &str) -> (r: Result<Outcome, ValidateError>)
    ensures
        outcome_view(r) == json_outcome(uri@, text@, json_syntax(text@), json_in_text(text@)),
        places_in_nested_tree(outcome_view(r)),
{
    match json_source(text, parse_json_syntax(text)) {
        Err(d) => Ok(finished_with(d)),
        Ok(source) => plan_json(uri, source, parse_json_text(text)),
    }
}

/// A line or a column that counts from one, as one that counts from zero, cut down to 32 bits.
fn from_zero(n: usize) -> (r: u32)
    ensures
        r == (if n > 0 {
            n - 1
        } else {
            0
        }) as u32,
{
    let m: usize = if n > 0 {
        n - 1
    } else {
        0
    };
    #[verifier::truncate]
    (m as u32)
}

/// The documents of a YAML text as one value.
pub fn combine_documents(docs: Vec<YamlValue>) -> (r: YamlValue)
    ensures
        r@ == combined(yaml_views(docs@)),
{
    broadcast use lemma_sequence_view;

    let mut docs = docs;
    if docs.len() == 0 {
        YamlValue::Null
    } else if docs.len() == 1 {
        docs.remove(0)
    } else {
        YamlValue::Sequence(docs)
    }
}

/// Reads the documents of a YAML text as one value.
pub fn parse_yaml_documents(text: &str) -> (r: Result<YamlValue, YamlSyntaxError>)
    ensures
        match r {
            Ok(value) => combined_in(yaml_in_text(text@)) == Ok::<YamlView, YamlSyntaxErrorView>(
                value@,
            ),
            Err(e) => combined_in(yaml_in_text(text@)) == Err::<YamlView, YamlSyntaxErrorView>(e@),
        },
{
    match parse_yaml_text(text) {
        Ok(docs) => Ok(combine_documents(docs)),
        Err(e) => Err(e),
    }
}

/// What a YAML document comes to, given the value that it holds.
pub fn plan_yaml(text: &str, value: Result<YamlValue, YamlSyntaxError>) -> (r: Result<
    Outcome,
    ValidateError,
>)
    ensures
        outcome_view(r) == yaml_outcome(
            text@,
            match value {
                Ok(yaml) => Ok(yaml@),
                Err(e) => Err(e@),
            },
        ),
{
    let yaml = match value {
        Ok(yaml) => yaml,
        Err(e) => {
            let range = match e.location {
                Some((line, column)) => {
                    let at = Position { line: from_zero(line), character: from_zero(column) };
                    Range { start: at, end: at }
                },
                None => Range::default(),
            };
            let d = diag(range, concat("YAML parse error: ", e.message.as_str()));
            return Ok(finished_with(d));
        },
    };
    let json = match yaml_to_json_value(&yaml) {
        Ok(json) => json,
        Err(e) => {
            return Err(ValidateError::Convert(e));
        },
    };
    let named = match find_yaml_schema_comment(text) {
        Some(schema) => Some(schema),
        None => json.schema_reference(),
    };
    match named {
        None => Ok(nothing_to_say()),
        Some(schema) => Ok(
            Outcome::Pending(
                PendingValidation { schema, instance: json.remove_schema(), source: None },
            ),
        ),
    }
}

/// What a YAML document comes to before its schema is known.
pub fn validate_yaml(text: &str) -> (r: Result<Outcome, ValidateError>)
    ensures
        outcome_view(r) == yaml_outcome(text@, combined_in(yaml_in_text(text@))),
{
    plan_yaml(text, parse_yaml_documents(text))
}

/// What a document comes to before its schema is known.
pub open spec fn document_outcome(uri: Seq<char>, doc: StoredDocument) -> Result<
    OutcomeView,
    ValidateErrorView,
> {
    match doc.kind {
        DocKind::Json => json_outcome(
            uri,
            doc.text@,
            json_syntax(doc.text@),
            json_in_text(doc.text@),
        ),
        DocKind::Yaml => yaml_outcome(doc.text@, combined_in(yaml_in_text(doc.text@))),
        DocKind::Other => Ok(OutcomeView::Finished(seq![])),
    }
}

/// What a document comes to before its schema is known.
pub fn validate_document(uri: &str, doc: &StoredDocument) -> (r: Result<Outcome, ValidateError>)
    ensures
        outcome_view(r) == document_outcome(uri@, *doc),
        places_in_nested_tree(outcome_view(r)),
{
    match doc.kind {
        DocKind::Json => validate_json(uri, doc.text.as_str()),
        DocKind::Yaml => validate_yaml(doc.text.as_str()),
        DocKind::Other => Ok(nothing_to_say()),
    }
}

/// The report on a document with given schema errors.
pub open spec fn document_report(
    pending: PendingView,
    errors: Seq<SchemaErrorView>,
    max_errors: nat,
) -> Seq<DiagnosticView> {
    match pending.source {
        Some((text, root)) => json_report(text, root, errors, max_errors),
        None => yaml_report(errors, max_errors),
    }
}

impl PendingValidation {
    /// Reports given schema errors of the document.
    pub fn report(&self, errors: &Vec<SchemaError>, max_errors: usize) -> (r: Vec<Diagnostic>)
        ensures
            diagnostic_views(r@) == document_report(
                self@,
                error_views(errors@),
                max_errors as nat,
            ),
    {
        match &self.source {
            Some(source) => report_json(&source.index, &source.root, errors, max_errors),
            None => report_yaml(errors, max_errors),
        }
    }

    /// Validates the document against its schema, and reports errors that the schema can find in it.
    /// Which of them are found can differ between two calls.
    pub fn validate(&self, validator: &jsonschema::Validator, max_errors: usize) -> (r: Vec<
        Diagnostic,
    >)
        ensures
            exists|errors: Seq<SchemaErrorView>|
                can_find(*validator, self@.instance, errors) && diagnostic_views(r@)
                    == #[trigger] document_report(self@, errors, max_errors as nat),
            r@.len() <= max_errors,
    {
        let errors = schema_errors(validator, &self.instance);
        let out = self.report(&errors, max_errors);
        assert(diagnostic_views(out@).len() == out@.len());
        out
    }
}

/// A document whose extension is neither that of JSON nor that of YAML is not validated.
pub proof fn other_documents_are_not_validated(uri: Seq<char>, doc: StoredDocument)
    requires
        doc.kind == DocKind::Other,
    ensures
        document_outcome(uri, doc) == Ok::<OutcomeView, ValidateErrorView>(
            OutcomeView::Finished(seq![]),
        ),
{
}

/// A document without `$schema` is not validated: nothing is said of it. In YAML this is so where
/// no comment names a schema either.
pub proof fn document_without_schema_is_not_validated(
    uri: Seq<char>,
    text: Seq<char>,
    root: NodeView,
    json: JsonView,
    yaml: YamlView,
)
    requires
        schema_of(json) is None,
        yaml_json(yaml) == Ok::<JsonView, ConvertErrorView>(json),
        first_directive(split(text, '\n')) is None,
    ensures
        json_outcome(uri, text, Ok(Some(root)), Ok(json)) == Ok::<OutcomeView, ValidateErrorView>(
            OutcomeView::Finished(seq![]),
        ),
        yaml_outcome(text, Ok(yaml)) == Ok::<OutcomeView, ValidateErrorView>(
            OutcomeView::Finished(seq![]),
        ),
{
}

/// A document is validated against the schema that it names. A comment in YAML goes before the
/// member `$schema`.
pub proof fn named_schema_is_used(
    uri: Seq<char>,
    text: Seq<char>,
    root: NodeView,
    json: JsonView,
    yaml: YamlView,
)
    requires
        yaml_json(yaml) == Ok::<JsonView, ConvertErrorView>(json),
    ensures
        schema_of(json) matches Some(schema) ==> json_outcome(
            uri,
            text,
            Ok(Some(root)),
            Ok(json),
        ) matches Ok(OutcomeView::Pending(pending)) && pending.schema == schema,
        first_directive(split(text, '\n')) matches Some(schema) ==> yaml_outcome(
            text,
            Ok(yaml),
        ) matches Ok(OutcomeView::Pending(pending)) && pending.schema == schema,
        first_directive(split(text, '\n')) is None ==> (schema_of(json) matches Some(schema)
            ==> yaml_outcome(text, Ok(yaml)) matches Ok(OutcomeView::Pending(pending))
            && pending.schema == schema),
{
}

/// A YAML document without a comment that names a schema is validated as the JSON document with the
/// same value is: the same value against the same schema, or not at all.
pub proof fn yaml_is_validated_like_json(
    uri: Seq<char>,
    json_text: Seq<char>,
    root: NodeView,
    yaml_text: Seq<char>,
    json: JsonView,
    yaml: YamlView,
)
    requires
        yaml_json(yaml) == Ok::<JsonView, ConvertErrorView>(json),
        first_directive(split(yaml_text, '\n')) is None,
    ensures
        match json_outcome(uri, json_text, Ok(Some(root)), Ok(json)) {
            Ok(OutcomeView::Pending(p)) => yaml_outcome(yaml_text, Ok(yaml)) matches Ok(
                OutcomeView::Pending(q),
            ) && q.schema == p.schema && q.instance == p.instance,
            other => yaml_outcome(yaml_text, Ok(yaml)) == other,
        },
{
}

/// A document whose text is JSON, and is read as YAML with the same value, is reported on alike
/// either way: the same instance is validated against the same schema, and the same errors get the
/// same messages, as long as none are left out. Only the ranges differ. No comment names the schema,
/// as there is none in JSON.
pub proof fn json_is_reported_alike_as_yaml(
    uri: Seq<char>,
    text: Seq<char>,
    root: NodeView,
    json: JsonView,
    yaml: YamlView,
    errors: Seq<SchemaErrorView>,
    max_errors: nat,
)
    requires
        yaml_json(yaml) == Ok::<JsonView, ConvertErrorView>(json),
        schema_of(json) is Some,
        first_directive(split(text, '\n')) is None,
    ensures
        json_outcome(uri, text, Ok(Some(root)), Ok(json)) matches Ok(OutcomeView::Pending(p))
            && yaml_outcome(text, Ok(yaml)) matches Ok(OutcomeView::Pending(q)) && ({
            let a = document_report(p, errors, max_errors);
            let b = document_report(q, errors, max_errors);
            &&& p.schema == q.schema && p.instance == q.instance
            &&& errors.len() <= max_errors || a.len() < max_errors ==> a.len() == b.len()
                && forall|i: int| 0 <= i < a.len() ==> (#[trigger] a[i]).message == b[i].message
        }),
{
    if errors.len() <= max_errors {
        reports_differ_in_ranges_alone(text, root, errors, max_errors);
        let a = json_report(text, root, errors, max_errors);
        assert forall|i: int| 0 <= i < a.len() implies (#[trigger] a[i]).message == yaml_report(
            errors,
            max_errors,
        )[i].message by {}
    }
}

/// The value that is validated never has the member `$schema`, which is no part of the instance.
pub proof fn instance_has_no_schema(uri: Seq<char>, doc: StoredDocument)
    ensures
        document_outcome(uri, doc) matches Ok(OutcomeView::Pending(pending)) ==> schema_of(
            pending.instance,
        ) is None && without_schema(pending.instance) == pending.instance,
{
    if let Ok(OutcomeView::Pending(pending)) = document_outcome(uri, doc) {
        let v = match doc.kind {
            DocKind::Json => json_in_text(doc.text@)->Ok_0,
            _ => yaml_json(combined_in(yaml_in_text(doc.text@))->Ok_0)->Ok_0,
        };
        assert(pending.instance == without_schema(v));
        validated_value_has_no_schema(v);
    }
}

/// Letters have no case in the extension of a document.
pub proof fn kind_ignores_case(path: Seq<char>)
    ensures
        kind_of_path(lowered(path)) == kind_of_path(path),
{
    assert(lowered(lowered(path)) =~= lowered(path));
}

/// The extension of a document decides how it is read.
pub proof fn extension_decides_kind(stem: Seq<char>)
    ensures
        kind_of_path(stem + ".json"@) == DocKind::Json,
        kind_of_path(stem + ".yml"@) == DocKind::Yaml,
        kind_of_path(stem + ".yaml"@) == DocKind::Yaml,
{
    reveal_strlit(".json");
    reveal_strlit(".yml");
    reveal_strlit(".yaml");
    lemma_lowered_suffix(stem, ".json"@);
    lemma_lowered_suffix(stem, ".yml"@);
    lemma_lowered_suffix(stem, ".yaml"@);
    let json = lowered(stem + ".json"@);
    let yml = lowered(stem + ".yml"@);
    let yaml = lowered(stem + ".yaml"@);
    assert(lowered(".json"@) =~= ".json"@);
    assert(lowered(".yml"@) =~= ".yml"@);
    assert(lowered(".yaml"@) =~= ".yaml"@);
    if has_suffix(yml, ".json"@) {
        assert(yml.skip(yml.len() - 5)[4] == 'l');
    }
    assert(yaml.skip(yaml.len() - 5)[4] == 'l');
}

/// Lower case letters at the end of a text are there when the whole text is made lower case.
proof fn lemma_lowered_suffix(stem: Seq<char>, suffix: Seq<char>)
    ensures
        has_suffix(lowered(stem + suffix), lowered(suffix)),
        lowered(stem + suffix).len() == stem.len() + suffix.len(),
{
    let all = lowered(stem + suffix);
    assert(all.skip(all.len() - suffix.len()) =~= lowered(suffix));
}

/// White space before a text is trimmed away.
proof fn lemma_trimmed_indent(indent: Seq<char>, s: Seq<char>)
    requires
        forall|i: int| 0 <= i < indent.len() ==> white_space(#[trigger] indent[i]),
        s.len() > 0,
        !white_space(s[0]),
    ensures
        trimmed_start(indent + s) == s,
    decreases indent.len(),
{
    if indent.len() > 0 {
        assert((indent + s).drop_first() =~= indent.drop_first() + s);
        lemma_trimmed_indent(indent.drop_first(), s);
    } else {
        assert(indent + s =~= s);
    }
}

/// A text without white space is one word.
proof fn lemma_one_word(s: Seq<char>)
    requires
        s.len() > 0,
        forall|i: int| 0 <= i < s.len() ==> !white_space(#[trigger] s[i]),
    ensures
        words(s) == seq![s],
{
    lemma_word_len(s);
    let n = word_len(s) as int;
    assert(n == s.len());
    assert(s.take(n) =~= s);
    assert(s.skip(n) =~= seq![]);
    assert(trimmed_start(s) == s);
    assert(trimmed_start(s.skip(n)).len() == 0);
    assert(words(s.skip(n)) =~= seq![]);
    assert(words(s) =~= seq![s]);
}

/// A comment line with the directive names the schema behind `$schema=`, however far it is indented.
pub proof fn directive_names_schema(indent: Seq<char>, schema: Seq<char>)
    requires
        forall|i: int| 0 <= i < indent.len() ==> white_space(#[trigger] indent[i]),
        schema.len() > 0,
        forall|i: int| 0 <= i < schema.len() ==> !white_space(#[trigger] schema[i]),
    ensures
        line_directive(indent + "# yaml-language-server: $schema="@ + schema) == Some(schema),
{
    reveal_strlit("# yaml-language-server: $schema=");
    reveal_strlit("yaml-language-server:");
    reveal_strlit("$schema=");
    let head = "# yaml-language-server: $schema="@;
    let line = indent + head + schema;
    let t = head + schema;
    assert(line =~= indent + t);
    lemma_trimmed_indent(indent, t);
    let rest = t.drop_first();
    assert(rest[0] == ' ');
    assert(without_hashes(t) == without_hashes(rest));
    assert(without_hashes(rest) == rest);
    let directive = "yaml-language-server:"@;
    let comment = directive + seq![' '] + "$schema="@ + schema;
    assert(rest =~= seq![' '] + comment);
    lemma_trimmed_indent(seq![' '], comment);
    assert(comment.take(directive.len() as int) =~= directive);
    let word = "$schema="@ + schema;
    let behind = comment.skip(directive.len() as int);
    assert(behind =~= seq![' '] + word);
    lemma_trimmed_indent(seq![' '], word);
    lemma_one_word(word);
    assert(trimmed_start(word) == word);
    assert(words(behind) =~= seq![word]);
    assert(word.take("$schema="@.len() as int) =~= "$schema="@);
    assert(word.skip("$schema="@.len() as int) =~= schema);
}

/// The first line with a directive decides, whatever the lines behind it hold.
pub proof fn first_directive_decides(
    before: Seq<Seq<char>>,
    line: Seq<char>,
    after: Seq<Seq<char>>,
)
    requires
        forall|i: int| 0 <= i < before.len() ==> line_directive(#[trigger] before[i]) is None,
        line_directive(line) is Some,
    ensures
        first_directive(before + seq![line] + after) == line_directive(line),
    decreases before.len(),
{
    let all = before + seq![line] + after;
    if before.len() > 0 {
        let rest = before.drop_first();
        assert(all[0] == before[0]);
        assert(all.drop_first() =~= rest + seq![line] + after);
        assert forall|i: int| 0 <= i < rest.len() implies line_directive(#[trigger] rest[i]) is None by {
            assert(rest[i] == before[i + 1]);
        }
        first_directive_decides(rest, line, after);
    } else {
        assert(all[0] == line);
    }
}

/// A text without a number sign names no schema by a comment.
pub proof fn no_comment_names_no_schema(text: Seq<char>)
    requires
        forall|i: int| 0 <= i < text.len() ==> #[trigger] text[i] != '#',
    ensures
        first_directive(split(text, '\n')) is None,
    decreases text.len(),
{
    let n = find_first(text, '\n');
    lemma_find_first(text, '\n');
    if 0 <= n < text.len() {
        let line = text.take(n);
        let rest = text.skip(n + 1);
        lemma_no_directive(line);
        no_comment_names_no_schema(rest);
        assert(split(text, '\n').drop_first() =~= split(rest, '\n'));
    } else {
        lemma_no_directive(text);
        assert(split(text, '\n').drop_first() =~= seq![]);
        assert(first_directive(split(text, '\n').drop_first()) is None);
    }
}

/// A line without a number sign names no schema.
proof fn lemma_no_directive(line: Seq<char>)
    requires
        forall|i: int| 0 <= i < line.len() ==> #[trigger] line[i] != '#',
    ensures
        line_directive(line) is None,
    decreases line.len(),
{
    if line.len() > 0 && white_space(line[0]) {
        lemma_no_directive(line.drop_first());
    }
}

/// A document is JSON or YAML exactly where its path ends with the extension, in letters of either
/// case, and nothing else than the end of the path counts.
pub proof fn kind_needs_the_extension(path: Seq<char>, stem: Seq<char>, extension: Seq<char>)
    ensures
        lowered(extension) == ".json"@ ==> kind_of_path(stem + extension) == DocKind::Json,
        lowered(extension) == ".yml"@ ==> kind_of_path(stem + extension) == DocKind::Yaml,
        lowered(extension) == ".yaml"@ ==> kind_of_path(stem + extension) == DocKind::Yaml,
        kind_of_path(path) == DocKind::Json ==> path.len() >= 5 && lowered(
            path.skip(path.len() - 5),
        ) == ".json"@,
        kind_of_path(path) == DocKind::Yaml ==> (path.len() >= 4 && lowered(
            path.skip(path.len() - 4),
        ) == ".yml"@) || (path.len() >= 5 && lowered(path.skip(path.len() - 5)) == ".yaml"@),
{
    reveal_strlit(".json");
    reveal_strlit(".yml");
    reveal_strlit(".yaml");
    lemma_lowered_suffix(stem, extension);
    let all = lowered(stem + extension);
    if lowered(extension) == ".yml"@ {
        assert(all.last() == 'l') by {
            assert(all.skip(all.len() - 4)[3] == 'l');
        }
        if has_suffix(all, ".json"@) {
            assert(all.skip(all.len() - 5)[4] == 'n');
        }
    }
    if lowered(extension) == ".yaml"@ {
        assert(all.skip(all.len() - 5)[4] == 'l');
    }
    let low = lowered(path);
    if path.len() >= 5 {
        assert(lowered(path.skip(path.len() - 5)) =~= low.skip(low.len() - 5));
    }
    if path.len() >= 4 {
        assert(lowered(path.skip(path.len() - 4)) =~= low.skip(low.len() - 4));
    }
}

/// The kind of a document goes by the path of its URL alone, whatever the rest of that is, and one
/// that has no URL is of no kind.
pub proof fn kind_goes_by_the_path(a: UrlView, b: UrlView, cause: Seq<char>)
    ensures
        kind_of_url(Ok(a)) == kind_of_path(a.path),
        a.path == b.path ==> kind_of_url(Ok(a)) == kind_of_url(Ok(b)),
        kind_of_url(Err(cause)) == DocKind::Other,
{
}

/// All number signs at the start of a text are dropped, and nothing behind them is.
pub proof fn leading_hashes_are_dropped_alone(hashes: Seq<char>, rest: Seq<char>)
    requires
        forall|i: int| 0 <= i < hashes.len() ==> #[trigger] hashes[i] == '#',
        rest.len() > 0 ==> rest[0] != '#',
    ensures
        without_hashes(hashes + rest) == rest,
    decreases hashes.len(),
{
    if hashes.len() > 0 {
        assert((hashes + rest).drop_first() =~= hashes.drop_first() + rest);
        leading_hashes_are_dropped_alone(hashes.drop_first(), rest);
    } else {
        assert(hashes + rest =~= rest);
    }
}

/// The first word that starts with `$schema=` and goes on names the schema, by all that stands behind
/// that; without such a word none is named.
pub proof fn first_schema_word_is_taken(
    before: Seq<Seq<char>>,
    schema: Seq<char>,
    after: Seq<Seq<char>>,
)
    requires
        schema.len() > 0,
        forall|i: int, name: Seq<char>|
            0 <= i < before.len() && name.len() > 0 ==> #[trigger] before[i] != #[trigger] (
            "$schema="@ + name),
    ensures
        schema_word(before + seq!["$schema="@ + schema] + after) == Some(schema),
        schema_word(before) is None,
    decreases before.len(),
{
    let word = "$schema="@ + schema;
    let all = before + seq![word] + after;
    if before.len() > 0 {
        let rest = before.drop_first();
        let name = before[0].skip("$schema="@.len() as int);
        if has_prefix(before[0], "$schema="@) && name.len() > 0 {
            assert(before[0] =~= "$schema="@ + name);
        }
        assert(all[0] == before[0]);
        assert(all.drop_first() =~= rest + seq![word] + after);
        assert forall|i: int, name: Seq<char>|
            0 <= i < rest.len() && name.len() > 0 implies #[trigger] rest[i] != #[trigger] (
        "$schema="@ + name) by {
            assert(rest[i] == before[i + 1]);
        }
        first_schema_word_is_taken(rest, schema, after);
    } else {
        assert(all[0] == word);
        assert(word.take("$schema="@.len() as int) =~= "$schema="@);
        assert(word.skip("$schema="@.len() as int) =~= schema);
    }
}

/// A comment line, however far it is indented and however many number signs it starts with, names
/// the schema that the words behind its directive name.
pub proof fn directive_goes_by_the_words_behind_it(
    indent: Seq<char>,
    hashes: Seq<char>,
    space: Seq<char>,
    rest: Seq<char>,
)
    requires
        forall|i: int| 0 <= i < indent.len() ==> white_space(#[trigger] indent[i]),
        hashes.len() > 0,
        forall|i: int| 0 <= i < hashes.len() ==> #[trigger] hashes[i] == '#',
        forall|i: int| 0 <= i < space.len() ==> white_space(#[trigger] space[i]),
    ensures
        line_directive(indent + hashes + space + "yaml-language-server:"@ + rest) == schema_word(
            words(rest),
        ),
{
    reveal_strlit("yaml-language-server:");
    let comment = "yaml-language-server:"@ + rest;
    assert(comment.take("yaml-language-server:"@.len() as int) =~= "yaml-language-server:"@);
    assert(comment.skip("yaml-language-server:"@.len() as int) =~= rest);
    assert(comment[0] == 'y');
    let line = indent + hashes + space + "yaml-language-server:"@ + rest;
    lemma_comment(indent, hashes, space, comment);
    assert(line =~= indent + (hashes + (space + comment)));
}

/// A line that is no comment names no schema, and neither does a comment without the directive.
pub proof fn other_lines_name_no_schema(
    indent: Seq<char>,
    hashes: Seq<char>,
    space: Seq<char>,
    other: Seq<char>,
)
    requires
        forall|i: int| 0 <= i < indent.len() ==> white_space(#[trigger] indent[i]),
        forall|i: int| 0 <= i < hashes.len() ==> #[trigger] hashes[i] == '#',
        forall|i: int| 0 <= i < space.len() ==> white_space(#[trigger] space[i]),
        other.len() > 0,
        !white_space(other[0]),
        other[0] != '#',
        forall|rest: Seq<char>| other != #[trigger] ("yaml-language-server:"@ + rest),
    ensures
        line_directive(indent + other) is None,
        line_directive(indent) is None,
        hashes.len() > 0 ==> line_directive(indent + hashes + space + other) is None,
{
    lemma_trimmed_indent(indent, other);
    let n = trimming_start_drops_white_space_alone(indent);
    if trimmed_start(indent).len() > 0 {
        assert(white_space(indent[n]));
    }
    if has_prefix(other, "yaml-language-server:"@) {
        let rest = other.skip("yaml-language-server:"@.len() as int);
        assert(other =~= "yaml-language-server:"@ + rest);
    }
    if hashes.len() > 0 {
        let line = indent + hashes + space + other;
        lemma_comment(indent, hashes, space, other);
        assert(line =~= indent + (hashes + (space + other)));
    }
}

/// A comment line is parted into its indentation, its number signs and what stands behind them.
proof fn lemma_comment(
    indent: Seq<char>,
    hashes: Seq<char>,
    space: Seq<char>,
    comment: Seq<char>,
)
    requires
        forall|i: int| 0 <= i < indent.len() ==> white_space(#[trigger] indent[i]),
        hashes.len() > 0,
        forall|i: int| 0 <= i < hashes.len() ==> #[trigger] hashes[i] == '#',
        forall|i: int| 0 <= i < space.len() ==> white_space(#[trigger] space[i]),
        comment.len() > 0,
        !white_space(comment[0]),
        comment[0] != '#',
    ensures
        ({
            let t = trimmed_start(indent + (hashes + (space + comment)));
            &&& t.len() > 0 && t[0] == '#'
            &&& trimmed_start(without_hashes(t)) == comment
        }),
{
    let rest = space + comment;
    let t = hashes + rest;
    assert(t[0] == hashes[0]);
    lemma_trimmed_indent(indent, t);
    if space.len() > 0 {
        assert(rest[0] == space[0]);
        assert(white_space(space[0]));
    } else {
        assert(rest[0] == comment[0]);
    }
    leading_hashes_are_dropped_alone(hashes, rest);
    lemma_trimmed_indent(space, comment);
}

/// Lines of which none names a schema name none together.
pub proof fn lines_without_directive_name_no_schema(lines: Seq<Seq<char>>)
    requires
        forall|i: int| 0 <= i < lines.len() ==> line_directive(#[trigger] lines[i]) is None,
    ensures
        first_directive(lines) is None,
    decreases lines.len(),
{
    if lines.len() > 0 {
        let rest = lines.drop_first();
        assert(line_directive(lines[0]) is None);
        assert forall|i: int| 0 <= i < rest.len() implies line_directive(#[trigger] rest[i]) is None by {
            assert(rest[i] == lines[i + 1]);
        }
        lines_without_directive_name_no_schema(rest);
    }
}

/// A text that is no JSON is answered with one error, at the range where it stops being so and with
/// the whole cause, and a text without a value with one at its start, whatever else was read from it.
pub proof fn broken_json_is_answered_in_place(
    uri: Seq<char>,
    text: Seq<char>,
    e: JsonSyntaxErrorView,
    value: Result<JsonView, Seq<char>>,
)
    ensures
        json_outcome(uri, text, Err(e), value) matches Ok(OutcomeView::Finished(all)) && all.len()
            == 1 && all[0].message == "JSON parse error: "@ + e.message && all[0].range == range_of(
            text,
            e.span.0 as int,
            e.span.1 as int,
        ) && all[0].severity == Severity::Error,
        json_outcome(uri, text, Ok(None), value) matches Ok(OutcomeView::Finished(all)) && all.len()
            == 1 && all[0].message == "Empty JSON document"@ && all[0].range == Range::origin()
            && all[0].severity == Severity::Error,
{
}

/// The source of a JSON text is the tree that was read from it.
pub proof fn source_is_the_tree(text: Seq<char>, root: NodeView, e: JsonSyntaxErrorView)
    ensures
        source_in(text, Ok(Some(root))) == Ok::<NodeView, DiagnosticView>(root),
        source_in(text, Ok(None)) is Err,
        source_in(text, Err(e)) is Err,
{
}

/// A JSON document goes by its schema and by its value without that.
proof fn lemma_json_plan(uri: Seq<char>, text: Seq<char>, root: NodeView, json: JsonView)
    ensures
        json_outcome(uri, text, Ok(Some(root)), Ok(json)) == Ok::<OutcomeView, ValidateErrorView>(
            match schema_of(json) {
                None => OutcomeView::Finished(seq![]),
                Some(schema) => OutcomeView::Pending(
                    PendingView {
                        schema,
                        instance: without_schema(json),
                        source: Some((text, root)),
                    },
                ),
            },
        ),
{
}

/// A JSON document whose value cannot be read is an error with its URI and the cause, whole.
pub proof fn unreadable_json_is_an_error(
    uri: Seq<char>,
    text: Seq<char>,
    root: NodeView,
    cause: Seq<char>,
)
    ensures
        json_outcome(uri, text, Ok(Some(root)), Err(cause)) == Err::<OutcomeView, ValidateErrorView>(
            ValidateErrorView::ParseJson(uri, cause),
        ),
{
}

/// A text that is no YAML is answered with one error, with the whole cause. It is one line and one
/// column before where the reader counts them from one, cut down to 32 bits, and at the start of the
/// document where the reader names no place.
pub proof fn broken_yaml_is_answered_in_place(
    text: Seq<char>,
    e: YamlSyntaxErrorView,
    line: usize,
    column: usize,
)
    ensures
        yaml_outcome(text, Err(e)) matches Ok(OutcomeView::Finished(all)) && all.len() == 1
            && all[0].message == "YAML parse error: "@ + e.message && all[0].severity
            == Severity::Error && all[0].range == yaml_error_range(e.location),
        yaml_error_range(None) == Range::origin(),
        ({
            let range = yaml_error_range(Some((line, column)));
            &&& range.start == range.end
            &&& line > 0 ==> range.start.line == (line - 1) % 0x1_0000_0000
            &&& line == 0 ==> range.start.line == 0
            &&& column > 0 ==> range.start.character == (column - 1) % 0x1_0000_0000
            &&& column == 0 ==> range.start.character == 0
        }),
{
    if line > 0 {
        lemma_low_bits((line - 1) as nat);
    }
    if column > 0 {
        lemma_low_bits((column - 1) as nat);
    }
}

/// The documents of a YAML text are one value: null where there are none, a lone one as it is, and
/// more of them each in its place, in a sequence. A text that cannot be read is refused for its own
/// reason.
pub proof fn documents_are_one_value(
    doc: YamlView,
    other: YamlView,
    docs: Seq<YamlView>,
    e: YamlSyntaxErrorView,
)
    ensures
        combined(Seq::empty()) == YamlView::Null,
        combined(seq![doc]) == doc,
        combined(seq![doc, other] + docs) == YamlView::Sequence(seq![doc, other] + docs),
        combined_in(Ok(docs)) == Ok::<YamlView, YamlSyntaxErrorView>(combined(docs)),
        combined_in(Err(e)) == Err::<YamlView, YamlSyntaxErrorView>(e),
{
}

/// A YAML document goes by the comment, by the schema of its JSON value and by that value without
/// it.
proof fn lemma_yaml_plan(text: Seq<char>, yaml: YamlView, json: JsonView)
    requires
        yaml_json(yaml) == Ok::<JsonView, ConvertErrorView>(json),
    ensures
        yaml_outcome(text, Ok(yaml)) == Ok::<OutcomeView, ValidateErrorView>(
            match (first_directive(split(text, '\n')), schema_of(json)) {
                (None, None) => OutcomeView::Finished(seq![]),
                (Some(schema), _) => OutcomeView::Pending(
                    PendingView { schema, instance: without_schema(json), source: None },
                ),
                (None, Some(schema)) => OutcomeView::Pending(
                    PendingView { schema, instance: without_schema(json), source: None },
                ),
            },
        ),
{
}

/// A YAML document whose value is no mapping is validated as it is where a comment names a schema,
/// and not at all where none does. One whose value has no JSON value is an error for that reason.
pub proof fn other_yaml_is_validated_by_comment_alone(
    text: Seq<char>,
    yaml: YamlView,
    json: JsonView,
    comment: Seq<char>,
    e: ConvertErrorView,
)
    ensures
        yaml_json(yaml) == Ok::<JsonView, ConvertErrorView>(json) && !(json is Object)
            && first_directive(split(text, '\n')) == Some(comment) ==> yaml_outcome(text, Ok(yaml))
            == Ok::<OutcomeView, ValidateErrorView>(
            OutcomeView::Pending(PendingView { schema: comment, instance: json, source: None }),
        ),
        yaml_json(yaml) == Ok::<JsonView, ConvertErrorView>(json) && !(json is Object)
            && first_directive(split(text, '\n')) is None ==> yaml_outcome(text, Ok(yaml)) == Ok::<
            OutcomeView,
            ValidateErrorView,
        >(OutcomeView::Finished(seq![])),
        yaml_json(yaml) == Err::<JsonView, ConvertErrorView>(e) ==> yaml_outcome(text, Ok(yaml))
            == Err::<OutcomeView, ValidateErrorView>(ValidateErrorView::Convert(e)),
{
    if yaml_json(yaml) == Ok::<JsonView, ConvertErrorView>(json) {
        lemma_yaml_plan(text, yaml, json);
    }
}

/// The text of a document is read as its kind says, whole, and under its own URI.
pub proof fn kind_decides_the_reader(uri: Seq<char>, doc: StoredDocument)
    ensures
        doc.kind == DocKind::Json ==> document_outcome(uri, doc) == json_outcome(
            uri,
            doc.text@,
            json_syntax(doc.text@),
            json_in_text(doc.text@),
        ),
        doc.kind == DocKind::Yaml ==> document_outcome(uri, doc) == yaml_outcome(
            doc.text@,
            combined_in(yaml_in_text(doc.text@)),
        ),
        doc.kind == DocKind::Other ==> document_outcome(uri, doc) == Ok::<
            OutcomeView,
            ValidateErrorView,
        >(OutcomeView::Finished(seq![])),
{
}

/// The report on a JSON document is that on its text and its tree, with all errors and the maximum
/// as they are; that on a YAML document has neither.
pub proof fn report_goes_by_the_source(
    pending: PendingView,
    text: Seq<char>,
    root: NodeView,
    errors: Seq<SchemaErrorView>,
    max_errors: nat,
)
    ensures
        pending.source == Some((text, root)) ==> document_report(pending, errors, max_errors)
            == json_report(text, root, errors, max_errors),
        pending.source is None ==> document_report(pending, errors, max_errors) == yaml_report(
            errors,
            max_errors,
        ),
{
}

/// The message of a document that cannot be validated holds, whole, what it is about.
pub proof fn validate_messages_hold_what_they_are_about(
    uri: Seq<char>,
    cause: Seq<char>,
    key: Seq<char>,
)
    ensures
        validate_message(ValidateErrorView::ParseJson(uri, cause)) == "parse JSON for validation: "@
            + uri + ": "@ + cause,
        validate_message(ValidateErrorView::Convert(ConvertErrorView::KeyNotText(key)))
            == "YAML mapping key must be string (got "@ + key + ")"@,
{
}

/// Whether errors are placed in a nested tree is a matter of the tree alone: where there is none to
/// place them in, nothing is asked.
pub proof fn trees_to_place_in_are_nested(pending: PendingView, text: Seq<char>, root: NodeView)
    ensures
        pending.source == Some((text, root)) ==> (places_in_nested_tree(
            Ok(OutcomeView::Pending(pending)),
        ) <==> nested(root)),
        pending.source is None ==> places_in_nested_tree(Ok(OutcomeView::Pending(pending))),
{
}

/// Documents that are to be validated, and what comes of them, are what they hold.
pub proof fn outcomes_are_what_they_hold(
    source: JsonSource,
    pending: PendingValidation,
    ds: Vec<Diagnostic>,
    uri: String,
    cause: String,
    e: ConvertError,
    i: int,
)
    ensures
        source@.0 == source.index.text(),
        source@.1 == source.root@,
        pending@.schema == pending.schema@,
        pending@.instance == pending.instance@,
        pending.source == Some(source) ==> pending@.source == Some(
            (source.index.text(), source.root@),
        ),
        pending.source is None ==> pending@.source is None,
        Outcome::Finished(ds)@ matches OutcomeView::Finished(all) && all.len() == ds@.len() && (0
            <= i < ds@.len() ==> all[i] == ds@[i]@),
        Outcome::Pending(pending)@ == OutcomeView::Pending(pending@),
        ValidateError::ParseJson(uri, cause)@ == ValidateErrorView::ParseJson(uri@, cause@),
        ValidateError::Convert(e)@ == ValidateErrorView::Convert(e@),
        outcome_view(Ok(Outcome::Pending(pending))) == Ok::<OutcomeView, ValidateErrorView>(
            OutcomeView::Pending(pending@),
        ),
        outcome_view(Err(ValidateError::Convert(e))) == Err::<OutcomeView, ValidateErrorView>(
            ValidateErrorView::Convert(e@),
        ),
        outcome_view(Err(ValidateError::ParseJson(uri, cause))) == Err::<
            OutcomeView,
            ValidateErrorView,
        >(ValidateErrorView::ParseJson(uri@, cause@)),
        text_view(Some(cause)) == Some(cause@),
        text_view(None) == None::<Seq<char>>,
{
}

/// Whatever the value of a document is, all of it but the member `$schema` is validated, against the
/// schema that is named.
pub proof fn all_but_the_schema_is_validated(
    uri: Seq<char>,
    text: Seq<char>,
    root: NodeView,
    yaml: YamlView,
    json: JsonView,
    schema: Seq<char>,
)
    requires
        yaml_json(yaml) == Ok::<JsonView, ConvertErrorView>(json),
    ensures
        schema_of(json) == Some(schema) ==> json_outcome(uri, text, Ok(Some(root)), Ok(json)) == Ok::<
            OutcomeView,
            ValidateErrorView,
        >(
            OutcomeView::Pending(
                PendingView {
                    schema,
                    instance: without_schema(json),
                    source: Some((text, root)),
                },
            ),
        ),
        first_directive(split(text, '\n')) == Some(schema) || (first_directive(split(text, '\n')) is None
            && schema_of(json) == Some(schema)) ==> yaml_outcome(text, Ok(yaml)) == Ok::<
            OutcomeView,
            ValidateErrorView,
        >(
            OutcomeView::Pending(
                PendingView { schema, instance: without_schema(json), source: None },
            ),
        ),
{
    lemma_json_plan(uri, text, root, json);
    lemma_yaml_plan(text, yaml, json);
}

} // verus!
