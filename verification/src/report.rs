//! Diagnostics, and the reports made of schema errors.
use vstd::prelude::*;

use crate::json::{json_value_to, JsonValue, JsonView};
use crate::json_tree::{node_at, pointer_to_node_gives_its_span, span_at, NodeView};
use crate::json_tree::{pointer_to_span, JsonNode};
use crate::pointer::segments;
use crate::text::decimal;
use crate::text::{concat, to_decimal};
use crate::text_index::range_of;
use crate::text_index::{Range, TextIndex};

verus! {

/// How grave a diagnostic is.
#[derive(Debug, Clone, Copy, PartialEq, Eq, Structural)]
pub enum Severity {
    Error,
}

/// A message about a part of a document.
#[derive(Debug, PartialEq, Eq)]
pub struct Diagnostic {
    pub range: Range,
    pub severity: Severity,
    pub source: String,
    pub message: String,
}

/// What a diagnostic says.
pub ghost struct DiagnosticView {
    pub range: Range,
    pub severity: Severity,
    pub source: Seq<char>,
    pub message: Seq<char>,
}

impl View for Diagnostic {
    type V = DiagnosticView;

    open spec fn view(&self) -> DiagnosticView {
        DiagnosticView {
            range: self.range,
            severity: self.severity,
            source: self.source@,
            message: self.message@,
        }
    }
}

/// What a list of diagnostics says.
pub open spec fn diagnostic_views(diagnostics: Seq<Diagnostic>) -> Seq<DiagnosticView> {
    diagnostics.map_values(|d: Diagnostic| d@)
}

/// An error of this server with a given range and message.
pub open spec fn error_at(range: Range, message: Seq<char>) -> DiagnosticView {
    DiagnosticView {
        range,
        severity: Severity::Error,
        source: "cgpt-jsonschema-lsp"@,
        message,
    }
}

/// An error of this server with a given range and message.
pub fn diag(range: Range, message: String) -> (r: Diagnostic)
    ensures
        r@ == error_at(range, message@),
{
    Diagnostic {
        range,
        severity: Severity::Error,
        source: "cgpt-jsonschema-lsp".to_string(),
        message,
    }
}

/// What a schema finds wrong with an instance, and the pointer to the part that it is about.
#[derive(Debug, PartialEq, Eq)]
pub struct SchemaError {
    pub message: String,
    pub instance_path: String,
}

/// What a schema error says.
pub ghost struct SchemaErrorView {
    pub message: Seq<char>,
    pub instance_path: Seq<char>,
}

impl View for SchemaError {
    type V = SchemaErrorView;

    open spec fn view(&self) -> SchemaErrorView {
        SchemaErrorView { message: self.message@, instance_path: self.instance_path@ }
    }
}

/// What a list of schema errors says.
pub open spec fn error_views(errors: Seq<SchemaError>) -> Seq<SchemaErrorView> {
    errors.map_values(|e: SchemaError| e@)
}

/// The message of a schema error.
pub open spec fn error_message(e: SchemaErrorView) -> Seq<char> {
    e.message + " (instance path: "@ + e.instance_path + ")"@
}

/// The message of a report that was cut off.
pub open spec fn cut_off_message(max_errors: nat) -> Seq<char> {
    "Too many errors; stopping after "@ + decimal(max_errors) + " (use --max-errors to raise)"@
}

/// The first schema errors of a list, up to a number of them.
pub open spec fn first_errors(errors: Seq<SchemaErrorView>, limit: nat) -> Seq<SchemaErrorView> {
    if errors.len() <= limit {
        errors
    } else {
        errors.take(limit as int)
    }
}

/// The diagnostic of a schema error in a JSON text: at the node that the pointer leads to, or at
/// the root where it leads nowhere.
pub open spec fn json_error(text: Seq<char>, root: NodeView, e: SchemaErrorView) -> DiagnosticView {
    let span = match span_at(root, segments(e.instance_path)) {
        Some(span) => span,
        None => root.span(),
    };
    error_at(range_of(text, span.0 as int, span.1 as int), error_message(e))
}

/// The report on a JSON text: all errors where they are no more than the maximum. Where some are left
/// out, the last place is taken by a note at the start of the document.
pub open spec fn json_report(
    text: Seq<char>,
    root: NodeView,
    errors: Seq<SchemaErrorView>,
    max_errors: nat,
) -> Seq<DiagnosticView> {
    let say = |e: SchemaErrorView| json_error(text, root, e);
    if errors.len() <= max_errors {
        errors.map_values(say)
    } else if max_errors == 0 {
        seq![]
    } else {
        first_errors(errors, (max_errors - 1) as nat).map_values(say).push(
            error_at(Range::origin(), cut_off_message(max_errors)),
        )
    }
}

/// The report on a YAML text: the first errors, up to the maximum, all at the start of the document.
pub open spec fn yaml_report(errors: Seq<SchemaErrorView>, max_errors: nat) -> Seq<DiagnosticView> {
    first_errors(errors, max_errors).map_values(
        |e: SchemaErrorView| error_at(Range::origin(), error_message(e)),
    )
}

/// The message of a schema error.
fn message_of(e: &SchemaError) -> (r: String)
    ensures
        r@ == error_message(e@),
{
    let head = concat(e.message.as_str(), " (instance path: ");
    concat(concat(head.as_str(), e.instance_path.as_str()).as_str(), ")")
}

/// The message of a report that was cut off.
fn cut_off(max_errors: usize) -> (r: String)
    ensures
        r@ == cut_off_message(max_errors as nat),
{
    let head = concat("Too many errors; stopping after ", to_decimal(max_errors).as_str());
    concat(head.as_str(), " (use --max-errors to raise)")
}

/// Reports the schema errors of a JSON text at the nodes that they are about.
pub fn report_json(
    index: &TextIndex,
    root: &JsonNode,
    errors: &Vec<SchemaError>,
    max_errors: usize,
) -> (r: Vec<Diagnostic>)
    ensures
        diagnostic_views(r@) == json_report(
            index.text(),
            root@,
            error_views(errors@),
            max_errors as nat,
        ),
{
    let cut = errors.len() > max_errors;
    let count: usize = if !cut {
        errors.len()
    } else if max_errors > 0 {
        max_errors - 1
    } else {
        0
    };
    let ghost all = error_views(errors@);
    let ghost say = |e: SchemaErrorView| json_error(index.text(), root@, e);
    let mut out: Vec<Diagnostic> = Vec::new();
    let mut i: usize = 0;
    assert(diagnostic_views(out@) =~= all.take(0).map_values(say));
    while i < count
        invariant
            i <= count <= errors@.len(),
            all == error_views(errors@),
            say == (|e: SchemaErrorView| json_error(index.text(), root@, e)),
            diagnostic_views(out@) == all.take(i as int).map_values(say),
        decreases count - i,
    {
        let e = &errors[i];
        assert(all[i as int] == e@);
        let span = match pointer_to_span(root, e.instance_path.as_str()) {
            Some(span) => span,
            None => root.span(),
        };
        let range = index.range_from_bytes(span.0, span.1);
        let ghost before = diagnostic_views(out@);
        let d = diag(range, message_of(e));
        out.push(d);
        proof {
            assert(diagnostic_views(out@) =~= before.push(d@));
            assert(all.take(i + 1) =~= all.take(i as int).push(e@));
            assert(diagnostic_views(out@) =~= all.take(i + 1).map_values(say));
        }
        i = i + 1;
    }
    assert(all.take(all.len() as int) =~= all);
    if cut && max_errors > 0 {
        let ghost before = diagnostic_views(out@);
        let d = diag(Range::default(), cut_off(max_errors));
        out.push(d);
        assert(diagnostic_views(out@) =~= before.push(d@));
    }
    out
}

/// Reports the schema errors of a YAML text at the start of the document.
pub fn report_yaml(errors: &Vec<SchemaError>, max_errors: usize) -> (r: Vec<Diagnostic>)
    ensures
        diagnostic_views(r@) == yaml_report(error_views(errors@), max_errors as nat),
{
    let count: usize = if errors.len() < max_errors {
        errors.len()
    } else {
        max_errors
    };
    let ghost all = error_views(errors@);
    let ghost say = |e: SchemaErrorView| error_at(Range::origin(), error_message(e));
    let mut out: Vec<Diagnostic> = Vec::new();
    let mut i: usize = 0;
    assert(diagnostic_views(out@) =~= all.take(0).map_values(say));
    while i < count
        invariant
            i <= count <= errors@.len(),
            all == error_views(errors@),
            say == (|e: SchemaErrorView| error_at(Range::origin(), error_message(e))),
            diagnostic_views(out@) == all.take(i as int).map_values(say),
        decreases count - i,
    {
        let e = &errors[i];
        assert(all[i as int] == e@);
        let ghost before = diagnostic_views(out@);
        let d = diag(Range::default(), message_of(e));
        out.push(d);
        proof {
            assert(diagnostic_views(out@) =~= before.push(d@));
            assert(all.take(i + 1) =~= all.take(i as int).push(e@));
            assert(diagnostic_views(out@) =~= all.take(i + 1).map_values(say));
        }
        i = i + 1;
    }
    assert(all.take(all.len() as int) =~= all);
    out
}

/// Whether `jsonschema::Validator::iter_errors` can find these errors in an instance, in this order.
pub uninterp spec fn can_find(
    validator: jsonschema::Validator,
    instance: JsonView,
    errors: Seq<SchemaErrorView>,
) -> bool;

/// `jsonschema::Validator::iter_errors`: what a compiled schema finds wrong with an instance. All that
/// is claimed is that this schema can find these errors in this instance. Which ones it finds is
/// left open: some checks go through hash sets whose keys are drawn anew for every call, so that two
/// calls can differ.
#[verifier::external_body]
pub(crate) fn schema_errors(validator: &jsonschema::Validator, instance: &JsonValue) -> (r: Vec<
    SchemaError,
>)
    ensures
        can_find(*validator, instance@, error_views(r@)),
{
    validator
        .iter_errors(&json_value_to(instance))
        .map(|e| SchemaError { message: e.to_string(), instance_path: e.instance_path().to_string() })
        .collect()
}

/// A report holds one diagnostic for each error, up to the maximum and never more than that.
pub proof fn report_is_bounded(
    text: Seq<char>,
    root: NodeView,
    errors: Seq<SchemaErrorView>,
    max_errors: nat,
)
    ensures
        json_report(text, root, errors, max_errors).len() <= max_errors,
        yaml_report(errors, max_errors).len() <= max_errors,
        errors.len() <= max_errors ==> json_report(text, root, errors, max_errors).len()
            == errors.len() && yaml_report(errors, max_errors).len() == errors.len(),
        errors.len() >= max_errors ==> json_report(text, root, errors, max_errors).len()
            == max_errors && yaml_report(errors, max_errors).len() == max_errors,
{
}

/// An instance without schema errors gets an empty report.
pub proof fn valid_instance_gets_empty_report(text: Seq<char>, root: NodeView, max_errors: nat)
    ensures
        yaml_report(Seq::empty(), max_errors) == Seq::<DiagnosticView>::empty(),
        json_report(text, root, Seq::empty(), max_errors) == Seq::<DiagnosticView>::empty(),
{
    assert(json_report(text, root, Seq::empty(), max_errors) =~= Seq::empty());
    assert(yaml_report(Seq::empty(), max_errors) =~= Seq::empty());
}

/// The schema errors are reported in order: in a JSON text at the exact range of the node that the
/// pointer leads to, unless the note takes the place, and in a YAML text at the start of the
/// document.
pub proof fn errors_are_reported_in_place(
    text: Seq<char>,
    root: NodeView,
    errors: Seq<SchemaErrorView>,
    max_errors: nat,
    i: int,
)
    requires
        0 <= i < errors.len(),
        i < max_errors,
    ensures
        yaml_report(errors, max_errors)[i] == error_at(Range::origin(), error_message(errors[i])),
        errors.len() <= max_errors || i < max_errors - 1 ==> json_report(
            text,
            root,
            errors,
            max_errors,
        )[i] == json_error(text, root, errors[i]),
        node_at(root, segments(errors[i].instance_path)) matches Some(node) ==> json_error(
            text,
            root,
            errors[i],
        ).range == range_of(text, node.span().0 as int, node.span().1 as int),
{
    let path = segments(errors[i].instance_path);
    if node_at(root, path) is Some {
        pointer_to_node_gives_its_span(root, path);
    }
}

/// A report on a JSON text that leaves errors out ends with the note that says so; any other holds
/// all errors and no note.
pub proof fn cut_report_ends_with_note(
    text: Seq<char>,
    root: NodeView,
    errors: Seq<SchemaErrorView>,
    max_errors: nat,
)
    requires
        max_errors > 0,
    ensures
        errors.len() > max_errors ==> json_report(text, root, errors, max_errors).last()
            == error_at(Range::origin(), cut_off_message(max_errors)),
        errors.len() <= max_errors ==> json_report(text, root, errors, max_errors)
            == errors.map_values(|e: SchemaErrorView| json_error(text, root, e)),
{
}

/// As long as a report leaves nothing out, it says the same of a JSON text and of a YAML text with
/// the same errors: only the ranges differ.
pub proof fn reports_differ_in_ranges_alone(
    text: Seq<char>,
    root: NodeView,
    errors: Seq<SchemaErrorView>,
    max_errors: nat,
)
    requires
        errors.len() <= max_errors,
    ensures
        yaml_report(errors, max_errors).len() == json_report(text, root, errors, max_errors).len(),
        forall|i: int|
            0 <= i < errors.len() ==> (#[trigger] yaml_report(errors, max_errors)[i]).message
                == json_report(text, root, errors, max_errors)[i].message,
{
}

/// An error of this server is one: it has the range and the message that it was given, and the name
/// of the server.
pub proof fn errors_hold_what_they_were_given(range: Range, message: Seq<char>)
    ensures
        error_at(range, message).range == range,
        error_at(range, message).severity == Severity::Error,
        error_at(range, message).source == "cgpt-jsonschema-lsp"@,
        error_at(range, message).message == message,
{
}

/// What is said of a schema error is its own message, whole, and then the pointer to what it is
/// about, whole. The note on a report that was cut off holds the numeral of the maximum.
pub proof fn messages_hold_all_of_the_error(e: SchemaErrorView, max_errors: nat)
    ensures
        error_message(e) == e.message + " (instance path: "@ + e.instance_path + ")"@,
        cut_off_message(max_errors) == "Too many errors; stopping after "@ + decimal(max_errors)
            + " (use --max-errors to raise)"@,
{
}

/// The first errors of a list are those before a place in it, or all of them where the list is no
/// longer.
pub proof fn first_errors_are_those_before(
    errors: Seq<SchemaErrorView>,
    more: Seq<SchemaErrorView>,
    limit: nat,
)
    ensures
        errors.len() == limit ==> first_errors(errors + more, limit) == errors,
        errors.len() <= limit ==> first_errors(errors, limit) == errors,
{
    if errors.len() == limit {
        assert((errors + more).take(limit as int) =~= errors);
        if more.len() == 0 {
            assert(errors + more =~= errors);
        }
    }
}

/// What is said of an error of a JSON text, that its report has room for: all of the error, at the
/// range of the node that its pointer leads to, at that of the leaf above which it leads no further,
/// or at that of the root where it leads nowhere. One more error behind it changes nothing, as long
/// as there is room for that too.
pub proof fn json_errors_are_said_one_by_one(
    text: Seq<char>,
    root: NodeView,
    errors: Seq<SchemaErrorView>,
    last: SchemaErrorView,
    max_errors: nat,
)
    requires
        errors.len() < max_errors,
    ensures
        json_report(text, root, Seq::empty(), max_errors) == Seq::<DiagnosticView>::empty(),
        ({
            let longer = json_report(text, root, errors.push(last), max_errors);
            let d = longer.last();
            &&& longer.len() == errors.len() + 1
            &&& longer.drop_last() == json_report(text, root, errors, max_errors)
            &&& d.message == last.message + " (instance path: "@ + last.instance_path + ")"@
            &&& d.severity == Severity::Error && d.source == "cgpt-jsonschema-lsp"@
            &&& match span_at(root, segments(last.instance_path)) {
                Some(span) => d.range == range_of(text, span.0 as int, span.1 as int),
                None => d.range == range_of(text, root.span().0 as int, root.span().1 as int),
            }
        }),
{
    let say = |e: SchemaErrorView| json_error(text, root, e);
    let longer = errors.push(last);
    assert(longer.map_values(say).drop_last() =~= errors.map_values(say));
    valid_instance_gets_empty_report(text, root, max_errors);
}

/// What is said of an error of a YAML text, that its report has room for: all of the error, at the
/// start of the document. Errors that there is no room for change nothing.
pub proof fn yaml_errors_are_said_one_by_one(
    errors: Seq<SchemaErrorView>,
    last: SchemaErrorView,
    max_errors: nat,
)
    ensures
        yaml_report(Seq::empty(), max_errors) == Seq::<DiagnosticView>::empty(),
        errors.len() < max_errors ==> ({
            let longer = yaml_report(errors.push(last), max_errors);
            let d = longer.last();
            &&& longer.len() == errors.len() + 1
            &&& longer.drop_last() == yaml_report(errors, max_errors)
            &&& d.message == last.message + " (instance path: "@ + last.instance_path + ")"@
            &&& d.severity == Severity::Error && d.source == "cgpt-jsonschema-lsp"@
            &&& d.range.start.line == 0 && d.range.start.character == 0
            &&& d.range.end.line == 0 && d.range.end.character == 0
        }),
        errors.len() >= max_errors ==> yaml_report(errors.push(last), max_errors) == yaml_report(
            errors,
            max_errors,
        ),
{
    let say = |e: SchemaErrorView| error_at(Range::origin(), error_message(e));
    let longer = errors.push(last);
    assert(yaml_report(Seq::empty(), max_errors) =~= Seq::empty());
    if errors.len() < max_errors {
        assert(longer.map_values(say).drop_last() =~= errors.map_values(say));
    } else {
        assert(longer.take(max_errors as int) =~= errors.take(max_errors as int));
        assert(errors.take(errors.len() as int) =~= errors);
    }
}

/// A JSON report that leaves errors out says of the first ones what it would say had it room for
/// them alone, and in the last place that it was cut off, at the start of the document. Further
/// errors change nothing.
pub proof fn cut_report_says_what_fits(
    text: Seq<char>,
    root: NodeView,
    kept: Seq<SchemaErrorView>,
    dropped: Seq<SchemaErrorView>,
    max_errors: nat,
)
    requires
        kept.len() + 1 == max_errors,
        dropped.len() >= 2,
    ensures
        ({
            let report = json_report(text, root, kept + dropped, max_errors);
            let note = report.last();
            &&& report.len() == max_errors
            &&& report.drop_last() == json_report(text, root, kept, max_errors)
            &&& note.message == "Too many errors; stopping after "@ + decimal(max_errors)
                + " (use --max-errors to raise)"@
            &&& note.severity == Severity::Error && note.source == "cgpt-jsonschema-lsp"@
            &&& note.range.start.line == 0 && note.range.start.character == 0
            &&& note.range.end.line == 0 && note.range.end.character == 0
        }),
{
    let all = kept + dropped;
    let say = |e: SchemaErrorView| json_error(text, root, e);
    assert(all.take(max_errors - 1) =~= kept);
    assert(json_report(text, root, all, max_errors).drop_last() =~= kept.map_values(say));
}

/// Diagnostics and schema errors are what they hold, and so are lists of them, in order.
pub proof fn diagnostics_are_what_they_hold(
    ds: Seq<Diagnostic>,
    es: Seq<SchemaError>,
    i: int,
    k: int,
)
    requires
        0 <= i < ds.len(),
        0 <= k < es.len(),
    ensures
        diagnostic_views(ds).len() == ds.len(),
        diagnostic_views(ds)[i].range == ds[i].range,
        diagnostic_views(ds)[i].severity == ds[i].severity,
        diagnostic_views(ds)[i].source == ds[i].source@,
        diagnostic_views(ds)[i].message == ds[i].message@,
        error_views(es).len() == es.len(),
        error_views(es)[k].message == es[k].message@,
        error_views(es)[k].instance_path == es[k].instance_path@,
{
}

} // verus!
