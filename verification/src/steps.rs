//! The steps of validating a document. Between them the file system and the network are asked: each
//! step says what it needs to know, and takes the answer.
use std::path::PathBuf;
use std::sync::Arc;

use vstd::prelude::*;

use crate::backend::{said, ValidatedView};
use crate::backend::Validated;
use crate::json::{reference_holds_the_whole_uri, reference_to};
use crate::json::{JsonValue, JsonView};
use crate::report::SchemaError;
use crate::json_tree::NodeView;
use crate::report::{
    can_find, diagnostic_views, error_views, json_report, yaml_report, DiagnosticView,
    SchemaErrorView,
};
use crate::schema::{
    fresh, keeps, url_fits, resolve_message, resolved, schema_path_in, watched_path, CacheEntry,
    ResolveErrorView,
};
use crate::schema::{schema_path, try_resolve_schema_uri, watched_file, CacheAnswer, SchemaCache};
use crate::text::concat;
use crate::uri::path_view;
use crate::validate::{
    document_outcome, document_report, validate_message, OutcomeView, PendingView,
    ValidateErrorView,
};
use crate::validate::{validate_document, Outcome, PendingValidation, StoredDocument};

verus! {

/// What is to be done next about a document.
#[derive(Debug)]
pub enum Step {
    /// Nothing: this came of it.
    Say(Validated),
    /// To find the canonical form of the path of its schema.
    Locate(Locating),
    /// To find when the file of its schema was changed.
    Look(Looking),
    /// To compile its schema.
    Compile(Compiling),
    /// To check it against its schema.
    Check(Checking),
}

/// A document whose schema is to be located. There is a path where the schema is a file.
#[derive(Debug)]
pub struct Locating {
    pub uri: String,
    pub pending: PendingValidation,
    pub path: Option<PathBuf>,
}

/// A document whose schema is to be looked up. There is a file where the schema is one.
#[derive(Debug)]
pub struct Looking {
    pub pending: PendingValidation,
    pub schema_uri: String,
    pub file: Option<PathBuf>,
}

/// A document whose schema is to be compiled from one that refers to it.
#[derive(Debug)]
pub struct Compiling {
    pub pending: PendingValidation,
    pub schema_uri: String,
    pub root_mtime: Option<i128>,
    pub schema: JsonValue,
}

/// A document that is to be checked against its compiled schema.
#[derive(Debug)]
pub struct Checking {
    pub pending: PendingValidation,
    pub validator: Arc<jsonschema::Validator>,
    pub max_errors: usize,
}

/// What is to be done next about a document.
pub ghost enum StepView {
    Say(ValidatedView),
    Locate(LocatingView),
    Look(LookingView),
    Compile(CompilingView),
    Check(CheckingView),
}

/// A document whose schema is to be located.
pub ghost struct LocatingView {
    pub uri: Seq<char>,
    pub pending: PendingView,
    pub path: Option<Seq<u8>>,
}

/// A document whose schema is to be looked up.
pub ghost struct LookingView {
    pub pending: PendingView,
    pub schema_uri: Seq<char>,
    pub file: Option<Seq<u8>>,
}

/// A document whose schema is to be compiled.
pub ghost struct CompilingView {
    pub pending: PendingView,
    pub schema_uri: Seq<char>,
    pub root_mtime: Option<i128>,
    pub schema: JsonView,
}

/// A document that is to be checked against its compiled schema.
pub ghost struct CheckingView {
    pub pending: PendingView,
    pub validator: jsonschema::Validator,
    pub max_errors: nat,
}

impl View for Step {
    type V = StepView;

    open spec fn view(&self) -> StepView {
        match self {
            Step::Say(validated) => StepView::Say(validated@),
            Step::Locate(locating) => StepView::Locate(locating@),
            Step::Look(looking) => StepView::Look(looking@),
            Step::Compile(compiling) => StepView::Compile(compiling@),
            Step::Check(checking) => StepView::Check(checking@),
        }
    }
}

impl View for Locating {
    type V = LocatingView;

    open spec fn view(&self) -> LocatingView {
        LocatingView { uri: self.uri@, pending: self.pending@, path: path_view(self.path) }
    }
}

impl View for Looking {
    type V = LookingView;

    open spec fn view(&self) -> LookingView {
        LookingView {
            pending: self.pending@,
            schema_uri: self.schema_uri@,
            file: path_view(self.file),
        }
    }
}

impl View for Compiling {
    type V = CompilingView;

    open spec fn view(&self) -> CompilingView {
        CompilingView {
            pending: self.pending@,
            schema_uri: self.schema_uri@,
            root_mtime: self.root_mtime,
            schema: self.schema@,
        }
    }
}

impl View for Checking {
    type V = CheckingView;

    open spec fn view(&self) -> CheckingView {
        CheckingView {
            pending: self.pending@,
            validator: *self.validator,
            max_errors: self.max_errors as nat,
        }
    }
}

/// The first step, given what the document comes to without its schema: to locate the schema where
/// it names one.
pub open spec fn first_step(
    uri: Seq<char>,
    outcome: Result<OutcomeView, ValidateErrorView>,
) -> StepView {
    match outcome {
        Err(e) => StepView::Say(ValidatedView::Failed(validate_message(e))),
        Ok(OutcomeView::Finished(diagnostics)) => StepView::Say(ValidatedView::Done(diagnostics)),
        Ok(OutcomeView::Pending(pending)) => match schema_path_in(uri, pending.schema) {
            Err(e) => StepView::Say(ValidatedView::Failed(resolve_message(e))),
            Ok(path) => StepView::Locate(LocatingView { uri, pending, path }),
        },
    }
}

/// The step once the canonical form of the path is known, where there is one: to look the schema
/// up.
pub open spec fn step_when_located(l: LocatingView, canonical: Option<Seq<u8>>) -> StepView {
    match resolved(l.uri, l.pending.schema, canonical) {
        Err(e) => StepView::Say(ValidatedView::Failed(resolve_message(e))),
        Ok(schema_uri) => StepView::Look(
            LookingView { pending: l.pending, schema_uri, file: watched_path(schema_uri) },
        ),
    }
}

/// What comes of a document in which its compiled schema finds given errors.
pub open spec fn checked(c: CheckingView, errors: Seq<SchemaErrorView>) -> ValidatedView {
    ValidatedView::Done(document_report(c.pending, errors, c.max_errors))
}

/// The step once the time of change of the file is known, where there is one: to check the document
/// where its schema is at hand, and else to compile that.
pub open spec fn step_when_looked_up(
    l: LookingView,
    cache: Map<Seq<char>, CacheEntry>,
    max_errors: nat,
    root_mtime: Option<i128>,
) -> StepView {
    match fresh(cache, l.schema_uri, root_mtime) {
        Some(validator) => StepView::Check(
            CheckingView { pending: l.pending, validator: *validator, max_errors },
        ),
        None => StepView::Compile(
            CompilingView {
                pending: l.pending,
                schema_uri: l.schema_uri,
                root_mtime,
                schema: reference_to(l.schema_uri),
            },
        ),
    }
}

/// The message of a schema that could not be compiled.
pub open spec fn compile_message(schema_uri: Seq<char>, cause: Seq<char>) -> Seq<char> {
    "build schema validator for "@ + schema_uri + ": "@ + cause
}

/// The first step of validating a document.
pub fn begin(uri: &str, doc: &StoredDocument) -> (r: Step)
    ensures
        r@ == first_step(uri@, document_outcome(uri@, *doc)),
{
    let pending = match validate_document(uri, doc) {
        Err(e) => {
            return Step::Say(Validated::Failed(e.message()));
        },
        Ok(Outcome::Finished(diagnostics)) => {
            return Step::Say(Validated::Done(diagnostics));
        },
        Ok(Outcome::Pending(pending)) => pending,
    };
    match schema_path(uri, pending.schema.as_str()) {
        Err(e) => Step::Say(Validated::Failed(e.message())),
        Ok(path) => Step::Locate(Locating { uri: uri.to_string(), pending, path }),
    }
}

impl Locating {
    /// The step once the canonical form of the path is known, where there is one. There is none
    /// where the URL of the file is too long for its fragment.
    pub fn located(self, canonical: Option<PathBuf>) -> (r: Option<Step>)
        ensures
            match r {
                Some(step) => url_fits(self.uri@, self.pending.schema@, path_view(canonical))
                    && step@ == step_when_located(self@, path_view(canonical)),
                None => !url_fits(self.uri@, self.pending.schema@, path_view(canonical)),
            },
    {
        let schema_uri = match try_resolve_schema_uri(
            self.uri.as_str(),
            self.pending.schema.as_str(),
            canonical,
        ) {
            None => {
                return None;
            },
            Some(Err(e)) => {
                return Some(Step::Say(Validated::Failed(e.message())));
            },
            Some(Ok(schema_uri)) => schema_uri,
        };
        let file = watched_file(schema_uri.as_str());
        Some(Step::Look(Looking { pending: self.pending, schema_uri, file }))
    }
}

impl Looking {
    /// The step once the time of change of the file is known, where there is one.
    pub fn looked_up(self, cache: &SchemaCache, root_mtime: Option<i128>) -> (r: Step)
        ensures
            r@ == step_when_looked_up(self@, cache@, cache.cfg.max_errors as nat, root_mtime),
    {
        match cache.validator_for_schema_uri(self.schema_uri.as_str(), root_mtime) {
            CacheAnswer::Ready(validator) => Step::Check(
                Checking { pending: self.pending, validator, max_errors: cache.cfg.max_errors },
            ),
            CacheAnswer::Build(schema) => Step::Compile(
                Compiling {
                    pending: self.pending,
                    schema_uri: self.schema_uri,
                    root_mtime,
                    schema,
                },
            ),
        }
    }
}

impl Compiling {
    /// The step once the schema is compiled, or the message why it is not. A compiled schema is
    /// kept, as far as any are, and the document is checked against it in any case.
    pub fn compiled(
        self,
        cache: &mut SchemaCache,
        built: Result<Arc<jsonschema::Validator>, String>,
    ) -> (r: Step)
        ensures
            final(cache).cfg == old(cache).cfg,
            match built {
                Ok(validator) => {
                    &&& r@ == StepView::Check(
                        CheckingView {
                            pending: self.pending@,
                            validator: *validator,
                            max_errors: old(cache).cfg.max_errors as nat,
                        },
                    )
                    &&& keeps(
                        old(cache)@,
                        final(cache)@,
                        self.schema_uri@,
                        (CacheEntry { validator, root_mtime: self.root_mtime }),
                        old(cache).cfg.schema_cache_size as nat,
                    )
                },
                Err(cause) => {
                    &&& r@ == StepView::Say(
                        ValidatedView::Failed(compile_message(self.schema_uri@, cause@)),
                    )
                    &&& final(cache)@ == old(cache)@
                },
            },
    {
        match built {
            Ok(validator) => {
                cache.store_validator(self.schema_uri.as_str(), self.root_mtime, validator.clone());
                Step::Check(
                    Checking { pending: self.pending, validator, max_errors: cache.cfg.max_errors },
                )
            },
            Err(cause) => {
                let head = concat("build schema validator for ", self.schema_uri.as_str());
                let message = concat(concat(head.as_str(), ": ").as_str(), cause.as_str());
                Step::Say(Validated::Failed(message))
            },
        }
    }
}

impl Checking {
    /// What comes of the document, given the errors that its schema finds.
    pub fn report(&self, errors: &Vec<SchemaError>) -> (r: Validated)
        ensures
            r@ == checked(self@, error_views(errors@)),
    {
        Validated::Done(self.pending.report(errors, self.max_errors))
    }

    /// What comes of the document, with errors that its schema can find in it. Which of them are found
    /// can differ between two calls.
    pub fn check(&self) -> (r: Validated)
        ensures
            exists|errors: Seq<SchemaErrorView>|
                can_find(self@.validator, self@.pending.instance, errors) && r@
                    == #[trigger] checked(self@, errors),
            r matches Validated::Done(diagnostics) && diagnostics@.len() <= self.max_errors,
    {
        let diagnostics = self.pending.validate(&self.validator, self.max_errors);
        proof {
            let max = self.max_errors as nat;
            let errors = choose|errors: Seq<SchemaErrorView>|
                can_find(*self.validator, self.pending@.instance, errors) && diagnostic_views(
                    diagnostics@,
                ) == #[trigger] document_report(self.pending@, errors, max);
            assert(checked(self@, errors) == ValidatedView::Done(diagnostic_views(diagnostics@)));
        }
        Validated::Done(diagnostics)
    }
}

/// A schema that was compiled is at hand as long as its file stays as it was, where any schema is
/// kept: another document with the same schema is checked against it right away.
pub proof fn compiled_schema_serves_again(
    before: Map<Seq<char>, CacheEntry>,
    after: Map<Seq<char>, CacheEntry>,
    entry: CacheEntry,
    size: nat,
    l: LookingView,
    max_errors: nat,
)
    requires
        keeps(before, after, l.schema_uri, entry, size),
        size > 0,
    ensures
        step_when_looked_up(l, after, max_errors, entry.root_mtime) == StepView::Check(
            CheckingView { pending: l.pending, validator: *entry.validator, max_errors },
        ),
{
}

/// A schema whose file has changed since it was compiled is compiled again.
pub proof fn changed_schema_is_compiled_again(
    before: Map<Seq<char>, CacheEntry>,
    after: Map<Seq<char>, CacheEntry>,
    entry: CacheEntry,
    size: nat,
    l: LookingView,
    max_errors: nat,
    root_mtime: Option<i128>,
)
    requires
        keeps(before, after, l.schema_uri, entry, size),
        root_mtime != entry.root_mtime,
    ensures
        step_when_looked_up(l, after, max_errors, root_mtime) is Compile,
{
}

/// Nothing is said of a document exactly where its schema finds nothing wrong with it, unless
/// nothing may be said at all.
pub proof fn nothing_is_said_of_valid_documents_alone(
    c: CheckingView,
    found: Seq<SchemaErrorView>,
)
    requires
        c.max_errors > 0,
    ensures
        said(checked(c, found)) == Seq::<DiagnosticView>::empty() <==> found == Seq::<
            SchemaErrorView,
        >::empty(),
{
    if found == Seq::<SchemaErrorView>::empty() {
        assert(document_report(c.pending, found, c.max_errors) =~= Seq::empty());
    } else if found.len() == 0 {
        assert(found =~= Seq::empty());
    } else {
        assert(document_report(c.pending, found, c.max_errors).len() > 0);
    }
}

/// A document whose schema cannot be named, or that names none, asks for nothing outside: what
/// there is to say of it is said at once.
pub proof fn document_without_schema_asks_nothing(
    uri: Seq<char>,
    outcome: Result<OutcomeView, ValidateErrorView>,
)
    requires
        !(outcome matches Ok(OutcomeView::Pending(_))),
    ensures
        first_step(uri, outcome) is Say,
        outcome matches Ok(OutcomeView::Finished(diagnostics)) ==> first_step(uri, outcome)
            == StepView::Say(ValidatedView::Done(diagnostics)),
{
}

/// A document that names a schema takes all that is to be validated of it along, with its own URI
/// and the path of that schema. What keeps it from being validated is said with the whole message.
pub proof fn first_step_takes_all_along(
    uri: Seq<char>,
    pending: PendingView,
    path: Option<Seq<u8>>,
    e: ResolveErrorView,
    failure: ValidateErrorView,
    diagnostics: Seq<DiagnosticView>,
)
    ensures
        schema_path_in(uri, pending.schema) == Ok::<Option<Seq<u8>>, ResolveErrorView>(path)
            ==> first_step(uri, Ok(OutcomeView::Pending(pending))) == StepView::Locate(
            LocatingView { uri, pending, path },
        ),
        schema_path_in(uri, pending.schema) == Err::<Option<Seq<u8>>, ResolveErrorView>(e)
            ==> first_step(uri, Ok(OutcomeView::Pending(pending))) == StepView::Say(
            ValidatedView::Failed(resolve_message(e)),
        ),
        first_step(uri, Err(failure)) == StepView::Say(
            ValidatedView::Failed(validate_message(failure)),
        ),
        first_step(uri, Ok(OutcomeView::Finished(diagnostics))) == StepView::Say(
            ValidatedView::Done(diagnostics),
        ),
{
}

/// Once its schema is located, a document takes all that is to be validated of it along, with the URI
/// that its own schema text is resolved to and the file that this URI names.
pub proof fn located_step_takes_all_along(
    l: LocatingView,
    canonical: Option<Seq<u8>>,
    schema_uri: Seq<char>,
    e: ResolveErrorView,
)
    ensures
        resolved(l.uri, l.pending.schema, canonical) == Ok::<Seq<char>, ResolveErrorView>(schema_uri)
            ==> (step_when_located(l, canonical) matches StepView::Look(next) && next.pending
            == l.pending && next.schema_uri == schema_uri && next.file == watched_path(schema_uri)),
        resolved(l.uri, l.pending.schema, canonical) == Err::<Seq<char>, ResolveErrorView>(e)
            ==> step_when_located(l, canonical) == StepView::Say(
            ValidatedView::Failed(resolve_message(e)),
        ),
{
}

/// Once its schema is looked up, a document takes all that is to be validated of it along. It is
/// checked against the compiled schema that is kept under the same URI for the same time of change,
/// up to the maximum that was set. Without one, a schema is compiled whose one member `$ref` holds
/// the whole URI, to be kept under that URI and for that time.
pub proof fn looked_up_step_takes_all_along(
    l: LookingView,
    cache: Map<Seq<char>, CacheEntry>,
    entry: CacheEntry,
    max_errors: nat,
    root_mtime: Option<i128>,
)
    ensures
        root_mtime == entry.root_mtime ==> step_when_looked_up(
            l,
            cache.insert(l.schema_uri, entry),
            max_errors,
            root_mtime,
        ) == StepView::Check(
            CheckingView { pending: l.pending, validator: *entry.validator, max_errors },
        ),
        !cache.contains_key(l.schema_uri) || cache[l.schema_uri].root_mtime != root_mtime ==> (
        step_when_looked_up(l, cache, max_errors, root_mtime) matches StepView::Compile(next)
            && next.pending == l.pending && next.schema_uri == l.schema_uri && next.root_mtime
            == root_mtime && (next.schema matches JsonView::Object(members) && members.len() == 1
            && members[0].0 == "$ref"@ && members[0].1 == JsonView::Text(l.schema_uri))),
{
    reference_holds_the_whole_uri(l.schema_uri, l.schema_uri);
}

/// The message of a schema that could not be compiled holds its URI and the cause, whole.
pub proof fn compile_message_holds_uri_and_cause(schema_uri: Seq<char>, cause: Seq<char>)
    ensures
        compile_message(schema_uri, cause) == "build schema validator for "@ + schema_uri + ": "@
            + cause,
{
}

/// What is said of a document that was checked is the report on the errors that its schema finds, as
/// many as the maximum allows: every diagnostic of it, in order, and no other.
pub proof fn all_of_the_report_is_said(
    c: CheckingView,
    errors: Seq<SchemaErrorView>,
    text: Seq<char>,
    root: NodeView,
)
    ensures
        said(checked(c, errors)) == document_report(c.pending, errors, c.max_errors),
        c.pending.source == Some((text, root)) ==> said(checked(c, errors)) == json_report(
            text,
            root,
            errors,
            c.max_errors,
        ),
        c.pending.source is None ==> said(checked(c, errors)) == yaml_report(errors, c.max_errors),
        errors.len() <= c.max_errors ==> said(checked(c, errors)).len() == errors.len(),
        errors.len() >= c.max_errors ==> said(checked(c, errors)).len() == c.max_errors,
{
}

/// Of a document that is answered without its schema, all diagnostics are said; of one that cannot be
/// validated, one error says why.
pub proof fn first_answers_are_said_whole(
    uri: Seq<char>,
    diagnostics: Seq<DiagnosticView>,
    failure: ValidateErrorView,
)
    ensures
        first_step(uri, Ok(OutcomeView::Finished(diagnostics))) matches StepView::Say(v) && said(v)
            == diagnostics,
        first_step(uri, Err(failure)) matches StepView::Say(v) && said(v).len() == 1
            && said(v)[0].message == "validator failure: "@ + validate_message(failure),
{
}

/// A document goes from step to step with the same value, source and schema text.
pub proof fn pending_document_stays_the_same(
    uri: Seq<char>,
    pending: PendingView,
    canonical: Option<Seq<u8>>,
    cache: Map<Seq<char>, CacheEntry>,
    max_errors: nat,
    root_mtime: Option<i128>,
)
    ensures
        first_step(uri, Ok(OutcomeView::Pending(pending))) matches StepView::Locate(a) ==> a.pending
            == pending && a.uri == uri && (step_when_located(a, canonical) matches StepView::Look(b)
            ==> b.pending == pending && match step_when_looked_up(b, cache, max_errors, root_mtime) {
            StepView::Check(c) => c.pending == pending && c.max_errors == max_errors,
            StepView::Compile(c) => c.pending == pending && c.schema_uri == b.schema_uri
                && c.root_mtime == root_mtime,
            _ => false,
        }),
{
}

/// Steps are what they hold.
pub proof fn steps_are_what_they_hold(
    validated: Validated,
    locating: Locating,
    looking: Looking,
    compiling: Compiling,
    checking: Checking,
)
    ensures
        Step::Say(validated)@ == StepView::Say(validated@),
        Step::Locate(locating)@ == StepView::Locate(
            LocatingView {
                uri: locating.uri@,
                pending: locating.pending@,
                path: path_view(locating.path),
            },
        ),
        Step::Look(looking)@ == StepView::Look(
            LookingView {
                pending: looking.pending@,
                schema_uri: looking.schema_uri@,
                file: path_view(looking.file),
            },
        ),
        Step::Compile(compiling)@ == StepView::Compile(
            CompilingView {
                pending: compiling.pending@,
                schema_uri: compiling.schema_uri@,
                root_mtime: compiling.root_mtime,
                schema: compiling.schema@,
            },
        ),
        Step::Check(checking)@ == StepView::Check(
            CheckingView {
                pending: checking.pending@,
                validator: *checking.validator,
                max_errors: checking.max_errors as nat,
            },
        ),
{
}

} // verus!
