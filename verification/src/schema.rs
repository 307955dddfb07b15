//! Where a schema is, how it is read, and which compiled schemas are kept.
use std::path::PathBuf;
use std::sync::Arc;

use vstd::prelude::*;
use vstd::utf8::*;

use crate::json::{json_in_bytes, parse_json_bytes, reference_schema, reference_to};
use crate::json::{member, JsonValue, JsonView};
use crate::table::Table;
use crate::text::{chars_of, concat, find_from, part_of, starts_with, string_of, trim};
use crate::text::{
    find_first, has_prefix, has_suffix, lemma_find_first, lemma_find_first_is, lemma_trimmed,
    prefixes_and_suffixes_are_parts, trimmed,
};
use crate::uri::{
    parse_url, path_is_absolute, path_join, path_of_text, path_parent, path_shown,
    path_to_file_url, url_to_file_path, UrlParts,
};
use crate::uri::{
    absolute_path, file_path_of, file_url_of, fragment_view, joined_path, parent_path, path_bytes, path_view,
    plain_fragment, shown_path, takes_fragment, url_in_text, visible, UrlView,
};
use crate::yaml_json::{
    convert_message, parse_yaml_bytes, yaml_in_bytes, yaml_json, yaml_to_json_value,
    ConvertErrorView, YamlValue, YamlView,
};

verus! {

/// What the server is told when it starts.
#[derive(Debug, Clone, Copy)]
pub struct ServerConfig {
    /// Whether `format` is checked.
    pub validate_formats: bool,
    /// The largest number of diagnostics in a report.
    pub max_errors: usize,
    /// The largest number of compiled schemas that are kept.
    pub schema_cache_size: usize,
}

/// What a `$schema` text refers to.
#[derive(Debug, PartialEq, Eq)]
pub enum SchemaReference {
    /// A URI, which is used as it is.
    Uri(String),
    /// A file, absolute or relative to the document, and the fragment behind it.
    Local(String, Option<String>),
}

/// What a reference is.
pub ghost enum ReferenceView {
    Uri(Seq<char>),
    Local(Seq<char>, Option<Seq<char>>),
}

impl View for SchemaReference {
    type V = ReferenceView;

    open spec fn view(&self) -> ReferenceView {
        match self {
            SchemaReference::Uri(s) => ReferenceView::Uri(s@),
            SchemaReference::Local(s, f) => ReferenceView::Local(s@, fragment_view(*f)),
        }
    }
}

/// Why a `$schema` text has no URI.
#[derive(Debug, PartialEq, Eq)]
pub enum ResolveError {
    /// There is nothing in it but white space.
    Empty,
    /// The document, whose URI this is, is no file.
    NotAFile(String),
    /// The path of the document, as shown here, has no directory.
    NoParent(String),
    /// The path of the schema, as shown here, has no URL.
    NotConvertible(String),
}

/// What a failed resolution says.
pub ghost enum ResolveErrorView {
    Empty,
    NotAFile(Seq<char>),
    NoParent(Seq<char>),
    NotConvertible(Seq<char>),
}

impl View for ResolveError {
    type V = ResolveErrorView;

    open spec fn view(&self) -> ResolveErrorView {
        match self {
            ResolveError::Empty => ResolveErrorView::Empty,
            ResolveError::NotAFile(s) => ResolveErrorView::NotAFile(s@),
            ResolveError::NoParent(s) => ResolveErrorView::NoParent(s@),
            ResolveError::NotConvertible(s) => ResolveErrorView::NotConvertible(s@),
        }
    }
}

/// The message of a failed resolution.
pub open spec fn resolve_message(e: ResolveErrorView) -> Seq<char> {
    match e {
        ResolveErrorView::Empty => "empty $schema"@,
        ResolveErrorView::NotAFile(uri) => "instance is not a file:// URI: "@ + uri,
        ResolveErrorView::NoParent(path) => "instance has no parent dir: "@ + path,
        ResolveErrorView::NotConvertible(path) => "failed to convert to file:// URL: "@ + path,
    }
}

impl ResolveError {
    /// The message of the error.
    pub fn message(&self) -> (r: String)
        ensures
            r@ == resolve_message(self@),
    {
        match self {
            ResolveError::Empty => "empty $schema".to_string(),
            ResolveError::NotAFile(uri) => concat("instance is not a file:// URI: ", uri.as_str()),
            ResolveError::NoParent(path) => concat("instance has no parent dir: ", path.as_str()),
            ResolveError::NotConvertible(path) => concat(
                "failed to convert to file:// URL: ",
                path.as_str(),
            ),
        }
    }
}

/// Whether a reference is a URI that is used as it is.
pub open spec fn absolute(reference: Seq<char>) -> bool {
    ||| has_prefix(reference, "http://"@)
    ||| has_prefix(reference, "https://"@)
    ||| has_prefix(reference, "file://"@)
}

/// What a `$schema` text refers to: nothing where it is blank, the text without the white space
/// around it where that is absolute, and else the file named before the first `#`, with the
/// fragment behind that.
pub open spec fn reference_in(raw: Seq<char>) -> Option<ReferenceView> {
    let t = trimmed(raw);
    let n = find_first(t, '#');
    if t.len() == 0 {
        None
    } else if absolute(t) {
        Some(ReferenceView::Uri(t))
    } else if n < t.len() {
        Some(ReferenceView::Local(t.take(n), Some(t.skip(n + 1))))
    } else {
        Some(ReferenceView::Local(t, None))
    }
}

/// What a `$schema` text refers to, where it is not blank.
pub fn split_reference(raw: &str) -> (r: Option<SchemaReference>)
    ensures
        match r {
            Some(reference) => reference_in(raw@) == Some(reference@),
            None => reference_in(raw@) is None,
        },
{
    let chars = trim(&chars_of(raw));
    if chars.len() == 0 {
        return None;
    }
    if starts_with(&chars, "http://") || starts_with(&chars, "https://") || starts_with(
        &chars,
        "file://",
    ) {
        return Some(SchemaReference::Uri(string_of(&chars)));
    }
    let n = find_from(&chars, 0, '#');
    proof {
        assert(chars@.skip(0) =~= chars@);
        assert(chars@.take(n as int) =~= chars@.subrange(0, n as int));
        lemma_find_first(chars@, '#');
    }
    if n < chars.len() {
        assert(chars@.skip(n + 1) =~= chars@.subrange(n + 1, chars@.len() as int));
        let path = string_of(&part_of(&chars, 0, n));
        let fragment = string_of(&part_of(&chars, n + 1, chars.len()));
        Some(SchemaReference::Local(path, Some(fragment)))
    } else {
        Some(SchemaReference::Local(string_of(&chars), None))
    }
}

/// The path of a file that a document refers to: absolute, or relative to the directory of the
/// document.
pub open spec fn path_beside(instance: Seq<char>, path: Seq<char>) -> Result<
    Seq<u8>,
    ResolveErrorView,
> {
    match file_path_of(instance) {
        None => Err(ResolveErrorView::NotAFile(instance)),
        Some(base) => match parent_path(base) {
            None => Err(ResolveErrorView::NoParent(shown_path(base))),
            Some(directory) => if absolute_path(encode_utf8(path)) {
                Ok(encode_utf8(path))
            } else {
                Ok(joined_path(directory, encode_utf8(path)))
            },
        },
    }
}

/// The path of a file that a document refers to.
fn local_path(instance_uri: &str, path: &str) -> (r: Result<PathBuf, ResolveError>)
    ensures
        match r {
            Ok(p) => path_beside(instance_uri@, path@) == Ok::<Seq<u8>, ResolveErrorView>(
                path_bytes(p),
            ),
            Err(e) => path_beside(instance_uri@, path@) == Err::<Seq<u8>, ResolveErrorView>(e@),
        },
{
    let base = match url_to_file_path(instance_uri) {
        Some(base) => base,
        None => {
            return Err(ResolveError::NotAFile(instance_uri.to_string()));
        },
    };
    match path_parent(&base) {
        Some(directory) => {
            let named = path_of_text(path);
            if path_is_absolute(&named) {
                Ok(named)
            } else {
                Ok(path_join(&directory, &named))
            }
        },
        None => Err(ResolveError::NoParent(path_shown(&base))),
    }
}

/// The path of the file that the schema is in, where the `$schema` text names one.
pub open spec fn schema_path_in(instance: Seq<char>, raw: Seq<char>) -> Result<
    Option<Seq<u8>>,
    ResolveErrorView,
> {
    match reference_in(raw) {
        None => Err(ResolveErrorView::Empty),
        Some(ReferenceView::Uri(_)) => Ok(None),
        Some(ReferenceView::Local(path, _)) => match path_beside(instance, path) {
            Ok(p) => Ok(Some(p)),
            Err(e) => Err(e),
        },
    }
}

/// The path of the file that the schema is in, before it is made canonical, where the `$schema`
/// text names a file.
pub fn schema_path(instance_uri: &str, raw_schema: &str) -> (r: Result<Option<PathBuf>, ResolveError>)
    ensures
        match r {
            Ok(p) => schema_path_in(instance_uri@, raw_schema@) == Ok::<
                Option<Seq<u8>>,
                ResolveErrorView,
            >(path_view(p)),
            Err(e) => schema_path_in(instance_uri@, raw_schema@) == Err::<
                Option<Seq<u8>>,
                ResolveErrorView,
            >(e@),
        },
{
    match split_reference(raw_schema) {
        None => Err(ResolveError::Empty),
        Some(SchemaReference::Uri(_uri)) => Ok(None),
        Some(SchemaReference::Local(path, _fragment)) => match local_path(
            instance_uri,
            path.as_str(),
        ) {
            Ok(p) => Ok(Some(p)),
            Err(e) => Err(e),
        },
    }
}

/// The URL of a schema file with the fragment of the reference to it.
pub open spec fn file_schema_uri(path: Seq<u8>, fragment: Option<Seq<char>>) -> Result<
    Seq<char>,
    ResolveErrorView,
> {
    match file_url_of(path, fragment) {
        Some(url) => Ok(url),
        None => Err(ResolveErrorView::NotConvertible(shown_path(path))),
    }
}

/// Whether the URL of the file that a `$schema` text names is short enough for a fragment, where
/// there is a fragment behind it.
pub open spec fn url_fits(instance: Seq<char>, raw: Seq<char>, canonical: Option<Seq<u8>>) -> bool {
    match reference_in(raw) {
        Some(ReferenceView::Local(path, Some(_))) => match (path_beside(instance, path), canonical) {
            (Ok(_), Some(c)) => takes_fragment(file_url_of(c, None)),
            (Ok(p), None) => takes_fragment(file_url_of(p, None)),
            (Err(_), _) => true,
        },
        _ => true,
    }
}

/// The URI of the schema that a document names: a URI as it is, and a file by the URL of its
/// canonical path, or of its path where it has no canonical one.
pub open spec fn resolved(
    instance: Seq<char>,
    raw: Seq<char>,
    canonical: Option<Seq<u8>>,
) -> Result<Seq<char>, ResolveErrorView> {
    match reference_in(raw) {
        None => Err(ResolveErrorView::Empty),
        Some(ReferenceView::Uri(uri)) => Ok(uri),
        Some(ReferenceView::Local(path, fragment)) => match path_beside(instance, path) {
            Err(e) => Err(e),
            Ok(p) => file_schema_uri(
                match canonical {
                    Some(c) => c,
                    None => p,
                },
                fragment,
            ),
        },
    }
}

/// Whether a URI ends with the fragment of the reference to a file, where that fragment needs no
/// escape.
pub open spec fn keeps_plain_fragment(raw: Seq<char>, uri: Seq<char>) -> bool {
    match reference_in(raw) {
        Some(ReferenceView::Local(_, Some(fragment))) => plain_fragment(fragment) ==> has_suffix(
            uri,
            seq!['#'] + fragment,
        ),
        _ => true,
    }
}

/// What a resolution came to.
pub open spec fn resolution(r: Result<String, ResolveError>) -> Result<Seq<char>, ResolveErrorView> {
    match r {
        Ok(uri) => Ok(uri@),
        Err(e) => Err(e@),
    }
}

/// Resolves a `$schema` text of a document to a URI that the schema can be fetched from.
///
/// A URI stays as it is. A file becomes a file URL: that of `canonical`, which is the canonical
/// form of its `schema_path` where the file exists, and else that of the path itself. The fragment
/// behind the file is kept.
pub fn resolve_schema_uri(
    instance_uri: &str,
    raw_schema: &str,
    canonical: Option<PathBuf>,
) -> (r: Result<String, ResolveError>)
    requires
        url_fits(instance_uri@, raw_schema@, path_view(canonical)),
    ensures
        resolution(r) == resolved(instance_uri@, raw_schema@, path_view(canonical)),
        r matches Ok(uri) ==> absolute(uri@),
        r matches Ok(uri) ==> keeps_plain_fragment(raw_schema@, uri@),
        r matches Ok(uri) ==> settled(uri@),
{
    match split_reference(raw_schema) {
        None => Err(ResolveError::Empty),
        Some(SchemaReference::Uri(uri)) => {
            proof {
                resolving_uri_twice(raw_schema@);
            }
            Ok(uri)
        },
        Some(SchemaReference::Local(path, fragment)) => {
            let local = match local_path(instance_uri, path.as_str()) {
                Ok(p) => p,
                Err(e) => {
                    return Err(e);
                },
            };
            let target = match canonical {
                Some(c) => c,
                None => local,
            };
            match path_to_file_url(&target, &fragment) {
                Some(url) => {
                    proof {
                        resolving_file_url_again(url@);
                        if let Some(f) = fragment_view(fragment) {
                            if plain_fragment(f) {
                                let bare = file_url_of(path_bytes(target), None)->Some_0;
                                assert(url@.skip(bare.len() as int) =~= seq!['#'] + f);
                            }
                        }
                    }
                    Ok(url)
                },
                None => Err(ResolveError::NotConvertible(path_shown(&target))),
            }
        },
    }
}

/// Resolves a `$schema` text of a document, or gives nothing where the URL of the file that it names
/// is too long for the fragment behind it.
pub fn try_resolve_schema_uri(
    instance_uri: &str,
    raw_schema: &str,
    canonical: Option<PathBuf>,
) -> (r: Option<Result<String, ResolveError>>)
    ensures
        match r {
            Some(resolved_uri) => url_fits(instance_uri@, raw_schema@, path_view(canonical))
                && resolution(resolved_uri) == resolved(
                instance_uri@,
                raw_schema@,
                path_view(canonical),
            ),
            None => !url_fits(instance_uri@, raw_schema@, path_view(canonical)),
        },
        r matches Some(Ok(uri)) ==> absolute(uri@) && keeps_plain_fragment(raw_schema@, uri@)
            && settled(uri@),
{
    if let Some(SchemaReference::Local(path, Some(_))) = split_reference(raw_schema) {
        if let Ok(local) = local_path(instance_uri, path.as_str()) {
            let bare = match &canonical {
                Some(c) => path_to_file_url(c, &None),
                None => path_to_file_url(&local, &None),
            };
            if let Some(url) = bare {
                if url.as_str().as_bytes().len() > u32::MAX as usize {
                    return None;
                }
            }
        }
    }
    Some(resolve_schema_uri(instance_uri, raw_schema, canonical))
}

/// A URI in a `$schema` text stays as it is, wherever the document is.
pub proof fn absolute_uri_stays(instance: Seq<char>, raw: Seq<char>, canonical: Option<Seq<u8>>)
    requires
        absolute(trimmed(raw)),
    ensures
        resolved(instance, raw, canonical) == Ok::<Seq<char>, ResolveErrorView>(trimmed(raw)),
        schema_path_in(instance, raw) == Ok::<Option<Seq<u8>>, ResolveErrorView>(None),
{
    reveal_strlit("http://");
    reveal_strlit("https://");
    reveal_strlit("file://");
}

/// Whether a URI is what it resolves to, in every document.
pub open spec fn settled(uri: Seq<char>) -> bool {
    forall|instance: Seq<char>, canonical: Option<Seq<u8>>|
        #[trigger] resolved(instance, uri, canonical) == Ok::<Seq<char>, ResolveErrorView>(uri)
}

/// Resolving a URI that came out of a `$schema` text gives the same URI again, in every document.
pub proof fn resolving_uri_twice(raw: Seq<char>)
    requires
        absolute(trimmed(raw)),
    ensures
        settled(trimmed(raw)),
{
    let uri = trimmed(raw);
    lemma_trimmed(raw);
    assert forall|instance: Seq<char>, canonical: Option<Seq<u8>>|
        #[trigger] resolved(instance, uri, canonical) == Ok::<Seq<char>, ResolveErrorView>(uri) by {
        absolute_uri_stays(instance, uri, canonical);
    }
}

/// Resolving the URL of a file, with a fragment or without one, gives the same URL again, in every
/// document.
pub proof fn resolving_file_url_again(url: Seq<char>)
    requires
        has_prefix(url, "file://"@),
        visible(url),
    ensures
        settled(url),
{
    reveal_strlit("file://");
    assert('!' <= url[0] <= '~');
    assert('!' <= url[url.len() - 1] <= '~');
    assert(trimmed(url) == url);
    resolving_uri_twice(url);
}

/// A path in a `$schema` text, with the fragment behind it, is taken as it is where it is absolute,
/// and else from the directory of the document: the URI is that of the canonical form of the path where there is one, and else of the
/// path itself.
pub proof fn path_is_taken_beside_document(
    instance: Seq<char>,
    raw: Seq<char>,
    base: Seq<u8>,
    directory: Seq<u8>,
    canonical: Seq<u8>,
)
    requires
        trimmed(raw).len() > 0,
        !absolute(trimmed(raw)),
        file_path_of(instance) == Some(base),
        parent_path(base) == Some(directory),
    ensures
        ({
            let t = trimmed(raw);
            let n = find_first(t, '#');
            let named = encode_utf8(t.take(n));
            let path = if absolute_path(named) {
                named
            } else {
                joined_path(directory, named)
            };
            let fragment = if n < t.len() {
                Some(t.skip(n + 1))
            } else {
                None
            };
            schema_path_in(instance, raw) == Ok::<Option<Seq<u8>>, ResolveErrorView>(Some(path))
                && resolved(instance, raw, None) == file_schema_uri(path, fragment) && resolved(
                instance,
                raw,
                Some(canonical),
            ) == file_schema_uri(canonical, fragment)
        }),
{
    let t = trimmed(raw);
    lemma_find_first(t, '#');
    assert(t.take(t.len() as int) =~= t);
}

/// A path in a `$schema` text cannot be resolved where the document is no file.
pub proof fn path_needs_a_file(instance: Seq<char>, raw: Seq<char>, canonical: Option<Seq<u8>>)
    requires
        trimmed(raw).len() > 0,
        !absolute(trimmed(raw)),
        file_path_of(instance) is None,
    ensures
        resolved(instance, raw, canonical) == Err::<Seq<char>, ResolveErrorView>(
            ResolveErrorView::NotAFile(instance),
        ),
{
}

/// A blank `$schema` text is refused, wherever the document is.
pub proof fn blank_reference_is_refused(
    instance: Seq<char>,
    raw: Seq<char>,
    canonical: Option<Seq<u8>>,
)
    requires
        trimmed(raw).len() == 0,
    ensures
        resolved(instance, raw, canonical) == Err::<Seq<char>, ResolveErrorView>(
            ResolveErrorView::Empty,
        ),
{
}

/// The file whose time of change tells whether a compiled schema is stale: that of a file URL.
pub open spec fn watched_path(uri: Seq<char>) -> Option<Seq<u8>> {
    match url_in_text(uri) {
        Ok(url) => if url.scheme == "file"@ {
            file_path_of(uri)
        } else {
            None
        },
        Err(_) => None,
    }
}

/// The file whose time of change tells whether a compiled schema is stale, where the schema is a
/// file.
pub fn watched_file(schema_uri: &str) -> (r: Option<PathBuf>)
    ensures
        path_view(r) == watched_path(schema_uri@),
{
    match parse_url(schema_uri) {
        Ok(url) => {
            if url.scheme == "file".to_string() {
                url_to_file_path(schema_uri)
            } else {
                None
            }
        },
        Err(_cause) => None,
    }
}

/// How a schema is fetched.
#[derive(Debug, PartialEq, Eq)]
pub enum Retrieval {
    /// With an HTTP request.
    Http,
    /// From a file.
    File(PathBuf),
}

/// How a schema is fetched.
pub ghost enum RetrievalView {
    Http,
    File(Seq<u8>),
}

impl View for Retrieval {
    type V = RetrievalView;

    open spec fn view(&self) -> RetrievalView {
        match self {
            Retrieval::Http => RetrievalView::Http,
            Retrieval::File(path) => RetrievalView::File(path_bytes(*path)),
        }
    }
}

/// The message of a schema that could not be fetched.
pub open spec fn retrieve_message(uri: Seq<char>, cause: Seq<char>) -> Seq<char> {
    "failed to retrieve "@ + uri + ": "@ + cause
}

/// The message of a schema that could not be fetched.
pub fn failed_to_retrieve(uri: &str, cause: &str) -> (r: String)
    ensures
        r@ == retrieve_message(uri@, cause@),
{
    let head = concat("failed to retrieve ", uri);
    concat(concat(head.as_str(), ": ").as_str(), cause)
}

/// How the schema at a URI is fetched, given what the URI is and which file it names: by its
/// scheme, or not at all.
pub open spec fn route(
    uri: Seq<char>,
    url: Result<UrlView, Seq<char>>,
    file: Option<Seq<u8>>,
) -> Result<RetrievalView, Seq<char>> {
    match url {
        Err(cause) => Err("invalid schema URI: "@ + uri + ": "@ + cause),
        Ok(url) => if url.scheme == "http"@ || url.scheme == "https"@ {
            Ok(RetrievalView::Http)
        } else if url.scheme == "file"@ {
            match file {
                Some(path) => Ok(RetrievalView::File(path)),
                None => Err(
                    retrieve_message(uri, "not a valid file:// URL: "@ + url.text),
                ),
            }
        } else {
            Err("unsupported schema URI scheme: "@ + url.scheme + " ("@ + uri + ")"@)
        },
    }
}

/// What a route came to.
pub open spec fn route_view(r: Result<Retrieval, String>) -> Result<RetrievalView, Seq<char>> {
    match r {
        Ok(route) => Ok(route@),
        Err(message) => Err(message@),
    }
}

/// How the schema at a URI is fetched, given what the URI is and which file it names.
pub fn choose_route(uri: &str, url: Result<UrlParts, String>, file: Option<PathBuf>) -> (r: Result<
    Retrieval,
    String,
>)
    ensures
        route_view(r) == route(
            uri@,
            match url {
                Ok(parts) => Ok(parts@),
                Err(cause) => Err(cause@),
            },
            path_view(file),
        ),
{
    match url {
        Err(cause) => {
            let head = concat("invalid schema URI: ", uri);
            Err(concat(concat(head.as_str(), ": ").as_str(), cause.as_str()))
        },
        Ok(url) => {
            if url.scheme == "http".to_string() || url.scheme == "https".to_string() {
                Ok(Retrieval::Http)
            } else if url.scheme == "file".to_string() {
                match file {
                    Some(path) => Ok(Retrieval::File(path)),
                    None => {
                        let cause = concat("not a valid file:// URL: ", url.text.as_str());
                        Err(failed_to_retrieve(uri, cause.as_str()))
                    },
                }
            } else {
                let head = concat("unsupported schema URI scheme: ", url.scheme.as_str());
                let middle = concat(concat(head.as_str(), " (").as_str(), uri);
                Err(concat(middle.as_str(), ")"))
            }
        },
    }
}

/// How the schema at a URI is fetched: over HTTP, from a file, or not at all.
pub fn retrieval_of(uri: &str) -> (r: Result<Retrieval, String>)
    ensures
        route_view(r) == route(uri@, url_in_text(uri@), file_path_of(uri@)),
{
    let url = parse_url(uri);
    let file = url_to_file_path(uri);
    choose_route(uri, url, file)
}

/// The schema in a YAML value, or why there is none.
pub open spec fn yaml_schema(
    yaml: Result<YamlView, Seq<char>>,
    context: Seq<char>,
) -> Result<JsonView, Seq<char>> {
    match yaml {
        Err(cause) => Err(context + ": "@ + cause),
        Ok(value) => match yaml_json(value) {
            Ok(json) => Ok(json),
            Err(e) => Err(convert_message(e)),
        },
    }
}

/// The schema in fetched bytes: JSON where they are JSON, and else YAML.
pub open spec fn schema_in(bytes: Seq<u8>, context: Seq<char>) -> Result<JsonView, Seq<char>> {
    match json_in_bytes(bytes) {
        Some(json) => Ok(json),
        None => yaml_schema(yaml_in_bytes(bytes), context),
    }
}

/// What reading a schema came to.
pub open spec fn schema_view(r: Result<JsonValue, String>) -> Result<JsonView, Seq<char>> {
    match r {
        Ok(json) => Ok(json@),
        Err(message) => Err(message@),
    }
}

/// The schema in a YAML value. `context` says what was being read.
pub fn schema_from_yaml(yaml: Result<YamlValue, String>, context: &str) -> (r: Result<
    JsonValue,
    String,
>)
    ensures
        schema_view(r) == yaml_schema(
            match yaml {
                Ok(value) => Ok(value@),
                Err(cause) => Err(cause@),
            },
            context@,
        ),
{
    match yaml {
        Err(cause) => Err(concat(concat(context, ": ").as_str(), cause.as_str())),
        Ok(value) => match yaml_to_json_value(&value) {
            Ok(json) => Ok(json),
            Err(e) => Err(e.message()),
        },
    }
}

/// Reads a fetched schema: as JSON, or else as YAML. `context` says what was being read.
pub fn parse_schema(bytes: &[u8], context: &str) -> (r: Result<JsonValue, String>)
    ensures
        schema_view(r) == schema_in(bytes@, context@),
{
    match parse_json_bytes(bytes) {
        Some(json) => Ok(json),
        None => schema_from_yaml(parse_yaml_bytes(bytes), context),
    }
}

/// The compiled schema type of `jsonschema`.
#[verifier::external_type_specification]
#[verifier::external_body]
pub struct ExValidator(jsonschema::Validator);

/// A compiled schema, with the time of change of its file, in nanoseconds from the epoch, where it
/// is a file.
#[derive(Debug)]
pub struct CacheEntry {
    pub validator: Arc<jsonschema::Validator>,
    pub root_mtime: Option<i128>,
}

/// The compiled schemas that are kept, under their URIs.
#[derive(Debug)]
pub struct SchemaCache {
    pub cfg: ServerConfig,
    pub inner: Table<CacheEntry>,
}

impl View for SchemaCache {
    type V = Map<Seq<char>, CacheEntry>;

    open spec fn view(&self) -> Map<Seq<char>, CacheEntry> {
        self.inner@
    }
}

/// What to do for a compiled schema.
#[derive(Debug)]
pub enum CacheAnswer {
    /// It is at hand.
    Ready(Arc<jsonschema::Validator>),
    /// It has to be built from this schema.
    Build(JsonValue),
}

/// The compiled schema that is kept for a URI, where it is not stale: its file has the time of
/// change that it had, or there was no such time and there is none.
pub open spec fn fresh(
    cache: Map<Seq<char>, CacheEntry>,
    uri: Seq<char>,
    root_mtime: Option<i128>,
) -> Option<Arc<jsonschema::Validator>> {
    if cache.contains_key(uri) && cache[uri].root_mtime == root_mtime {
        Some(cache[uri].validator)
    } else {
        None
    }
}

/// Whether a cache has come to keep a schema: all others stay, but for one that goes where there
/// would be more than `size`. A cache of no size does not keep it.
pub open spec fn keeps(
    before: Map<Seq<char>, CacheEntry>,
    after: Map<Seq<char>, CacheEntry>,
    uri: Seq<char>,
    entry: CacheEntry,
    size: nat,
) -> bool {
    let all = before.insert(uri, entry);
    if size == 0 {
        after == before.remove(uri)
    } else if all.len() > size {
        exists|gone: Seq<char>|
            gone != uri && #[trigger] all.contains_key(gone) && after == all.remove(gone)
    } else {
        after == all
    }
}

impl SchemaCache {
    /// An empty cache.
    pub fn new(cfg: ServerConfig) -> (r: SchemaCache)
        ensures
            r.cfg == cfg,
            r@ == Map::<Seq<char>, CacheEntry>::empty(),
    {
        SchemaCache { cfg, inner: Table::new() }
    }

    /// The compiled schema at a URI, where it is kept and not stale, and else the schema to build
    /// it from: one that refers to the URI.
    pub fn validator_for_schema_uri(&self, schema_uri: &str, root_mtime: Option<i128>) -> (r:
        CacheAnswer)
        ensures
            match r {
                CacheAnswer::Ready(validator) => fresh(self@, schema_uri@, root_mtime) == Some(
                    validator,
                ),
                CacheAnswer::Build(schema) => fresh(self@, schema_uri@, root_mtime) is None
                    && schema@ == reference_to(schema_uri@),
            },
    {
        if let Some(entry) = self.inner.get(schema_uri) {
            if same_mtime(entry.root_mtime, root_mtime) {
                return CacheAnswer::Ready(entry.validator.clone());
            }
        }
        CacheAnswer::Build(reference_schema(schema_uri))
    }

    /// Keeps a compiled schema. Where there are then too many, another one is dropped, and where
    /// none may be kept, it is not kept either.
    pub fn store_validator(
        &mut self,
        schema_uri: &str,
        root_mtime: Option<i128>,
        validator: Arc<jsonschema::Validator>,
    )
        ensures
            final(self).cfg == old(self).cfg,
            keeps(
                old(self)@,
                final(self)@,
                schema_uri@,
                (CacheEntry { validator, root_mtime }),
                old(self).cfg.schema_cache_size as nat,
            ),
            old(self)@.len() <= old(self).cfg.schema_cache_size ==> final(self)@.len() <= old(
                self,
            ).cfg.schema_cache_size,
            old(self).cfg.schema_cache_size > 0 ==> fresh(final(self)@, schema_uri@, root_mtime)
                == Some(validator),
            old(self)@.contains_key(schema_uri@) && old(self)@.len() <= old(
                self,
            ).cfg.schema_cache_size ==> final(self)@ == old(self)@.insert(
                schema_uri@,
                (CacheEntry { validator, root_mtime }),
            ),
    {
        if self.cfg.schema_cache_size == 0 {
            self.inner.remove(schema_uri);
            return ;
        }
        self.inner.insert(schema_uri.to_string(), CacheEntry { validator, root_mtime });
        let ghost all = self.inner@;
        if self.inner.len() > self.cfg.schema_cache_size {
            proof {
                if forall|k: Seq<char>| all.contains_key(k) ==> k == schema_uri@ {
                    assert(all.dom() =~= set![schema_uri@]);
                }
            }
            self.inner.remove_other(schema_uri);
        }
    }
}

/// Whether two times of change are the same, or both missing.
fn same_mtime(a: Option<i128>, b: Option<i128>) -> (r: bool)
    ensures
        r == (a == b),
{
    match (a, b) {
        (Some(x), Some(y)) => x == y,
        (None, None) => true,
        _ => false,
    }
}

/// A cache that holds no more schemas than it may, none at all included, holds no more when it comes
/// to keep another one, which it then holds unless it may hold none.
pub proof fn cache_stays_within_its_size(
    before: Map<Seq<char>, CacheEntry>,
    after: Map<Seq<char>, CacheEntry>,
    uri: Seq<char>,
    entry: CacheEntry,
    size: nat,
)
    requires
        keeps(before, after, uri, entry, size),
        before.dom().finite(),
        before.len() <= size,
    ensures
        after.len() <= size,
        after.dom().finite(),
        size > 0 ==> after.contains_key(uri) && after[uri] == entry,
        size == 0 ==> after == Map::<Seq<char>, CacheEntry>::empty(),
{
    let all = before.insert(uri, entry);
    if size == 0 {
        assert(before.dom() =~= Set::empty());
        assert(after =~= Map::empty());
    } else if all.len() > size {
        let gone = choose|gone: Seq<char>|
            gone != uri && #[trigger] all.contains_key(gone) && after == all.remove(gone);
        assert(after.dom() =~= all.dom().remove(gone));
    }
}

/// A schema whose file has changed since it was compiled is not at hand. When it is compiled again,
/// it takes the place of the old one, and all others stay.
pub proof fn changed_schema_replaces_its_entry(
    before: Map<Seq<char>, CacheEntry>,
    after: Map<Seq<char>, CacheEntry>,
    uri: Seq<char>,
    entry: CacheEntry,
    size: nat,
)
    requires
        before.contains_key(uri),
        before[uri].root_mtime != entry.root_mtime,
        before.dom().finite(),
        before.len() <= size,
        keeps(before, after, uri, entry, size),
    ensures
        fresh(before, uri, entry.root_mtime) is None,
        after == before.insert(uri, entry),
        fresh(after, uri, entry.root_mtime) == Some(entry.validator),
        fresh(after, uri, before[uri].root_mtime) is None,
{
    assert(before.insert(uri, entry).dom() =~= before.dom());
    if before.len() == 0 {
        assert(before.dom() =~= Set::empty());
    }
}

/// The message of a reference that could not be resolved holds, whole, what it is about.
pub proof fn resolve_messages_hold_what_they_are_about(s: Seq<char>)
    ensures
        resolve_message(ResolveErrorView::Empty) == "empty $schema"@,
        resolve_message(ResolveErrorView::NotAFile(s)) == "instance is not a file:// URI: "@ + s,
        resolve_message(ResolveErrorView::NoParent(s)) == "instance has no parent dir: "@ + s,
        resolve_message(ResolveErrorView::NotConvertible(s)) == "failed to convert to file:// URL: "@
            + s,
{
}

/// Whatever stands behind `http://`, `https://` or `file://` is a URI together with it, and nothing
/// else is.
pub proof fn three_schemes_are_absolute(s: Seq<char>)
    ensures
        absolute("http://"@ + s),
        absolute("https://"@ + s),
        absolute("file://"@ + s),
        absolute(s) ==> exists|rest: Seq<char>|
            s == #[trigger] ("http://"@ + rest) || s == "https://"@ + rest || s == "file://"@
                + rest,
{
    prefixes_and_suffixes_are_parts(s, "http://"@);
    prefixes_and_suffixes_are_parts(s, "https://"@);
    prefixes_and_suffixes_are_parts(s, "file://"@);
    if absolute(s) {
        let a = s.skip("http://"@.len() as int);
        let b = s.skip("https://"@.len() as int);
        let c = s.skip("file://"@.len() as int);
        if has_prefix(s, "http://"@) {
            assert(s == "http://"@ + a);
        } else if has_prefix(s, "https://"@) {
            let x = "http://"@ + b;
            assert(s == "https://"@ + b);
        } else {
            let x = "http://"@ + c;
            assert(s == "file://"@ + c);
        }
    }
}

/// What a `$schema` text refers to, without the white space around it: nothing where there is
/// nothing else, the URI that it is, or the file named before its first number sign, with all that
/// stands behind that as the fragment.
pub proof fn reference_is_parted_at_the_first_number_sign(
    raw: Seq<char>,
    path: Seq<char>,
    fragment: Seq<char>,
)
    requires
        forall|i: int| 0 <= i < path.len() ==> path[i] != '#',
    ensures
        trimmed(raw).len() == 0 ==> reference_in(raw) is None,
        absolute(trimmed(raw)) && trimmed(raw).len() > 0 ==> reference_in(raw) == Some(
            ReferenceView::Uri(trimmed(raw)),
        ),
        !absolute(trimmed(raw)) && trimmed(raw) == path && path.len() > 0 ==> reference_in(raw)
            == Some(ReferenceView::Local(path, None)),
        !absolute(trimmed(raw)) && trimmed(raw) == path + seq!['#'] + fragment ==> reference_in(raw)
            == Some(ReferenceView::Local(path, Some(fragment))),
{
    let t = trimmed(raw);
    if t == path {
        lemma_find_first_is(path, '#', path.len() as int);
    }
    let all = path + seq!['#'] + fragment;
    if t == all {
        lemma_find_first_is(all, '#', path.len() as int);
        assert(all.take(path.len() as int) =~= path);
        assert(all.skip(path.len() as int + 1) =~= fragment);
    }
}

/// A document that is a file without a directory refers to no file, and a path that has no URL is
/// not resolved; a path that has one is resolved to it.
pub proof fn paths_without_directory_or_url_are_refused(
    instance: Seq<char>,
    path: Seq<char>,
    base: Seq<u8>,
    file: Seq<u8>,
    fragment: Option<Seq<char>>,
    url: Seq<char>,
)
    ensures
        file_path_of(instance) is None ==> path_beside(instance, path) == Err::<
            Seq<u8>,
            ResolveErrorView,
        >(ResolveErrorView::NotAFile(instance)),
        file_path_of(instance) == Some(base) && parent_path(base) is None ==> path_beside(
            instance,
            path,
        ) == Err::<Seq<u8>, ResolveErrorView>(ResolveErrorView::NoParent(shown_path(base))),
        file_url_of(file, fragment) is None ==> file_schema_uri(file, fragment) == Err::<
            Seq<char>,
            ResolveErrorView,
        >(ResolveErrorView::NotConvertible(shown_path(file))),
        file_url_of(file, fragment) == Some(url) ==> file_schema_uri(file, fragment) == Ok::<
            Seq<char>,
            ResolveErrorView,
        >(url),
{
}

/// A `$schema` text that cannot be resolved has no path, for the same reason, whatever the canonical
/// form; one that has no path and can be resolved is a URI.
pub proof fn path_and_uri_fail_alike(
    instance: Seq<char>,
    raw: Seq<char>,
    canonical: Option<Seq<u8>>,
    e: ResolveErrorView,
)
    ensures
        schema_path_in(instance, raw) == Err::<Option<Seq<u8>>, ResolveErrorView>(e) ==> resolved(
            instance,
            raw,
            canonical,
        ) == Err::<Seq<char>, ResolveErrorView>(e),
        schema_path_in(instance, raw) == Ok::<Option<Seq<u8>>, ResolveErrorView>(None) ==> resolved(
            instance,
            raw,
            canonical,
        ) == Ok::<Seq<char>, ResolveErrorView>(trimmed(raw)) && absolute(trimmed(raw)),
        schema_path_in(instance, raw) matches Ok(Some(path)) ==> !absolute(trimmed(raw)) && resolved(
            instance,
            raw,
            None,
        ) == resolved(instance, raw, Some(path)),
{
}

/// The URL of a file without a fragment always fits, and one with a fragment exactly where its bytes
/// can be counted with 32 bits.
pub proof fn urls_fit_up_to_their_offset(
    instance: Seq<char>,
    raw: Seq<char>,
    path: Seq<char>,
    file: Seq<u8>,
    url: Seq<char>,
)
    requires
        path_beside(instance, path) is Ok,
        file_url_of(file, None) == Some(url),
    ensures
        reference_in(raw) == Some(ReferenceView::Local(path, None)) ==> url_fits(
            instance,
            raw,
            Some(file),
        ),
        (reference_in(raw) matches Some(ReferenceView::Local(p, Some(_))) && p == path) ==> (
        url_fits(instance, raw, Some(file)) <==> encode_utf8(url).len() <= 0xffff_ffff),
        absolute(trimmed(raw)) ==> url_fits(instance, raw, Some(file)),
{
}

/// A URI keeps a plain fragment exactly where it ends with a number sign and that fragment.
pub proof fn kept_fragment_ends_the_uri(
    raw: Seq<char>,
    path: Seq<char>,
    fragment: Seq<char>,
    uri: Seq<char>,
)
    requires
        reference_in(raw) == Some(ReferenceView::Local(path, Some(fragment))),
        plain_fragment(fragment),
    ensures
        keeps_plain_fragment(raw, uri + seq!['#'] + fragment),
        keeps_plain_fragment(raw, uri) ==> exists|head: Seq<char>|
            uri == #[trigger] (head + seq!['#']) + fragment,
{
    let tail = seq!['#'] + fragment;
    prefixes_and_suffixes_are_parts(uri, tail);
    assert(uri + seq!['#'] + fragment =~= uri + tail);
    if keeps_plain_fragment(raw, uri) {
        let head = uri.take(uri.len() - tail.len());
        assert(uri == head + tail);
        assert(head + tail =~= (head + seq!['#']) + fragment);
    }
}

/// The file of a schema is watched exactly where its URI is a URL with the scheme `file`, and it is
/// the file that the URL names.
pub proof fn files_alone_are_watched(uri: Seq<char>, url: UrlView)
    ensures
        url_in_text(uri) == Ok::<UrlView, Seq<char>>(url) && url.scheme == "file"@ ==> watched_path(
            uri,
        ) == file_path_of(uri),
        url_in_text(uri) == Ok::<UrlView, Seq<char>>(url) && url.scheme != "file"@ ==> watched_path(
            uri,
        ) is None,
        url_in_text(uri) is Err ==> watched_path(uri) is None,
{
}

/// A schema is fetched over HTTP or HTTPS, or from the file that its URL names; any other is refused
/// with a message that holds its URI and why, whole.
pub proof fn scheme_decides_the_route(
    uri: Seq<char>,
    url: UrlView,
    cause: Seq<char>,
    file: Option<Seq<u8>>,
    path: Seq<u8>,
)
    ensures
        url.scheme == "http"@ || url.scheme == "https"@ ==> route(uri, Ok(url), file) == Ok::<
            RetrievalView,
            Seq<char>,
        >(RetrievalView::Http),
        url.scheme == "file"@ && !(url.scheme == "http"@ || url.scheme == "https"@) ==> route(
            uri,
            Ok(url),
            Some(path),
        ) == Ok::<RetrievalView, Seq<char>>(RetrievalView::File(path)) && route(uri, Ok(url), None)
            == Err::<RetrievalView, Seq<char>>(
            "failed to retrieve "@ + uri + ": "@ + ("not a valid file:// URL: "@ + url.text),
        ),
        url.scheme != "http"@ && url.scheme != "https"@ && url.scheme != "file"@ ==> route(
            uri,
            Ok(url),
            file,
        ) == Err::<RetrievalView, Seq<char>>(
            "unsupported schema URI scheme: "@ + url.scheme + " ("@ + uri + ")"@,
        ),
        route(uri, Err(cause), file) == Err::<RetrievalView, Seq<char>>(
            "invalid schema URI: "@ + uri + ": "@ + cause,
        ),
        retrieve_message(uri, cause) == "failed to retrieve "@ + uri + ": "@ + cause,
{
}

/// A schema that is JSON is read as it stands, every member of it included, and any other as the
/// JSON value of its YAML value. What is neither is refused with a message that holds the cause,
/// whole.
pub proof fn schema_is_read_as_it_stands(
    bytes: Seq<u8>,
    context: Seq<char>,
    json: JsonView,
    yaml: YamlView,
    cause: Seq<char>,
    name: Seq<char>,
)
    ensures
        json_in_bytes(bytes) == Some(json) ==> schema_in(bytes, context) == Ok::<
            JsonView,
            Seq<char>,
        >(json) && (json matches JsonView::Object(members) ==> schema_in(bytes, context) matches Ok(
            JsonView::Object(read),
        ) && member(read, name) == member(members, name)),
        json_in_bytes(bytes) is None && yaml_in_bytes(bytes) == Ok::<YamlView, Seq<char>>(yaml)
            && yaml_json(yaml) == Ok::<JsonView, ConvertErrorView>(json) ==> schema_in(bytes, context)
            == Ok::<JsonView, Seq<char>>(json),
        json_in_bytes(bytes) is None && yaml_in_bytes(bytes) == Ok::<YamlView, Seq<char>>(yaml)
            && yaml_json(yaml) == Err::<JsonView, ConvertErrorView>(
            ConvertErrorView::KeyNotText(cause),
        ) ==> schema_in(bytes, context) == Err::<JsonView, Seq<char>>(
            "YAML mapping key must be string (got "@ + cause + ")"@,
        ),
        json_in_bytes(bytes) is None && yaml_in_bytes(bytes) == Err::<YamlView, Seq<char>>(cause)
            ==> schema_in(bytes, context) == Err::<JsonView, Seq<char>>(context + ": "@ + cause),
        yaml_json(yaml) == Ok::<JsonView, ConvertErrorView>(json) ==> yaml_schema(Ok(yaml), context)
            == Ok::<JsonView, Seq<char>>(json),
{
}

/// A schema that was put in a cache is at hand for the same time of change and for no other, and one
/// that is not there is never at hand.
pub proof fn schema_is_at_hand_for_its_time_alone(
    cache: Map<Seq<char>, CacheEntry>,
    uri: Seq<char>,
    entry: CacheEntry,
    root_mtime: Option<i128>,
)
    ensures
        fresh(cache.insert(uri, entry), uri, entry.root_mtime) == Some(entry.validator),
        root_mtime != entry.root_mtime ==> fresh(cache.insert(uri, entry), uri, root_mtime) is None,
        fresh(cache.remove(uri), uri, root_mtime) is None,
{
}

/// When a cache comes to keep a schema, no other is changed, none is added, and at most one goes;
/// where there is room, none goes.
pub proof fn other_schemas_stay(
    before: Map<Seq<char>, CacheEntry>,
    after: Map<Seq<char>, CacheEntry>,
    uri: Seq<char>,
    entry: CacheEntry,
    size: nat,
    a: Seq<char>,
    b: Seq<char>,
)
    requires
        keeps(before, after, uri, entry, size),
        a != uri,
        b != uri,
    ensures
        after.contains_key(a) ==> before.contains_key(a) && after[a] == before[a],
        before.contains_key(a) && before.contains_key(b) && a != b ==> after.contains_key(a)
            || after.contains_key(b),
        before.contains_key(a) && before.insert(uri, entry).len() <= size ==> after.contains_key(a),
        size > 0 ==> after.contains_key(uri) && after[uri] == entry,
        size == 0 ==> !after.contains_key(uri),
{
}

/// References, errors and routes are what they hold.
pub proof fn references_are_what_they_hold(s: String, fragment: Option<String>, path: PathBuf)
    ensures
        SchemaReference::Uri(s)@ == ReferenceView::Uri(s@),
        SchemaReference::Local(s, fragment)@ == ReferenceView::Local(
            s@,
            match fragment {
                Some(f) => Some(f@),
                None => None,
            },
        ),
        ResolveError::Empty@ == ResolveErrorView::Empty,
        ResolveError::NotAFile(s)@ == ResolveErrorView::NotAFile(s@),
        ResolveError::NoParent(s)@ == ResolveErrorView::NoParent(s@),
        ResolveError::NotConvertible(s)@ == ResolveErrorView::NotConvertible(s@),
        Retrieval::Http@ == RetrievalView::Http,
        Retrieval::File(path)@ == RetrievalView::File(path_bytes(path)),
{
}

/// What resolving, routing and reading a schema came to is what was found, or the whole reason.
pub proof fn answers_are_what_they_hold(
    s: String,
    e: ResolveError,
    route: Retrieval,
    json: JsonValue,
    cache: SchemaCache,
)
    ensures
        resolution(Ok(s)) == Ok::<Seq<char>, ResolveErrorView>(s@),
        resolution(Err(e)) == Err::<Seq<char>, ResolveErrorView>(e@),
        route_view(Ok(route)) == Ok::<RetrievalView, Seq<char>>(route@),
        route_view(Err(s)) == Err::<RetrievalView, Seq<char>>(s@),
        schema_view(Ok(json)) == Ok::<JsonView, Seq<char>>(json@),
        schema_view(Err(s)) == Err::<JsonView, Seq<char>>(s@),
        cache@ == cache.inner@,
{
}

} // verus!
