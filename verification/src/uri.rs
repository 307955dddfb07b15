//! URLs and the file paths that they name.
use std::path::PathBuf;

use vstd::prelude::*;
use vstd::utf8::*;

use crate::text::has_prefix;

verus! {

/// The parts of a URL that are read here: its normalized text, its scheme and its path.
#[derive(Debug, PartialEq, Eq)]
pub struct UrlParts {
    pub text: String,
    pub scheme: String,
    pub path: String,
}

/// What the parts of a URL are.
pub ghost struct UrlView {
    pub text: Seq<char>,
    pub scheme: Seq<char>,
    pub path: Seq<char>,
}

impl View for UrlParts {
    type V = UrlView;

    open spec fn view(&self) -> UrlView {
        UrlView { text: self.text@, scheme: self.scheme@, path: self.path@ }
    }
}

/// What `Url::parse` makes of a text: a URL, or the text of its error.
pub uninterp spec fn url_in_text(text: Seq<char>) -> Result<UrlView, Seq<char>>;

/// `url::Url::parse`, with `as_str`, `scheme` and `path` of the URL. The parts, or the text of the
/// error, depend on the text alone.
#[verifier::external_body]
pub(crate) fn parse_url(text: &str) -> (r: Result<UrlParts, String>)
    ensures
        match r {
            Ok(parts) => url_in_text(text@) == Ok::<UrlView, Seq<char>>(parts@),
            Err(cause) => url_in_text(text@) == Err::<UrlView, Seq<char>>(cause@),
        },
{
    match url::Url::parse(text) {
        Ok(url) => Ok(UrlParts { text: url.as_str().to_string(), scheme: url.scheme().to_string(), path: url.path().to_string() }),
        Err(error) => Err(error.to_string()),
    }
}

/// The path type of the standard library.
#[verifier::external_type_specification]
#[verifier::external_body]
pub struct ExPathBuf(PathBuf);

/// The bytes that a path holds.
pub uninterp spec fn path_bytes(path: PathBuf) -> Seq<u8>;

/// The bytes of a path, where there is one.
pub open spec fn path_view(path: Option<PathBuf>) -> Option<Seq<u8>> {
    match path {
        Some(p) => Some(path_bytes(p)),
        None => None,
    }
}

/// The path that a URL in a text names by `Url::to_file_path`.
pub uninterp spec fn file_path_of(url: Seq<char>) -> Option<Seq<u8>>;

/// `url::Url::to_file_path` of the URL in a text: none where the text is no URL or the URL names
/// no file. Which path it is depends on the text alone.
#[verifier::external_body]
pub(crate) fn url_to_file_path(url: &str) -> (r: Option<PathBuf>)
    ensures
        path_view(r) == file_path_of(url@),
{
    url::Url::parse(url).ok().and_then(|url| url.to_file_path().ok())
}

/// The path before the last component, by `Path::parent`.
pub uninterp spec fn parent_path(path: Seq<u8>) -> Option<Seq<u8>>;

/// `std::path::Path::parent`: the path without its last component, where there is one. Which path
/// it is depends on the path alone.
#[verifier::external_body]
pub(crate) fn path_parent(path: &PathBuf) -> (r: Option<PathBuf>)
    ensures
        path_view(r) == parent_path(path_bytes(*path)),
{
    path.parent().map(|parent| parent.to_path_buf())
}

/// `std::path::PathBuf::from` for a text: the path whose bytes are those of the text.
#[verifier::external_body]
pub(crate) fn path_of_text(text: &str) -> (r: PathBuf)
    ensures
        path_bytes(r) == encode_utf8(text@),
{
    PathBuf::from(text)
}

/// Whether a path is absolute by `Path::is_absolute`.
pub uninterp spec fn absolute_path(path: Seq<u8>) -> bool;

/// `std::path::Path::is_absolute`: whether a path leads to the same place from every directory,
/// which depends on the path alone.
#[verifier::external_body]
pub(crate) fn path_is_absolute(path: &PathBuf) -> (r: bool)
    ensures
        r == absolute_path(path_bytes(*path)),
{
    path.is_absolute()
}

/// The path that `Path::join` makes of a directory and a path.
pub uninterp spec fn joined_path(directory: Seq<u8>, path: Seq<u8>) -> Seq<u8>;

/// `std::path::Path::join`: a relative path is put behind the directory. Which path that is depends
/// on the two alone.
#[verifier::external_body]
pub(crate) fn path_join(directory: &PathBuf, path: &PathBuf) -> (r: PathBuf)
    ensures
        path_bytes(r) == joined_path(path_bytes(*directory), path_bytes(*path)),
{
    directory.join(path)
}

/// The debug form of a path.
pub uninterp spec fn shown_path(path: Seq<u8>) -> Seq<char>;

/// The debug form of a `std::path::PathBuf`, which depends on the path alone.
#[verifier::external_body]
pub(crate) fn path_shown(path: &PathBuf) -> (r: String)
    ensures
        r@ == shown_path(path_bytes(*path)),
{
    format!("{path:?}")
}

/// The text of the file URL of a path, with a fragment or without one.
pub uninterp spec fn file_url_of(path: Seq<u8>, fragment: Option<Seq<char>>) -> Option<Seq<char>>;

/// Whether a fragment can be put behind a URL: the URL has an offset of 32 bits for it.
pub open spec fn takes_fragment(url: Option<Seq<char>>) -> bool {
    url matches Some(text) ==> encode_utf8(text).len() <= u32::MAX
}

/// Whether a text is made of visible ASCII characters alone.
pub open spec fn visible(text: Seq<char>) -> bool {
    forall|i: int| 0 <= i < text.len() ==> '!' <= #[trigger] text[i] <= '~'
}

/// Whether a fragment is made of characters that a URL holds as they are: visible ASCII, without
/// quotation marks, angle brackets and grave accents.
pub open spec fn plain_fragment(fragment: Seq<char>) -> bool {
    forall|i: int|
        0 <= i < fragment.len() ==> '!' <= (#[trigger] fragment[i]) <= '~' && fragment[i] != '"'
            && fragment[i] != '<' && fragment[i] != '>' && fragment[i] != '`'
}

/// The text of a fragment, where there is one.
pub open spec fn fragment_view(fragment: Option<String>) -> Option<Seq<char>> {
    match fragment {
        Some(f) => Some(f@),
        None => None,
    }
}

/// `url::Url::from_file_path`, then `set_fragment`, as a text: none where the path is not absolute.
/// Which text it is depends on the path and the fragment alone. It starts with the scheme and is
/// visible ASCII, as all else is escaped, and a fragment of characters that need no escape stands
/// behind the URL without one as it is.
#[verifier::external_body]
pub(crate) fn path_to_file_url(path: &PathBuf, fragment: &Option<String>) -> (r: Option<String>)
    requires
        fragment is Some ==> takes_fragment(file_url_of(path_bytes(*path), None)),
    ensures
        match r {
            Some(text) => file_url_of(path_bytes(*path), fragment_view(*fragment)) == Some(text@),
            None => file_url_of(path_bytes(*path), fragment_view(*fragment)) is None,
        },
        r matches Some(text) ==> has_prefix(text@, "file://"@) && visible(text@),
        fragment_view(*fragment) matches Some(f) ==> plain_fragment(f) ==> match r {
            Some(text) => file_url_of(path_bytes(*path), None) matches Some(bare) && text@
                == bare.push('#') + f,
            None => file_url_of(path_bytes(*path), None) is None,
        },
{
    let mut url = url::Url::from_file_path(path).ok()?;
    url.set_fragment(fragment.as_deref());
    Some(url.to_string())
}

/// A URL takes a fragment as long as its own bytes can be counted with 32 bits.
pub proof fn urls_take_fragments_up_to_their_offset(url: Seq<char>)
    ensures
        takes_fragment(Some(url)) <==> encode_utf8(url).len() <= 0xffff_ffff,
        takes_fragment(None),
{
}

/// A fragment is plain exactly where each of its characters is: visible ASCII, but for the quotation
/// mark, the angle brackets and the grave accent.
pub proof fn plain_fragments_are_made_of_plain_characters(fragment: Seq<char>, c: char)
    ensures
        plain_fragment(Seq::empty()),
        plain_fragment(fragment.push(c)) <==> plain_fragment(fragment) && '!' <= c <= '~' && c != '"'
            && c != '<' && c != '>' && c != '`',
        visible(Seq::empty()),
        visible(fragment.push(c)) <==> visible(fragment) && '!' <= c <= '~',
{
    let longer = fragment.push(c);
    assert(longer[longer.len() - 1] == c);
    if plain_fragment(longer) {
        assert forall|i: int| 0 <= i < fragment.len() implies '!' <= (#[trigger] fragment[i]) <= '~'
            && fragment[i] != '"' && fragment[i] != '<' && fragment[i] != '>' && fragment[i]
            != '`' by {
            assert(longer[i] == fragment[i]);
        }
    }
    if visible(longer) {
        assert forall|i: int| 0 <= i < fragment.len() implies '!' <= #[trigger] fragment[i]
            <= '~' by {
            assert(longer[i] == fragment[i]);
        }
    }
}

/// The parts of a URL, a path and a fragment are what they hold.
pub proof fn url_parts_are_what_they_hold(parts: UrlParts, path: PathBuf, fragment: String)
    ensures
        parts@.text == parts.text@,
        parts@.scheme == parts.scheme@,
        parts@.path == parts.path@,
        path_view(Some(path)) == Some(path_bytes(path)),
        path_view(None) == None::<Seq<u8>>,
        fragment_view(Some(fragment)) == Some(fragment@),
        fragment_view(None) == None::<Seq<char>>,
{
}

} // verus!
