use crate::file_set::{PathView, VfsPath};
use lsp_types::Url;
use vstd::prelude::*;
use vstd::string::*;

verus! {

/// `lsp_types::Url` (the url crate's `Url`), carried through as an opaque value.
#[verifier::external_type_specification]
#[verifier::external_body]
pub struct ExUrl(Url);

/// What `Path::strip_prefix` gives for `path` below `base`, if `base` is a prefix of it.
pub uninterp spec fn path_strip_prefix(path: Seq<char>, base: Seq<char>) -> Option<Seq<char>>;

/// `rel` joined onto `base` (Unix paths): an absolute `rel` replaces `base`;
/// otherwise a `/` separates the two unless `base` is empty or ends with one.
pub open spec fn path_join(base: Seq<char>, rel: Seq<char>) -> Seq<char> {
    if rel.len() > 0 && rel[0] == '/' {
        rel
    } else if base.len() > 0 && base.last() != '/' {
        base + seq!['/'] + rel
    } else {
        base + rel
    }
}

/// What `Url::to_file_path` gives for `uri`, as text, if it gives a path.
pub uninterp spec fn url_file_path(uri: Url) -> Option<Seq<char>>;

/// What `Url::from_file_path` gives for `path`.
pub uninterp spec fn url_from_path(path: Seq<char>) -> Option<Url>;

/// What `Url::scheme` gives for `uri`.
pub uninterp spec fn url_scheme_of(uri: Url) -> Seq<char>;

/// What `Url::as_str` gives for `uri`.
pub uninterp spec fn url_text_of(uri: Url) -> Seq<char>;

/// What `Url::parse` gives for `s`.
pub uninterp spec fn url_parsed(s: Seq<char>) -> Option<Url>;

/// The local path of a `file:` URI, if it names one; none for other schemes.
pub open spec fn uri_local_path(uri: Url) -> Option<Seq<char>> {
    if url_scheme_of(uri) == "file"@ {
        url_file_path(uri)
    } else {
        None
    }
}

/// Relies on `Url::to_file_path`: the local path that `uri` names, if any; a
/// path that is not valid UTF-8 is dropped.
#[verifier::external_body]
pub(crate) fn url_to_file_path(uri: &Url) -> (r: Option<String>)
    ensures
        match r {
            Some(s) => url_file_path(*uri) == Some(s@),
            None => url_file_path(*uri) is None,
        },
{
    match uri.to_file_path() {
        Ok(p) => match p.into_os_string().into_string() {
            Ok(s) => Some(s),
            Err(_) => None,
        },
        Err(()) => None,
    }
}

/// Relies on `Url::from_file_path`: the `file:` URI of a path, which exists
/// exactly when the path is absolute (on Unix: starts with `/`).
#[verifier::external_body]
pub(crate) fn url_from_file_path(path: &str) -> (r: Option<Url>)
    ensures
        r == url_from_path(path@),
        r is Some <==> (path@.len() > 0 && path@[0] == '/'),
{
    match Url::from_file_path(path) {
        Ok(u) => Some(u),
        Err(()) => None,
    }
}

/// Relies on `Path::strip_prefix`: the components of `path` after those of
/// `base`, when `base` is a prefix of `path`.
#[verifier::external_body]
pub(crate) fn strip_path_prefix(path: &str, base: &str) -> (r: Option<String>)
    ensures
        match r {
            Some(s) => path_strip_prefix(path@, base@) == Some(s@),
            None => path_strip_prefix(path@, base@) is None,
        },
{
    match std::path::Path::new(path).strip_prefix(base) {
        Ok(rel) => Some(rel.to_string_lossy().into_owned()),
        Err(_) => None,
    }
}

/// Relies on `Path::join` (through `PathBuf::push`): `rel` appended to `base`
/// with a separator where one is needed, or `rel` alone when it is absolute.
#[verifier::external_body]
pub(crate) fn join_path(base: &str, rel: &str) -> (r: String)
    ensures
        r@ == path_join(base@, rel@),
{
    std::path::Path::new(base).join(rel).to_string_lossy().into_owned()
}

/// Relies on `Url::scheme`: the scheme of `uri`, lower case.
#[verifier::external_body]
pub(crate) fn url_scheme(uri: &Url) -> (r: String)
    ensures
        r@ == url_scheme_of(*uri),
{
    uri.scheme().to_owned()
}

/// Relies on `Url::as_str`: the serialization of `uri`.
#[verifier::external_body]
pub(crate) fn url_text(uri: &Url) -> (r: String)
    ensures
        r@ == url_text_of(*uri),
{
    uri.as_str().to_owned()
}

/// Relies on `Url::parse`: the URI written in `s`, if it is one.
#[verifier::external_body]
pub(crate) fn parse_url(s: &str) -> (r: Option<Url>)
    ensures
        r == url_parsed(s@),
{
    match Url::parse(s) {
        Ok(u) => Some(u),
        Err(_) => None,
    }
}

/// Whether `uri` has the `file` scheme.
pub fn is_file_uri(uri: &Url) -> (r: bool)
    ensures
        r == (url_scheme_of(*uri) == "file"@),
{
    let scheme = url_scheme(uri);
    let file = String::from_str("file");
    scheme.eq(&file)
}

/// The local path of a `file:` URI, if it names one; `None` for other schemes.
pub fn local_path_of_uri(uri: &Url) -> (r: Option<String>)
    ensures
        match r {
            Some(p) => uri_local_path(*uri) == Some(p@),
            None => uri_local_path(*uri) is None,
        },
{
    if is_file_uri(uri) {
        url_to_file_path(uri)
    } else {
        None
    }
}

/// The path of `uri`: the local path of a `file:` URI that names one, else the
/// URI itself as a virtual path.
pub fn to_vfs_path(uri: &Url) -> (r: VfsPath)
    ensures
        r@ == if url_scheme_of(*uri) == "file"@ && url_file_path(*uri) is Some {
            PathView::Path(url_file_path(*uri)->Some_0)
        } else {
            PathView::Virtual(url_text_of(*uri))
        },
{
    match local_path_of_uri(uri) {
        Some(path) => VfsPath::Path(path),
        None => VfsPath::Virtual(url_text(uri)),
    }
}

/// The URI of `path`: a `file:` URI for a local path, the parsed URI for a
/// virtual one; `None` when it has none.
pub fn from_vfs_path(path: &VfsPath) -> (r: Option<Url>)
    ensures
        r == match path@ {
            PathView::Path(p) => url_from_path(p),
            PathView::Virtual(u) => url_parsed(u),
        },
{
    match path {
        VfsPath::Path(p) => url_from_file_path(p.as_str()),
        VfsPath::Virtual(u) => parse_url(u.as_str()),
    }
}

} // verus!
