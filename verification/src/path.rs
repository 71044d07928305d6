//! Paths as text, handled by `std::path`.
use vstd::prelude::*;
use std::path::PathBuf;

verus! {

#[verifier::external_type_specification]
#[verifier::external_body]
pub struct ExPathBuf(PathBuf);

/// The bytes a path holds, as the platform encodes them.
pub uninterp spec fn path_bytes(p: PathBuf) -> Seq<u8>;

/// How `Debug` renders a path held as the bytes `b`.
pub uninterp spec fn os_debug(b: Seq<u8>) -> Seq<char>;

/// What `Path::join` gives for a base and a further path.
pub uninterp spec fn path_join(base: Seq<char>, name: Seq<char>) -> Seq<char>;

/// What `Path::parent` gives for a path.
pub uninterp spec fn path_parent(p: Seq<char>) -> Option<Seq<char>>;

/// What `Path::file_name` gives for a path.
pub uninterp spec fn path_file_name(p: Seq<char>) -> Option<Seq<char>>;

/// How `Debug` renders a path.
pub uninterp spec fn path_debug(p: Seq<char>) -> Seq<char>;

/// How `Debug` renders a text.
pub uninterp spec fn text_debug(s: Seq<char>) -> Seq<char>;

/// `Path::join`: `name` appended to `base` as a further component, or
/// `name` itself when it is absolute. The result of joining two texts is
/// text, so rendering it as a string loses nothing.
#[verifier::external_body]
pub(crate) fn join(base: &str, name: &str) -> (r: String)
    ensures
        r@ == path_join(base@, name@),
{
    std::path::Path::new(base).join(name).to_string_lossy().into_owned()
}

/// `Path::parent`: the path without its last component, if it has one. A
/// parent of a text path is a prefix of it at a component boundary, so it is
/// text too.
#[verifier::external_body]
pub(crate) fn parent(p: &str) -> (r: Option<String>)
    ensures
        r matches Some(s) ==> path_parent(p@) == Some(s@),
        r is None ==> path_parent(p@) is None,
{
    match std::path::Path::new(p).parent() {
        Some(q) => Some(q.to_string_lossy().into_owned()),
        None => None,
    }
}

/// `Path::file_name`: the last component of a path, unless it is `..`. A
/// component of a text path is text too.
#[verifier::external_body]
pub(crate) fn file_name(p: &str) -> (r: Option<String>)
    ensures
        r matches Some(s) ==> path_file_name(p@) == Some(s@),
        r is None ==> path_file_name(p@) is None,
{
    match std::path::Path::new(p).file_name() {
        Some(q) => Some(q.to_string_lossy().into_owned()),
        None => None,
    }
}

/// `Debug` of a path, as text.
#[verifier::external_body]
pub(crate) fn debug_path(p: &str) -> (r: String)
    ensures
        r@ == path_debug(p@),
{
    format!("{:?}", std::path::Path::new(p))
}

/// `Debug` of a text, as text.
#[verifier::external_body]
pub(crate) fn debug_text(s: &str) -> (r: String)
    ensures
        r@ == text_debug(s@),
{
    format!("{:?}", s)
}

/// `OsStr::as_encoded_bytes` of a path: the bytes it holds.
#[verifier::external_body]
pub(crate) fn encoded_bytes(p: &PathBuf) -> (r: Vec<u8>)
    ensures
        r@ == path_bytes(*p),
{
    p.as_os_str().as_encoded_bytes().to_vec()
}

/// `Debug` of a path; it depends on nothing but the bytes the path holds.
#[verifier::external_body]
pub(crate) fn debug_path_buf(p: &PathBuf) -> (r: String)
    ensures
        r@ == os_debug(path_bytes(*p)),
{
    format!("{:?}", p.as_os_str())
}

} // verus!
