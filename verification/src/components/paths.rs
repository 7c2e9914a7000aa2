//! Path operations of the standard library, reached through trusted
//! wrappers. Paths are held as text; each wrapper turns the text into a
//! `Path`, makes one call, and turns the answer back into text. The
//! contracts take Unix path rules: `/` is the only separator, and a path is
//! absolute when it starts with `/` (on Windows a path that starts with `/`
//! has no prefix and is not absolute, and a prefix such as `C:` changes when
//! a separator is added).
use std::path::Path;
use vstd::prelude::*;
use crate::helpers::rules::texts;

verus! {

/// What `Path::file_name` gives for a path, as text.
pub uninterp spec fn path_file_name(path: Seq<char>) -> Option<Seq<char>>;

/// What `Path::parent` gives for a path, as text.
pub uninterp spec fn path_parent(path: Seq<char>) -> Option<Seq<char>>;

/// What `Path::join` gives for a base path and a further path, as text.
pub uninterp spec fn path_join(base: Seq<char>, part: Seq<char>) -> Seq<char>;

/// What `Path::components` gives for a path, each component as its text
/// (`Component::as_os_str`): `/` for the root, `.` and `..` for the current
/// and parent directory, and the name of every other component. A name is
/// never `/`, `.` or `..`, so two paths have the same components exactly
/// when these texts agree, and paths compare equal by their components.
pub uninterp spec fn path_components(path: Seq<char>) -> Seq<Seq<char>>;

/// Calls `std::path::Path::file_name`. Trusted: the answer is the named
/// result `path_file_name` of the path; nothing more is claimed of it (a
/// name taken from a `&str` is valid UTF-8, so the lossless conversion to
/// text gives the name itself).
#[verifier::external_body]
pub(crate) fn file_name_of(path: &str) -> (r: Option<String>)
    ensures
        match r {
            Some(n) => path_file_name(path@) == Some(n@),
            None => path_file_name(path@) is None,
        },
{
    match Path::new(path).file_name() {
        Some(name) => Some(name.to_string_lossy().into_owned()),
        None => None,
    }
}

/// Calls `std::path::Path::parent`. Trusted: the answer, shown as text, is
/// the named result `path_parent` of the path; nothing more is claimed.
#[verifier::external_body]
pub(crate) fn parent_of(path: &str) -> (r: Option<String>)
    ensures
        match r {
            Some(p) => path_parent(path@) == Some(p@),
            None => path_parent(path@) is None,
        },
{
    match Path::new(path).parent() {
        Some(parent) => Some(parent.display().to_string()),
        None => None,
    }
}

/// Calls `std::path::Path::join`. Trusted: the joined path, shown as text,
/// is the named result `path_join` of the two arguments. As the
/// documentation of `PathBuf::push` says, an absolute further path (under
/// Unix path rules, one that starts with `/`) replaces the base; how a
/// relative one is joined is not claimed here.
#[verifier::external_body]
pub(crate) fn join_path(base: &str, part: &str) -> (r: String)
    ensures
        r@ == path_join(base@, part@),
        part@.len() > 0 && part@[0] == '/' ==> r@ == part@,
{
    Path::new(base).join(part).display().to_string()
}

/// Calls `std::path::Path::components` and shows each component as text.
/// Trusted: the texts are the named result `path_components` of the path,
/// and, as the documentation of `Path::components` says (repeated
/// separators are ignored and trailing separators are normalized away), a
/// non-empty path has the same components with one more `/` at its end
/// (under Unix path rules, where a path has no prefix).
#[verifier::external_body]
pub(crate) fn components_of(path: &str) -> (r: Vec<String>)
    ensures
        texts(r@) == path_components(path@),
        path@.len() > 0 ==> texts(r@) == path_components(path@.push('/')),
{
    Path::new(path).components().map(|c| c.as_os_str().to_string_lossy().into_owned()).collect()
}

} // verus!
