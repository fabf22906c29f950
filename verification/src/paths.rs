//! File paths as strings, taken apart and put together by `std::path`.
//!
//! The results of `std::path` are named, not spelled out: they follow the path
//! syntax of the target the crate is built for.

use vstd::prelude::*;

verus! {

/// The stem of the last component of a path, where it has a file name.
pub uninterp spec fn spec_file_stem(path: Seq<char>) -> Option<Seq<char>>;

/// The extension of the last component of a path, where it has one.
pub uninterp spec fn spec_extension(path: Seq<char>) -> Option<Seq<char>>;

/// A path followed by another path.
pub uninterp spec fn spec_join(base: Seq<char>, name: Seq<char>) -> Seq<char>;

/// A path with its file name replaced.
pub uninterp spec fn spec_with_file_name(path: Seq<char>, name: Seq<char>) -> Seq<char>;

/// The path without its last component, where it has one.
pub uninterp spec fn spec_parent(path: Seq<char>) -> Option<Seq<char>>;

/// Calls `std::path::Path::file_stem`. Trusted: the result is named by
/// `spec_file_stem` of the path's characters. The stem of a path made from a
/// `&str` is valid UTF-8, so the lossy conversion loses nothing.
#[verifier::external_body]
pub(crate) fn path_file_stem(path: &str) -> (stem: Option<String>)
    ensures
        match stem {
            Some(s) => spec_file_stem(path@) == Some(s@),
            None => spec_file_stem(path@) is None,
        },
{
    match std::path::Path::new(path).file_stem() {
        Some(s) => Some(s.to_string_lossy().into_owned()),
        None => None,
    }
}

/// Calls `std::path::Path::extension`. Trusted: the result is named by
/// `spec_extension` of the path's characters.
#[verifier::external_body]
pub(crate) fn path_extension(path: &str) -> (ext: Option<String>)
    ensures
        match ext {
            Some(s) => spec_extension(path@) == Some(s@),
            None => spec_extension(path@) is None,
        },
{
    match std::path::Path::new(path).extension() {
        Some(s) => Some(s.to_string_lossy().into_owned()),
        None => None,
    }
}

/// Calls `std::path::Path::join`. Trusted: the result is named by `spec_join`
/// of the two paths' characters.
#[verifier::external_body]
pub(crate) fn path_join(base: &str, name: &str) -> (joined: String)
    ensures
        joined@ == spec_join(base@, name@),
{
    std::path::Path::new(base).join(name).to_string_lossy().into_owned()
}

/// Calls `std::path::Path::with_file_name`. Trusted: the result is named by
/// `spec_with_file_name` of the path's and the name's characters.
#[verifier::external_body]
pub(crate) fn path_with_file_name(path: &str, name: &str) -> (renamed: String)
    ensures
        renamed@ == spec_with_file_name(path@, name@),
{
    std::path::Path::new(path).with_file_name(name).to_string_lossy().into_owned()
}

/// Calls `std::path::Path::parent`. Trusted: the result is named by
/// `spec_parent` of the path's characters.
#[verifier::external_body]
pub(crate) fn path_parent(path: &str) -> (parent: Option<String>)
    ensures
        match parent {
            Some(p) => spec_parent(path@) == Some(p@),
            None => spec_parent(path@) is None,
        },
{
    match std::path::Path::new(path).parent() {
        Some(p) => Some(p.to_string_lossy().into_owned()),
        None => None,
    }
}

} // verus!
