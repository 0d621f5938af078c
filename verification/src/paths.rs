//! Paths, as the standard library takes them apart and puts them together.
//!
//! The library holds every path as a string. What `std::path::Path` makes of
//! one is not restated here: each operation has a name for its result, and
//! the contracts of the library speak of those names. The results are those
//! of the platform that the library is built for; on one platform they
//! depend on the paths alone.

use vstd::prelude::*;
use std::path::Path;

verus! {

/// What `Path::parent` returns for `path`: the path without its last
/// component, where it has one.
pub uninterp spec fn parent_of(path: Seq<char>) -> Option<Seq<char>>;

/// What `Path::join` returns for `base` and `rel`.
pub uninterp spec fn joined(base: Seq<char>, rel: Seq<char>) -> Seq<char>;

/// What `Path::extension` returns for `path`.
pub uninterp spec fn extension_of(path: Seq<char>) -> Option<Seq<char>>;

/// What `Path::starts_with` returns for `path` and `base`: whether `base` is
/// a prefix of `path`, whole components only.
pub uninterp spec fn lies_under(path: Seq<char>, base: Seq<char>) -> bool;

/// Calls `Path::parent`. Trusted: the result is the named one. The parent of
/// a path that is a string is a part of that string, so turning it back into
/// a string loses nothing.
#[verifier::external_body]
pub(crate) fn path_parent(path: &str) -> (r: Option<String>)
    ensures
        r.deep_view() == parent_of(path@),
{
    Path::new(path).parent().map(|p| p.to_string_lossy().into_owned())
}

/// Calls `Path::join`. Trusted: the result is the named one.
#[verifier::external_body]
pub(crate) fn path_join(base: &str, rel: &str) -> (r: String)
    ensures
        r@ == joined(base@, rel@),
{
    Path::new(base).join(rel).to_string_lossy().into_owned()
}

/// Calls `Path::extension`. Trusted: the result is the named one.
#[verifier::external_body]
pub(crate) fn path_extension(path: &str) -> (r: Option<String>)
    ensures
        r.deep_view() == extension_of(path@),
{
    Path::new(path).extension().map(|e| e.to_string_lossy().into_owned())
}

/// Calls `Path::starts_with`. Trusted: the result is the named one.
#[verifier::external_body]
pub(crate) fn path_starts_with(path: &str, base: &str) -> (b: bool)
    ensures
        b == lies_under(path@, base@),
{
    Path::new(path).starts_with(base)
}

} // verus!
