//! The path classifier: which paths belong to the toolchain or the SDK.

use vstd::prelude::*;
use crate::paths::{lies_under, path_starts_with};
use crate::text::{chars_of, contains_chars, has_prefix, has_substring, matches_at};

verus! {

/// A path counts as a system path when it begins with `/usr/` or `/opt/`, or
/// holds one of `toolchain`, `sysroot`, `gcc`, `clang`. The test is on the
/// characters as they stand and distinguishes upper from lower case.
pub open spec fn system_path(path: Seq<char>) -> bool {
    ||| has_prefix(path, "/usr/"@)
    ||| has_prefix(path, "/opt/"@)
    ||| has_substring(path, "toolchain"@)
    ||| has_substring(path, "sysroot"@)
    ||| has_substring(path, "gcc"@)
    ||| has_substring(path, "clang"@)
}

/// Classifies a directory or a resolved header by the text of its path.
pub fn is_system_path(path: &str) -> (b: bool)
    ensures
        b == system_path(path@),
{
    let p = chars_of(path);
    matches_at(&p, 0, &chars_of("/usr/")) || matches_at(&p, 0, &chars_of("/opt/"))
        || contains_chars(&p, &chars_of("toolchain")) || contains_chars(&p, &chars_of("sysroot"))
        || contains_chars(&p, &chars_of("gcc")) || contains_chars(&p, &chars_of("clang"))
}

/// Some directory among `dirs` holds `path`.
pub open spec fn under_any(path: Seq<char>, dirs: Seq<Seq<char>>) -> bool {
    exists|i: int| 0 <= i < dirs.len() && lies_under(path, #[trigger] dirs[i])
}

/// Tests whether a header lies under one of the system directories.
pub fn is_system_header(header_path: &str, system_dirs: &Vec<String>) -> (b: bool)
    ensures
        b == under_any(header_path@, system_dirs.deep_view()),
{
    let ghost dirs = system_dirs.deep_view();
    let mut i: usize = 0;
    while i < system_dirs.len()
        invariant
            i <= system_dirs.len(),
            dirs == system_dirs.deep_view(),
            forall|j: int| 0 <= j < i ==> !lies_under(header_path@, #[trigger] dirs[j]),
        decreases system_dirs.len() - i,
    {
        if path_starts_with(header_path, system_dirs[i].as_str()) {
            assert(lies_under(header_path@, dirs[i as int]));
            return true;
        }
        i += 1;
    }
    false
}

} // verus!
