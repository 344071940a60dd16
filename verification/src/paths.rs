//! File paths as the analyzer sees them: text, taken apart and compared by
//! `std::path`, and classified by extension and by directory.

use crate::text::{contains_text, has_substring, same_text};
use std::path::Path;
use vstd::prelude::*;

verus! {

/// What `std::path::Path::extension` gives for a path, as text.
pub uninterp spec fn path_extension(path: Seq<char>) -> Option<Seq<char>>;

/// What `std::path::Path::ancestors` yields for a path: the path itself, then
/// its parent, then the parent of that, and so on.
pub uninterp spec fn path_ancestors(path: Seq<char>) -> Seq<Seq<char>>;

/// What `std::path::Path::join` gives for a directory and a name.
pub uninterp spec fn path_join(dir: Seq<char>, name: Seq<char>) -> Seq<char>;

/// Whether `std::path::Path` compares two paths as equal.
pub uninterp spec fn path_equal(a: Seq<char>, b: Seq<char>) -> bool;

/// What `std::path::Path::strip_prefix` leaves of a path below a base, or
/// `None` where the path does not start with the base.
pub uninterp spec fn path_below(path: Seq<char>, base: Seq<char>) -> Option<Seq<char>>;

/// The view of an optional string.
pub open spec fn optional_text(text: Option<String>) -> Option<Seq<char>> {
    match text {
        Some(t) => Some(t@),
        None => None,
    }
}

/// Calls `std::path::Path::extension`. Trusted: the result is the extension
/// that std finds in `path`, which depends on `path` alone.
#[verifier::external_body]
fn extension_of(path: &str) -> (ext: Option<String>)
    ensures
        optional_text(ext) == path_extension(path@),
{
    Path::new(path).extension().map(|e| e.to_string_lossy().into_owned())
}

/// Calls `std::path::Path::ancestors`. Trusted: the result lists what std
/// yields for `path`, in its order, which depends on `path` alone.
#[verifier::external_body]
pub(crate) fn ancestors_of(path: &str) -> (dirs: Vec<String>)
    ensures
        dirs.deep_view() == path_ancestors(path@),
{
    Path::new(path).ancestors().map(|p| p.to_string_lossy().into_owned()).collect()
}

/// Calls `std::path::Path::join`. Trusted: the result is the path that std
/// builds from `dir` and `name`, which depends on the two alone.
#[verifier::external_body]
pub(crate) fn join_of(dir: &str, name: &str) -> (joined: String)
    ensures
        joined@ == path_join(dir@, name@),
{
    Path::new(dir).join(name).to_string_lossy().into_owned()
}

/// Compares two paths as `std::path::Path` does, component by component.
/// Trusted: the answer depends on the two paths alone.
#[verifier::external_body]
pub(crate) fn equal_paths(a: &str, b: &str) -> (equal: bool)
    ensures
        equal == path_equal(a@, b@),
{
    Path::new(a) == Path::new(b)
}

/// Calls `std::path::Path::strip_prefix`. Trusted: the result is what std
/// leaves of `path` below `base`, and `None` where std reports that `path`
/// does not start with `base`; it depends on the two paths alone.
#[verifier::external_body]
fn below_of(path: &str, base: &str) -> (rest: Option<String>)
    ensures
        optional_text(rest) == path_below(path@, base@),
{
    match Path::new(path).strip_prefix(base) {
        Ok(rest) => Some(rest.to_string_lossy().into_owned()),
        Err(_) => None,
    }
}

/// Whether `ext` is one of the source-file extensions that the analyzer
/// follows.
pub open spec fn is_source_extension(ext: Seq<char>) -> bool {
    ext == "js"@ || ext == "jsx"@ || ext == "ts"@ || ext == "tsx"@ || ext == "mjs"@ || ext
        == "cjs"@
}

/// Whether an extension, if there is one, marks a source file.
pub open spec fn is_supported_extension(ext: Option<Seq<char>>) -> bool {
    match ext {
        Some(e) => is_source_extension(e),
        None => false,
    }
}

/// Whether a path names a source file: it has an extension, and the extension
/// is one of `js`, `jsx`, `ts`, `tsx`, `mjs`, `cjs`.
pub open spec fn is_supported_path(path: Seq<char>) -> bool {
    is_supported_extension(path_extension(path))
}

/// The directory name that marks installed third-party packages.
pub open spec fn dependency_directory() -> Seq<char> {
    "node_modules"@
}

/// Whether a path lies in a dependency directory: its text holds
/// `node_modules` somewhere.
pub open spec fn is_excluded_path(path: Seq<char>) -> bool {
    has_substring(path, dependency_directory())
}

/// The name of the project configuration file.
pub open spec fn config_file_name() -> Seq<char> {
    "tsconfig.json"@
}

/// A path as the reports show it: relative to the project root where it lies
/// below it, unchanged elsewhere.
pub open spec fn display_path(path: Seq<char>, root: Seq<char>) -> Seq<char> {
    match path_below(path, root) {
        Some(rest) => rest,
        None => path,
    }
}

/// Decides from a file's extension whether the analyzer follows the file.
pub fn extension_is_supported(ext: &Option<String>) -> (supported: bool)
    ensures
        supported == is_supported_extension(optional_text(*ext)),
{
    match ext {
        Some(e) => {
            let e: &str = e.as_str();
            same_text(e, "js") || same_text(e, "jsx") || same_text(e, "ts") || same_text(e, "tsx")
                || same_text(e, "mjs") || same_text(e, "cjs")
        },
        None => false,
    }
}

/// Whether `path` names a source file that the analyzer follows.
pub fn is_supported_file(path: &str) -> (supported: bool)
    ensures
        supported == is_supported_path(path@),
{
    let ext = extension_of(path);
    extension_is_supported(&ext)
}

/// Whether `path` lies in a dependency directory.
pub fn is_excluded(path: &str) -> (excluded: bool)
    ensures
        excluded == is_excluded_path(path@),
{
    contains_text(path, "node_modules")
}

/// The directories above a file, nearest first: its parent, then the parent
/// of that, up to the root of the file system.
pub open spec fn directories_above(file: Seq<char>) -> Seq<Seq<char>> {
    if path_ancestors(file).len() == 0 {
        Seq::empty()
    } else {
        path_ancestors(file).skip(1)
    }
}

/// The directory that holds a file, or `.` for a path without a parent.
pub open spec fn containing_directory(file: Seq<char>) -> Seq<char> {
    if path_ancestors(file).len() > 1 {
        path_ancestors(file)[1]
    } else {
        "."@
    }
}

/// The directory against which the imports of `file` are resolved.
pub fn base_directory(file: &str) -> (dir: String)
    ensures
        dir@ == containing_directory(file@),
{
    let mut dirs = ancestors_of(file);
    if dirs.len() > 1 {
        dirs.swap_remove(1)
    } else {
        ".".to_owned()
    }
}

/// A path as the reports show it, relative to `root` where it lies below it.
pub fn relative_to(path: &str, root: &str) -> (shown: String)
    ensures
        shown@ == display_path(path@, root@),
{
    match below_of(path, root) {
        Some(rest) => rest,
        None => path.to_owned(),
    }
}

} // verus!
