//! Resolution of file paths named inside an input file.

use vstd::prelude::*;

verus! {

/// Wraps `std::path::Path::is_absolute`.  Nothing is claimed of the result:
/// what counts as absolute differs between platforms.
#[verifier::external_body]
fn path_is_absolute(p: &str) -> bool {
    std::path::Path::new(p).is_absolute()
}

/// Wraps `std::path::Path::parent`: the path without its final component,
/// `None` for a root or an empty path.  Nothing is claimed of the result:
/// separators and prefixes differ between platforms.
#[verifier::external_body]
fn path_parent(p: &str) -> Option<String> {
    std::path::Path::new(p).parent().map(|q| q.to_string_lossy().into_owned())
}

/// Wraps `std::path::Path::join`: `rel` appended to `base`, or `rel` itself
/// when it is absolute.  Nothing is claimed of the result: separators
/// differ between platforms.
#[verifier::external_body]
fn path_join(base: &str, rel: &str) -> String {
    std::path::Path::new(base).join(rel).to_string_lossy().into_owned()
}

/// Text of the directory a relative path is taken from: the input file's
/// parent `input_parent`, or `"."` when it has none.
pub open spec fn base_text(input_parent: Option<String>) -> Seq<char> {
    match input_parent {
        Some(p) => p@,
        None => "."@,
    }
}

/// Directory a relative path named inside an input file is taken from:
/// the one holding the input file (`input_parent`), or the current
/// directory `"."` when the input file's path has none.
pub fn base_directory(input_parent: Option<String>) -> (d: String)
    ensures
        d@ == base_text(input_parent),
        input_parent matches Some(p) ==> d@ == p@,
        input_parent is None ==> d@ == "."@,
{
    match input_parent {
        Some(p) => p,
        None => {
            proof {
                reveal_strlit(".");
            }
            String::from_str(".")
        },
    }
}

/// How a path named inside an input file is resolved.
pub enum Resolution {
    /// Kept as written: the path text itself.
    Keep(String),
    /// Joined onto this base directory.
    JoinOnto(String),
}

/// Decides how `relative_path`, named inside an input file whose parent
/// directory is `input_parent`, is resolved: kept as written when it is
/// absolute (`relative_is_absolute`), otherwise joined onto the input
/// file's parent, or onto `"."` when the input file's path has none.
pub fn resolution(relative_is_absolute: bool, relative_path: &str, input_parent: Option<String>) -> (r:
    Resolution)
    ensures
        relative_is_absolute ==> (r matches Resolution::Keep(t) && t@ == relative_path@),
        !relative_is_absolute ==> (r matches Resolution::JoinOnto(b) && b@ == base_text(input_parent)),
{
    if relative_is_absolute {
        Resolution::Keep(String::from_str(relative_path))
    } else {
        Resolution::JoinOnto(base_directory(input_parent))
    }
}

/// Resolves `relative_path`, named inside the file `input_file`: an absolute
/// path is kept as it is, a relative one is taken relative to the directory
/// that holds the input file (the current directory when it has none).
/// Whether a path is absolute, the parent of the input file and the joined
/// path are the platform's own (`std::path`), so nothing is stated of the
/// result here; the decision on them is [`resolution`]'s.
pub fn resolve_path(input_file: &str, relative_path: &str) -> String {
    let absolute = path_is_absolute(relative_path);
    let parent = if absolute {
        None
    } else {
        path_parent(input_file)
    };
    match resolution(absolute, relative_path, parent) {
        Resolution::Keep(t) => t,
        Resolution::JoinOnto(base) => path_join(base.as_str(), relative_path),
    }
}

} // verus!
