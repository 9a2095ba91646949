//! Paths, written as text.
//!
//! How a path splits into names and how names are put together is the platform's affair, so it is
//! left to the standard library, and cleaning a path to `path_clean`.
use vstd::prelude::*;

verus! {

/// What `std::path::Path::join` makes of a path and a path below it.
pub uninterp spec fn joined(path: Seq<char>, below: Seq<char>) -> Seq<char>;

/// What `std::path::Path::with_file_name` makes of a path and a file name.
pub uninterp spec fn with_name(path: Seq<char>, name: Seq<char>) -> Seq<char>;

/// What `std::path::Path::file_name` finds in a path.
pub uninterp spec fn file_name(path: Seq<char>) -> Option<Seq<char>>;

/// What `path_clean::clean` makes of a path.
pub uninterp spec fn cleaned(path: Seq<char>) -> Seq<char>;

/// `std::path::Path::join`. Claimed: on a given platform the result depends on the two
/// texts alone; it is named [`joined`].
#[verifier::external_body]
pub(crate) fn join(path: &str, below: &str) -> (result: String)
    ensures
        result@ == joined(path@, below@),
{
    std::path::Path::new(path).join(below).to_string_lossy().into_owned()
}

/// `std::path::Path::with_file_name`. Claimed: on a given platform the result depends on the
/// two texts alone; it is named [`with_name`].
#[verifier::external_body]
pub(crate) fn with_file_name(path: &str, name: &str) -> (result: String)
    ensures
        result@ == with_name(path@, name@),
{
    std::path::Path::new(path).with_file_name(name).to_string_lossy().into_owned()
}

/// `std::path::Path::file_name`. Claimed: on a given platform the result depends on the text
/// alone; it is named [`file_name`].
#[verifier::external_body]
pub(crate) fn last_name(path: &str) -> (name: Option<String>)
    ensures
        name.deep_view() == file_name(path@),
{
    std::path::Path::new(path).file_name().map(|name| name.to_string_lossy().into_owned())
}

/// `path_clean::clean`, which works on the text of a path and never asks the file system.
/// Claimed: on a given platform the result depends on the text alone; it is named [`cleaned`].
#[verifier::external_body]
pub(crate) fn clean(path: &str) -> (result: String)
    ensures
        result@ == cleaned(path@),
{
    path_clean::clean(path).to_string_lossy().into_owned()
}

/// The last name of a path, or nothing where it has none.
pub open spec fn name_of(path: Seq<char>) -> Seq<char> {
    match file_name(path) {
        Some(name) => name,
        None => Seq::empty(),
    }
}

/// The last name of a path; empty where the path has none.
pub fn get_name(path: &str) -> (name: String)
    ensures
        name@ == name_of(path@),
{
    match last_name(path) {
        Some(name) => name,
        None => String::new(),
    }
}

/// Where a project keeps a node that has a path of its own: beside the project file.
pub open spec fn custom_place(project: Seq<char>, custom: Seq<char>) -> Seq<char> {
    cleaned(with_name(project, custom))
}

/// Where a project keeps a node that has a path of its own: beside the project file.
pub fn custom_path(project: &str, custom: &str) -> (path: String)
    ensures
        path@ == custom_place(project@, custom@),
{
    let beside: String = with_file_name(project, custom);
    clean(beside.as_str())
}

} // verus!
