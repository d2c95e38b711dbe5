use std::path::Path;

use vstd::prelude::*;

verus! {

/// The text of `base` joined with `rest` by `std::path::Path::join` on Unix:
/// an absolute `rest` replaces `base`; otherwise a `/` goes between them
/// unless `base` is empty or already ends with one.
pub open spec fn joined_path(base: Seq<char>, rest: Seq<char>) -> Seq<char> {
    if rest.len() > 0 && rest[0] == '/' {
        rest
    } else if base.len() == 0 || base.last() == '/' {
        base + rest
    } else {
        base + seq!['/'] + rest
    }
}

/// Whether two path texts name the same path under `std::path::Path`'s
/// component-wise comparison.
pub uninterp spec fn same_path(a: Seq<char>, b: Seq<char>) -> bool;

/// Whether two path texts name the same path; identical texts always do.
pub open spec fn path_matches(a: Seq<char>, b: Seq<char>) -> bool {
    a == b || same_path(a, b)
}

/// The final component of a path, as `std::path::Path::file_name` gives it.
pub uninterp spec fn path_file_name(path: Seq<char>) -> Option<Seq<char>>;

/// Whether a path's final component has an extension, as
/// `std::path::Path::extension` finds it.
pub uninterp spec fn path_has_extension(path: Seq<char>) -> bool;

/// Relies on `std::path::Path::extension`.
#[verifier::external_body]
pub(crate) fn has_extension(path: &str) -> (r: bool)
    ensures
        r == path_has_extension(path@),
{
    Path::new(path).extension().is_some()
}

/// Relies on `std::path::Path::join`, as `joined_path` states it for Unix.
#[verifier::external_body]
pub(crate) fn join_path(base: &str, rest: &str) -> (r: String)
    ensures
        r@ == joined_path(base@, rest@),
{
    Path::new(base).join(rest).to_string_lossy().into_owned()
}

/// Relies on `PartialEq` for `std::path::Path`, which compares components
/// and is an equivalence (`Path` implements `Eq`): identical texts are equal.
#[verifier::external_body]
pub(crate) fn paths_equal(a: &str, b: &str) -> (r: bool)
    ensures
        r == same_path(a@, b@),
        a@ == b@ ==> r,
{
    Path::new(a) == Path::new(b)
}

/// Relies on `std::path::Path::file_name`; a name taken from UTF-8 text is UTF-8.
#[verifier::external_body]
pub(crate) fn file_name_of(path: &str) -> (r: Option<String>)
    ensures
        match r {
            Some(name) => path_file_name(path@) == Some(name@),
            None => path_file_name(path@) is None,
        },
{
    Path::new(path).file_name().map(|name| name.to_string_lossy().into_owned())
}

} // verus!
