//! File-system path text through `std::path`.
//!
//! Paths are held as text. What `std::path` computes on them (component
//! parsing, separators, prefixes) is named here, not restated; those rules
//! are the target platform's (Windows or Unix), fixed when the library is
//! built, so each name is one function of its arguments. Two facts are
//! stated: setting a file name that is a single plain component makes that
//! component the file name, as `PathBuf::set_file_name` documents (it pops
//! the old name, if any, and pushes the new one); and the parent of a path is
//! the path without its final component, so a leading part of its text.

use vstd::prelude::*;

verus! {

/// The final component of a path, if it is a normal one (`Path::file_name`).
pub uninterp spec fn file_name_of(p: Seq<char>) -> Option<Seq<char>>;

/// The path with its file name replaced (`Path::with_file_name`).
pub uninterp spec fn with_file_name_of(p: Seq<char>, name: Seq<char>) -> Seq<char>;

/// The path without its final component (`Path::parent`).
pub uninterp spec fn parent_of(p: Seq<char>) -> Option<Seq<char>>;

/// The extension of the final component, if it has one (`Path::extension`).
pub uninterp spec fn extension_of(p: Seq<char>) -> Option<Seq<char>>;

/// `base`'s components are a leading part of `p`'s (`Path::starts_with`):
/// `p` is `base` or lies inside it.
pub uninterp spec fn path_starts_with_of(p: Seq<char>, base: Seq<char>) -> bool;

/// The two path texts name the same path: `Path`'s `==`, which compares the
/// paths' components.
pub uninterp spec fn same_path_of(a: Seq<char>, b: Seq<char>) -> bool;

/// The path extended by another (`Path::join`).
pub uninterp spec fn joined_path_of(p: Seq<char>, rest: Seq<char>) -> Seq<char>;

/// The path with its extension replaced (`Path::with_extension`).
pub uninterp spec fn with_extension_of(p: Seq<char>, ext: Seq<char>) -> Seq<char>;

/// A single ordinary path component: not empty, not `.` or `..`, and free
/// of separators and drive-prefix colons.
pub open spec fn plain_component(name: Seq<char>) -> bool {
    &&& name.len() > 0
    &&& name != seq!['.']
    &&& name != seq!['.', '.']
    &&& forall|k: int|
        0 <= k < name.len() ==> name[k] != '/' && name[k] != '\\' && name[k] != ':'
}

/// `Path::file_name` of the path text `p`, as text.
#[verifier::external_body]
pub(crate) fn file_name(p: &str) -> (r: Option<String>)
    ensures
        match r {
            Some(n) => file_name_of(p@) == Some(n@),
            None => file_name_of(p@).is_none(),
        },
{
    match std::path::Path::new(p).file_name() {
        Some(n) => Some(n.to_string_lossy().into_owned()),
        None => None,
    }
}

/// `Path::with_file_name`: the named result. When `name` is a single plain
/// component, it is the file name of the result. When moreover `p` has a file
/// name, the result is a sibling of `p`, as `PathBuf::set_file_name`
/// documents (pop the old name, push the new one): it has the same parent,
/// and setting another plain name on it gives what setting that name on `p`
/// gives. Setting `p`'s own (plain) name on it gives `p` again as a path:
/// the parent of `p` with `p`'s final component pushed, the same components.
#[verifier::external_body]
pub(crate) fn with_file_name(p: &str, name: &str) -> (r: String)
    ensures
        r@ == with_file_name_of(p@, name@),
        plain_component(name@) ==> file_name_of(r@) == Some(name@),
        plain_component(name@) && file_name_of(p@) is Some ==> parent_of(r@) == parent_of(p@),
        plain_component(name@) && file_name_of(p@) is Some ==> forall|b: Seq<char>|
            plain_component(b) ==> #[trigger] with_file_name_of(r@, b) == with_file_name_of(p@, b),
        match file_name_of(p@) {
            Some(m) => plain_component(name@) && plain_component(m) ==> same_path_of(
                with_file_name_of(r@, m),
                p@,
            ),
            None => true,
        },
{
    std::path::Path::new(p).with_file_name(name).to_string_lossy().into_owned()
}

/// `Path::parent` of the path text `p`, as text: a leading part of `p`.
#[verifier::external_body]
pub(crate) fn parent(p: &str) -> (r: Option<String>)
    ensures
        match r {
            Some(q) => parent_of(p@) == Some(q@) && q@.len() <= p@.len() && q@ == p@.subrange(
                0,
                q@.len() as int,
            ),
            None => parent_of(p@).is_none(),
        },
{
    match std::path::Path::new(p).parent() {
        Some(q) => Some(q.to_string_lossy().into_owned()),
        None => None,
    }
}

/// `Path::extension` of the path text `p`, as text.
#[verifier::external_body]
pub(crate) fn extension(p: &str) -> (r: Option<String>)
    ensures
        match r {
            Some(e) => extension_of(p@) == Some(e@),
            None => extension_of(p@).is_none(),
        },
{
    match std::path::Path::new(p).extension() {
        Some(e) => Some(e.to_string_lossy().into_owned()),
        None => None,
    }
}

/// `Path::starts_with` of two path texts: whole components are compared.
#[verifier::external_body]
pub(crate) fn starts_with_path(p: &str, base: &str) -> (r: bool)
    ensures
        r == path_starts_with_of(p@, base@),
{
    std::path::Path::new(p).starts_with(base)
}

/// `Path::join` of two path texts, as text.
#[verifier::external_body]
pub(crate) fn join(p: &str, rest: &str) -> (r: String)
    ensures
        r@ == joined_path_of(p@, rest@),
{
    std::path::Path::new(p).join(rest).to_string_lossy().into_owned()
}

/// `Path::with_extension` of a path text, as text. `PathBuf::set_extension`
/// panics on an extension that holds a path separator, so `ext` holds none.
#[verifier::external_body]
pub(crate) fn with_extension(p: &str, ext: &str) -> (r: String)
    requires
        forall|k: int| 0 <= k < ext@.len() ==> ext@[k] != '/' && ext@[k] != '\\',
    ensures
        r@ == with_extension_of(p@, ext@),
{
    std::path::Path::new(p).with_extension(ext).to_string_lossy().into_owned()
}

/// The folder this app keeps its files in: `steam-downgrader` under the
/// `APPDATA` folder, or under the working folder where that is not set.
pub open spec fn store_dir_of(appdata: Option<Seq<char>>) -> Seq<char> {
    joined_path_of(
        match appdata {
            Some(a) => a,
            None => "."@,
        },
        "steam-downgrader"@,
    )
}

/// The folder this app keeps its files in, given the `APPDATA` variable.
pub fn store_dir(appdata: Option<&str>) -> (r: String)
    ensures
        r@ == store_dir_of(
            match appdata {
                Some(a) => Some(a@),
                None => None,
            },
        ),
{
    match appdata {
        Some(a) => join(a, "steam-downgrader"),
        None => join(".", "steam-downgrader"),
    }
}

} // verus!
