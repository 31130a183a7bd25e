//! Paths, as texts.

use vstd::prelude::*;

use std::path::Path;

verus! {

/// Whether a path starts at the root.
pub open spec fn absolute(path: Seq<char>) -> bool {
    path.len() > 0 && path[0] == '/'
}

/// A path taken from a folder: an absolute one stands as it is.
pub open spec fn joined(base: Seq<char>, path: Seq<char>) -> Seq<char> {
    if absolute(path) {
        path
    } else if base.len() == 0 || base.last() == '/' {
        base + path
    } else {
        base + "/"@ + path
    }
}

/// Whether a path starts at the root.
pub fn is_absolute(path: &str) -> (out: bool)
    ensures
        out == absolute(path@),
{
    path.unicode_len() > 0 && path.get_char(0) == '/'
}

/// A path taken from a folder: an absolute one stands as it is.
pub fn join(base: &str, path: &str) -> (out: String)
    ensures
        out@ == joined(base@, path@),
{
    if is_absolute(path) {
        return path.to_owned();
    }
    let mut out: String = base.to_owned();
    let n: usize = base.unicode_len();
    if n > 0 && base.get_char(n - 1) != '/' {
        out.append("/");
    }
    out.append(path);
    out
}

/// The folder that a path lies in, as std takes a path apart; none for the root and for an
/// empty path.
pub uninterp spec fn parent_of(path: Seq<char>) -> Option<Seq<char>>;

/// `Path::parent` gives the path without its last component, which depends on the path
/// alone.
#[verifier::external_body]
pub(crate) fn parent(path: &str) -> (out: Option<String>)
    ensures
        out is Some <==> parent_of(path@) is Some,
        out matches Some(p) ==> parent_of(path@) == Some(p@),
{
    Path::new(path).parent().map(|p| p.to_string_lossy().into_owned())
}

/// The last component of a path, as std takes a path apart, if it is a name.
pub uninterp spec fn file_name_of(path: Seq<char>) -> Option<Seq<char>>;

/// `Path::file_name` gives the last component of a path, if it is a name, which depends on the
/// path alone.
#[verifier::external_body]
pub(crate) fn file_name(path: &str) -> (out: Option<String>)
    ensures
        out is Some <==> file_name_of(path@) is Some,
        out matches Some(name) ==> file_name_of(path@) == Some(name@),
{
    Path::new(path).file_name().map(|n| n.to_string_lossy().into_owned())
}

/// The last component of a path without its extension, as std takes a path apart, if it is a
/// name.
pub uninterp spec fn file_stem_of(path: Seq<char>) -> Option<Seq<char>>;

/// `Path::file_stem` gives the last component of a path without its extension, if it is a
/// name, which depends on the path alone.
#[verifier::external_body]
pub(crate) fn file_stem(path: &str) -> (out: Option<String>)
    ensures
        out is Some <==> file_stem_of(path@) is Some,
        out matches Some(name) ==> file_stem_of(path@) == Some(name@),
{
    Path::new(path).file_stem().map(|n| n.to_string_lossy().into_owned())
}

} // verus!
