//! Filesystem-facing collaborators of the index, taken on trust.
//!
//! The index itself never touches the disk directly: path canonicalization,
//! existence probing and Unicode case folding go through the wrappers below.
//! Their results depend on the state of the machine (or, for case folding,
//! on the whole of Unicode), so the contracts state only what holds of every
//! outcome.

use vstd::prelude::*;

use crate::index::Error;

verus! {

/// The case-folded form of a character sequence, as `str::to_lowercase`
/// computes it. It depends on the characters alone, so it is given a name
/// rather than a page of Unicode tables.
pub uninterp spec fn lower_of(s: Seq<char>) -> Seq<char>;

/// Relies on `str::to_lowercase`: the result is a function of the characters
/// alone, named `lower_of`.
#[verifier::external_body]
pub(crate) fn lowercase(s: &str) -> (r: String)
    ensures
        r@ == lower_of(s@),
{
    s.to_lowercase()
}

/// Relies on `dunce::canonicalize` (plain `std::fs::canonicalize` off
/// Windows; on Windows it avoids UNC prefixes where it can): the result is
/// the canonical, absolute form of the path, so it is never the empty
/// string; it errs when the path does not exist or cannot be resolved.
/// A resolved path that is not valid UTF-8 is reported as such.
#[verifier::external_body]
pub(crate) fn canonical_form(path: &str) -> (r: Result<String, Error>)
    ensures
        r matches Ok(p) ==> p@.len() > 0,
        r matches Err(e) ==> e == Error::NotFound || e == Error::InvalidEncoding,
{
    match dunce::canonicalize(path) {
        Err(_) => Err(Error::NotFound),
        Ok(resolved) => match resolved.to_str() {
            Some(s) => Ok(s.to_string()),
            None => Err(Error::InvalidEncoding),
        },
    }
}

/// Relies on `std::path::Path::exists`: a boolean oracle for whether the
/// path currently points at anything on disk. Nothing is promised of the
/// answer; callers state what holds either way.
#[verifier::external_body]
pub(crate) fn path_exists(path: &str) -> bool {
    std::path::Path::new(path).exists()
}

/// Relies on `std::path::Path::is_dir`: a boolean oracle for whether the
/// path currently points at a directory. Nothing is promised of the answer.
#[verifier::external_body]
pub(crate) fn path_is_dir(path: &str) -> bool {
    std::path::Path::new(path).is_dir()
}

/// Relies on `String::push`: appends one character at the end.
#[verifier::external_body]
pub(crate) fn push_char(s: &mut String, c: char)
    ensures
        final(s)@ == old(s)@.push(c),
{
    s.push(c)
}

} // verus!
