//! Semantic-version validity and precedence, obtained through the `semver`
//! crate.

use vstd::prelude::*;

verus! {

/// Whether a text is a valid semantic version; a function of the text alone.
pub uninterp spec fn semver_ok(s: Seq<char>) -> bool;

/// The precedence of two valid semantic-version texts: negative when the
/// first is lower, zero when they are equal, positive when the first is
/// higher; a function of the two texts alone.
pub uninterp spec fn semver_cmp(a: Seq<char>, b: Seq<char>) -> int;

/// Relies on semver::Version::parse: whether a text parses as a semantic
/// version depends on the text alone.
#[verifier::external_body]
pub(crate) fn semver_is_valid(s: &str) -> (r: bool)
    ensures
        r == semver_ok(s@),
{
    semver::Version::parse(s).is_ok()
}

/// Relies on semver::Version::parse and on semver's `Ord` for `Version`
/// (semantic-version precedence, with build metadata as a tie-break): the
/// parse results and their order depend on the two texts alone.
#[verifier::external_body]
pub(crate) fn semver_compare(a: &str, b: &str) -> (r: i8)
    requires
        semver_ok(a@),
        semver_ok(b@),
    ensures
        r == -1 || r == 0 || r == 1,
        (r == 0) == (semver_cmp(a@, b@) == 0),
        (r == -1) == (semver_cmp(a@, b@) < 0),
        (r == 1) == (semver_cmp(a@, b@) > 0),
{
    let av = semver::Version::parse(a).unwrap();
    let bv = semver::Version::parse(b).unwrap();
    match av.cmp(&bv) {
        core::cmp::Ordering::Less => -1,
        core::cmp::Ordering::Equal => 0,
        core::cmp::Ordering::Greater => 1,
    }
}

} // verus!
