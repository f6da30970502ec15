//! Semantic versions, through the `semver` and `lenient_semver` crates.
use vstd::prelude::*;

verus! {

/// Whether `semver::Version::parse` accepts the text.
pub uninterp spec fn semver_valid(s: Seq<char>) -> bool;

/// Whether the version `version` satisfies the requirement made of the operator `op`
/// (`<`, `=` or `>`) followed by the version `req`, as `semver::VersionReq::matches` decides.
pub uninterp spec fn semver_matches(op: Seq<char>, req: Seq<char>, version: Seq<char>) -> bool;

/// The canonical text (`Display`) of the version `lenient_semver::parse` reads from the text,
/// when it reads one.
pub uninterp spec fn lenient_version(s: Seq<char>) -> Option<Seq<char>>;

/// Reads a version leniently with `lenient_semver::parse` (a missing minor or patch number
/// counts as 0) and writes it back with `semver::Version`'s `Display`. The text written is a
/// version that `semver::Version::parse` accepts.
#[verifier::external_body]
pub fn lenient_version_text(s: &str) -> (r: Option<String>)
    ensures
        opt_view(r) == lenient_version(s@),
        r matches Some(t) ==> semver_valid(t@),
{
    match lenient_semver::parse(s) {
        Ok(v) => Some(v.to_string()),
        Err(_) => None,
    }
}

/// Asks `semver::Version::parse` whether it reads the text.
#[verifier::external_body]
pub(crate) fn semver_parses(s: &str) -> (r: bool)
    ensures
        r == semver_valid(s@),
{
    semver::Version::parse(s).is_ok()
}

pub open spec fn opt_view(o: Option<String>) -> Option<Seq<char>> {
    match o {
        Some(s) => Some(s@),
        None => None,
    }
}

/// Parses `req` with `semver::Version::parse` (the caller guarantees that it parses), builds
/// the requirement `op` followed by it with `semver::VersionReq::parse`, and asks
/// `VersionReq::matches` about `version` parsed with `semver::Version::parse`. A `version`
/// that does not parse satisfies nothing.
#[verifier::external_body]
pub(crate) fn semver_req_matches(op: &str, req: &str, version: &str) -> (r: bool)
    requires
        semver_valid(req@),
    ensures
        r == semver_matches(op@, req@, version@),
{
    let req_version = semver::Version::parse(req).unwrap();
    let plugin_version = match semver::Version::parse(version) {
        Ok(v) => v,
        Err(_) => return false,
    };
    match semver::VersionReq::parse(&format!("{}{}", op, req_version)) {
        Ok(r) => r.matches(&plugin_version),
        Err(_) => false,
    }
}

} // verus!
