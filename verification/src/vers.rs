//! Semver versions and ranges, as abstract relations over their text.
//!
//! Version and range strings are interpreted by the `semver` crate; this
//! module names the outcomes of those interpretations (`sv_valid`,
//! `sv_le`, `svr_valid`, `sv_matches`) and exposes them to verified code
//! through trusted wrappers.  Everything downstream reasons only in terms
//! of these relations.

use vstd::prelude::*;

verus! {

/// Whether `s` is a valid semver version, i.e. `semver::Version::parse`
/// accepts it.
pub uninterp spec fn sv_valid(s: Seq<char>) -> bool;

/// The semver total order on valid version strings: `sv_le(a, b)` holds
/// when the version written `a` is less than or equal to the version
/// written `b`.
pub uninterp spec fn sv_le(a: Seq<char>, b: Seq<char>) -> bool;

/// Whether `r` is a valid semver range, i.e. `semver::VersionReq::parse`
/// accepts it.
pub uninterp spec fn svr_valid(r: Seq<char>) -> bool;

/// Whether the range written `r` accepts the version written `v`
/// (`semver::VersionReq::matches`); meaningful when `svr_valid(r)` and
/// `sv_valid(v)` hold.
pub uninterp spec fn sv_matches(r: Seq<char>, v: Seq<char>) -> bool;

/// The lenient reading of a range used throughout resolution: a range
/// that does not parse is treated as the universal range, which accepts
/// every version.
pub open spec fn range_admits(r: Seq<char>, v: Seq<char>) -> bool {
    !svr_valid(r) || sv_matches(r, v)
}

/// A valid version, which therefore contains no `@` (the semver grammar
/// has none); versions of resolved nodes satisfy this, which keeps the
/// `<name>@<version>` identity keys unambiguous.
pub open spec fn sv_ok(v: Seq<char>) -> bool {
    sv_valid(v) && (forall|i: int| 0 <= i < v.len() ==> v[i] != '@')
}

/// Relies on `semver::Version::parse`: reports whether it accepts `s`.
/// The semver grammar (digits, letters, `.`, `-`, `+`) has no `@`, so an
/// accepted version string contains none.  A valid version also parses
/// as a range (`VersionReq` reads a bare version as a caret
/// requirement), and that requirement accepts the version itself.
#[verifier::external_body]
pub fn version_parses(s: &str) -> (r: bool)
    ensures
        r == sv_valid(s@),
        r ==> forall|i: int| 0 <= i < s@.len() ==> s@[i] != '@',
        r ==> svr_valid(s@),
        r ==> sv_matches(s@, s@),
{
    semver::Version::parse(s).is_ok()
}

/// Relies on `semver::Version`'s derived `Ord`: a total order (so the
/// comparison is total, transitive, and antisymmetric, per the `Ord`
/// contract; the version grammar is canonical, so distinct valid texts
/// denote distinct versions), compared here with `<=`.
#[verifier::external_body]
pub fn version_le(a: &str, b: &str) -> (r: bool)
    requires
        sv_valid(a@),
        sv_valid(b@),
    ensures
        r == sv_le(a@, b@),
        r || sv_le(b@, a@),
        r && sv_le(b@, a@) ==> a@ == b@,
        r ==> forall|c: Seq<char>| sv_valid(c) && #[trigger] sv_le(b@, c) ==> sv_le(a@, c),
        r ==> forall|c: Seq<char>| sv_valid(c) && #[trigger] sv_le(c, a@) ==> sv_le(c, b@),
{
    let av = semver::Version::parse(a).unwrap();
    let bv = semver::Version::parse(b).unwrap();
    av <= bv
}

/// Relies on `semver::VersionReq::parse`: reports whether it accepts `r`.
#[verifier::external_body]
pub fn range_parses(r: &str) -> (ok: bool)
    ensures
        ok == svr_valid(r@),
{
    semver::VersionReq::parse(r).is_ok()
}

/// Relies on `semver::VersionReq::matches`: whether the range accepts the
/// version.  A range that is itself a version free of build metadata is
/// read as a caret requirement, which accepts only versions at or above
/// it in semver order.
#[verifier::external_body]
pub fn range_matches(r: &str, v: &str) -> (ok: bool)
    requires
        svr_valid(r@),
        sv_valid(v@),
    ensures
        ok == sv_matches(r@, v@),
        ok && sv_valid(r@) && (forall|i: int| 0 <= i < r@.len() ==> r@[i] != '+') ==> sv_le(
            r@,
            v@,
        ),
{
    let req = semver::VersionReq::parse(r).unwrap();
    let ver = semver::Version::parse(v).unwrap();
    req.matches(&ver)
}

/// The lenient range test of `range_admits`: an unparseable range is
/// universal.
pub fn range_admits_version(r: &str, v: &str) -> (ok: bool)
    requires
        sv_valid(v@),
    ensures
        ok == range_admits(r@, v@),
{
    if range_parses(r) {
        range_matches(r, v)
    } else {
        true
    }
}

} // verus!
