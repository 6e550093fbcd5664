//! The version gate of configuration loading: a loaded configuration may
//! carry a semantic version, which must satisfy the application's version
//! requirement. Reading the configuration's layers is I/O and lives with the
//! program embedding this library; the decision taken on the loaded version
//! is here.

use vstd::prelude::*;

verus! {

/// Declares `semver::Version` so that it can stand in fields and
/// signatures; its inside stays opaque here.
#[verifier::external_type_specification]
#[verifier::external_body]
pub struct ExVersion(semver::Version);

/// Declares `semver::VersionReq`, likewise opaque.
#[verifier::external_type_specification]
#[verifier::external_body]
pub struct ExVersionReq(semver::VersionReq);

/// The metadata section of a configuration.
pub struct MetaConfiguration {
    /// The configuration's own version, if it declares one.
    pub version: Option<semver::Version>,
}

/// What to do about a loaded configuration's version.
#[derive(Debug, Clone, Copy, PartialEq, Eq, Structural)]
pub enum VersionGate {
    /// The version satisfies the requirement (or none is demanded).
    Proceed,
    /// No version is declared and the requirement is not the wildcard:
    /// continue, but warn that compatibility is assumed.
    ProceedWithWarning,
    /// The declared version does not satisfy the requirement.
    Reject,
}

/// The decision on a configuration version: a declared version must match;
/// an undeclared one passes, with a warning unless the requirement is the
/// wildcard.
pub open spec fn spec_version_gate(has_version: bool, matched: bool, wildcard: bool) -> VersionGate {
    if has_version {
        if matched {
            VersionGate::Proceed
        } else {
            VersionGate::Reject
        }
    } else {
        if wildcard {
            VersionGate::Proceed
        } else {
            VersionGate::ProceedWithWarning
        }
    }
}

/// Decide from the already-computed facts: whether a version is declared,
/// whether it matched the requirement, and whether the requirement is the
/// wildcard.
pub fn version_gate(has_version: bool, matched: bool, wildcard: bool) -> (r: VersionGate)
    ensures
        r == spec_version_gate(has_version, matched, wildcard),
{
    if has_version {
        if matched {
            VersionGate::Proceed
        } else {
            VersionGate::Reject
        }
    } else {
        if wildcard {
            VersionGate::Proceed
        } else {
            VersionGate::ProceedWithWarning
        }
    }
}

/// Whether `version` satisfies `requirement`: which versions a requirement
/// admits is the requirement grammar's business, so the answer is only
/// named here — a function of the two values alone, the same in every call.
pub uninterp spec fn version_req_matches(
    requirement: semver::VersionReq,
    version: semver::Version,
) -> bool;

/// Whether `version` satisfies `requirement`.
///
/// Relies on `semver::VersionReq::matches`, whose answer depends on its two
/// arguments alone; `version_req_matches` names it.
#[verifier::external_body]
pub(crate) fn requirement_matches(requirement: &semver::VersionReq, version: &semver::Version) -> (r:
    bool)
    ensures
        r == version_req_matches(*requirement, *version),
{
    requirement.matches(version)
}

/// The load-time gate on a configuration's metadata: test the declared
/// version, if any, against the requirement, and decide. `wildcard` says
/// whether the requirement text was the wildcard requirement.
pub fn decide_version_gate(
    meta: &MetaConfiguration,
    requirement: &semver::VersionReq,
    wildcard: bool,
) -> (r: VersionGate)
    ensures
        meta.version matches Some(v) ==> r == spec_version_gate(
            true,
            version_req_matches(*requirement, v),
            wildcard,
        ),
        meta.version is None ==> r == spec_version_gate(false, false, wildcard),
{
    match &meta.version {
        Some(version) => {
            let matched = requirement_matches(requirement, version);
            version_gate(true, matched, wildcard)
        },
        None => version_gate(false, false, wildcard),
    }
}

} // verus!
