//! Compiler versions.

use semver::Version;
use vstd::prelude::*;

verus! {

/// The version of a compiler, `semver::Version`. The library carries versions through and does not
/// look inside.
#[verifier::external_type_specification]
#[verifier::external_body]
pub struct ExVersion(semver::Version);

/// `semver::Version::clone`: a clone is the same version. The numbers are copied, and so are the
/// texts of the pre-release and of the build metadata.
pub assume_specification[ <semver::Version as Clone>::clone ](version: &semver::Version) -> (r:
    semver::Version)
    ensures
        r == *version,
;

/// The compiler run that something comes from.
pub struct Run<'a> {
    pub version: &'a Version,
    pub build_id: &'a str,
    pub profile: &'a str,
}

/// What a [`Run`] says.
pub struct RunKey {
    pub version: Version,
    pub build_id: Seq<char>,
    pub profile: Seq<char>,
}

impl<'a> View for Run<'a> {
    type V = RunKey;

    open spec fn view(&self) -> RunKey {
        RunKey { version: *self.version, build_id: self.build_id@, profile: self.profile@ }
    }
}

} // verus!
