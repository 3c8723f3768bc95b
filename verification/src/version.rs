//! Specification versions, their ordering, and the version-gated behaviors.

use vstd::prelude::*;

verus! {

/// An ordered (major, minor, patch) triple naming a specification version.
#[derive(Clone, Copy, Debug, PartialEq, Eq, Structural, PartialOrd, Ord, Hash)]
pub struct Version {
    /// Major version number
    pub major: i32,
    /// Minor version number
    pub minor: i32,
    /// Patch version number
    pub patch: i32,
}

impl Version {
    /// Constructs a version; negative numbers are rejected.
    pub fn new(major: i32, minor: i32, patch: i32) -> (r: Version)
        requires
            0 <= major,
            0 <= minor,
            0 <= patch,
        ensures
            r.major == major,
            r.minor == minor,
            r.patch == patch,
    {
        Version { major, minor, patch }
    }
}

/// Lexicographic order on version triples.
pub open spec fn spec_version_le(a: Version, b: Version) -> bool {
    a.major < b.major || (a.major == b.major && (a.minor < b.minor || (a.minor == b.minor
        && a.patch <= b.patch)))
}

/// Decides the lexicographic order on version triples.
pub fn version_le(a: &Version, b: &Version) -> (r: bool)
    ensures
        r == spec_version_le(*a, *b),
{
    a.major < b.major || (a.major == b.major && (a.minor < b.minor || (a.minor == b.minor
        && a.patch <= b.patch)))
}

/// The newest specification version whose behavior this library implements.
pub open spec fn spec_current_version() -> Version {
    Version { major: 0, minor: 12, patch: 5 }
}

/// Returns the newest specification version this library implements.
pub fn get_version() -> (r: Version)
    ensures
        r == spec_current_version(),
{
    Version { major: 0, minor: 12, patch: 5 }
}

/// Value lowercasing of the enumerated properties applies from 0.9.0 on;
/// a resolution requested against an older version keeps values verbatim.
pub open spec fn spec_lowercase_gate(v: Version) -> bool {
    spec_version_le(Version { major: 0, minor: 9, patch: 0 }, v)
}

/// Decides whether the requested version enables value lowercasing.
pub fn lowercase_gate(v: &Version) -> (r: bool)
    ensures
        r == spec_lowercase_gate(*v),
{
    let intro = Version { major: 0, minor: 9, patch: 0 };
    version_le(&intro, v)
}

} // verus!
