//! Semantic version triple, three bytes in the container header.

use vstd::prelude::*;

verus! {

/// A semantic version `(major, minor, patch)`, one byte each, ordered
/// lexicographically.  The container header stores one to gate which optional
/// fields are present.
#[derive(Debug, Clone, Copy, PartialEq, Eq, Structural)]
pub struct Semver {
    pub major: u8,
    pub minor: u8,
    pub patch: u8,
}

impl Semver {
    /// Order-embedding of a version into one integer: the lexicographic order
    /// on `(major, minor, patch)` is the numeric order on this key.
    pub open spec fn key(self) -> int {
        self.major * 0x10000 + self.minor * 0x100 + self.patch
    }

    pub fn new(major: u8, minor: u8, patch: u8) -> (v: Semver)
        ensures
            v == (Semver { major, minor, patch }),
    {
        Semver { major, minor, patch }
    }

    /// Reads a version from the first three bytes of `bytes`, taking missing
    /// trailing components as zero.
    pub fn from_bytes(bytes: &Vec<u8>) -> (v: Semver)
        ensures
            v.major == (if bytes@.len() > 0 { bytes@[0] } else { 0u8 }),
            v.minor == (if bytes@.len() > 1 { bytes@[1] } else { 0u8 }),
            v.patch == (if bytes@.len() > 2 { bytes@[2] } else { 0u8 }),
    {
        let major: u8 = if bytes.len() > 0 { bytes[0] } else { 0 };
        let minor: u8 = if bytes.len() > 1 { bytes[1] } else { 0 };
        let patch: u8 = if bytes.len() > 2 { bytes[2] } else { 0 };
        Semver { major, minor, patch }
    }

    /// `self` is at least `other` in the lexicographic order.
    pub fn ge(&self, other: &Semver) -> (r: bool)
        ensures
            r == (self.key() >= other.key()),
    {
        if self.major != other.major {
            self.major > other.major
        } else if self.minor != other.minor {
            self.minor > other.minor
        } else {
            self.patch >= other.patch
        }
    }
}

} // verus!
