//! Permission flags of a mapping: a bitset tested by containment
//! (`access` is a subset of the declared flags), never by equality.

use vstd::prelude::*;

verus! {

/// Bit of a readable mapping.
pub const MF_READ: usize = 1;

/// Bit of a writable mapping.
pub const MF_WRITE: usize = 2;

/// Bit of an executable mapping.
pub const MF_EXECUTE: usize = 4;

/// Bit of a user-accessible mapping.
pub const MF_USER: usize = 8;

/// Bit of a device-memory mapping.
pub const MF_DEVICE: usize = 16;

/// Bit of an uncached mapping.
pub const MF_UNCACHED: usize = 32;

/// A bitset of mapping permissions (read/write/execute/user-accessible,
/// plus implementation-defined bits).
#[derive(Clone, Copy, PartialEq, Eq, Structural, Debug)]
pub struct MappingFlags(pub usize);

impl MappingFlags {
    /// Whether no bit is set.
    pub open spec fn spec_is_empty(self) -> bool {
        self.0 == 0
    }

    /// Whether every bit of `other` is also set in `self`.
    pub open spec fn spec_contains(self, other: Self) -> bool {
        self.0 & other.0 == other.0
    }

    /// The flag set with no bit set: the placeholder permission of a
    /// lazily populated page that has not faulted in yet.
    pub fn empty() -> (r: Self)
        ensures
            r.0 == 0,
    {
        MappingFlags(0)
    }

    /// Builds a flag set from raw bits.
    pub fn from_bits(bits: usize) -> (r: Self)
        ensures
            r.0 == bits,
    {
        MappingFlags(bits)
    }

    /// The raw bits of the flag set.
    pub fn bits(self) -> (r: usize)
        ensures
            r == self.0,
    {
        self.0
    }

    /// Whether no bit is set.
    pub fn is_empty(self) -> (r: bool)
        ensures
            r == self.spec_is_empty(),
    {
        self.0 == 0
    }

    /// Whether every bit of `other` is also set in `self`; access checks
    /// test the faulting access against an area's declared flags this way.
    pub fn contains(self, other: Self) -> (r: bool)
        ensures
            r == self.spec_contains(other),
    {
        self.0 & other.0 == other.0
    }
}

} // verus!
