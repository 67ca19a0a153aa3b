//! Definitions about device accessing: access widths, port numbers,
//! system-register addresses, and inclusive ranges of them.

use vstd::prelude::*;

use crate::addr::{GuestPhysAddr, GuestPhysAddrRange};

verus! {

/// An address-like type that can be used to access devices.
pub trait DeviceAddr: Copy + PartialEq {

}

/// A range of device addresses. It may be contiguous or not.
pub trait DeviceAddrRange {
    /// The address type of the range.
    type Addr: DeviceAddr;

    /// Which addresses the range is considered to contain.
    spec fn spec_contains(&self, addr: Self::Addr) -> bool;

    /// Returns whether the address range contains the given address.
    fn contains(&self, addr: Self::Addr) -> (r: bool)
        ensures
            r == self.spec_contains(addr),
    ;
}

impl DeviceAddr for GuestPhysAddr {

}

impl DeviceAddrRange for GuestPhysAddrRange {
    type Addr = GuestPhysAddr;

    open spec fn spec_contains(&self, addr: GuestPhysAddr) -> bool {
        GuestPhysAddrRange::spec_contains(*self, addr)
    }

    fn contains(&self, addr: GuestPhysAddr) -> (r: bool) {
        GuestPhysAddrRange::contains(*self, addr)
    }
}

/// The width of an access.
///
/// Note that the term "word" here refers to 16-bit data, as in the x86
/// architecture.
#[derive(Debug, Clone, Copy, PartialEq, Eq, Structural, PartialOrd, Ord)]
pub enum AccessWidth {
    /// 8-bit access.
    Byte,
    /// 16-bit access.
    Word,
    /// 32-bit access.
    Dword,
    /// 64-bit access.
    Qword,
}

impl AccessWidth {
    /// The size in bytes that a width denotes.
    pub open spec fn spec_size(self) -> usize {
        match self {
            AccessWidth::Byte => 1,
            AccessWidth::Word => 2,
            AccessWidth::Dword => 4,
            AccessWidth::Qword => 8,
        }
    }

    /// Builds an access width from a size in bytes; sizes other than 1,
    /// 2, 4 and 8 are rejected.
    pub fn try_from(value: usize) -> (r: Result<Self, ()>)
        ensures
            r == (match value {
                1usize => Ok::<AccessWidth, ()>(AccessWidth::Byte),
                2usize => Ok::<AccessWidth, ()>(AccessWidth::Word),
                4usize => Ok::<AccessWidth, ()>(AccessWidth::Dword),
                8usize => Ok::<AccessWidth, ()>(AccessWidth::Qword),
                _ => Err::<AccessWidth, ()>(()),
            }),
    {
        match value {
            1 => Ok(Self::Byte),
            2 => Ok(Self::Word),
            4 => Ok(Self::Dword),
            8 => Ok(Self::Qword),
            _ => Err(()),
        }
    }

    /// Returns the size of the access in bytes.
    pub fn size(&self) -> (r: usize)
        ensures
            r == self.spec_size(),
    {
        match self {
            AccessWidth::Byte => 1,
            AccessWidth::Word => 2,
            AccessWidth::Dword => 4,
            AccessWidth::Qword => 8,
        }
    }

    /// Returns the range of bits, as `(low, high)`, that the access
    /// covers.
    pub fn bits_range(&self) -> (r: (usize, usize))
        ensures
            r.0 == 0,
            r.1 == 8 * self.spec_size(),
    {
        match self {
            AccessWidth::Byte => (0, 8),
            AccessWidth::Word => (0, 16),
            AccessWidth::Dword => (0, 32),
            AccessWidth::Qword => (0, 64),
        }
    }
}

impl vstd::std_specs::convert::FromSpecImpl<AccessWidth> for usize {
    open spec fn obeys_from_spec() -> bool {
        true
    }

    open spec fn from_spec(width: AccessWidth) -> usize {
        width.spec_size()
    }
}

impl From<AccessWidth> for usize {
    /// Converts a width to its size in bytes.
    fn from(width: AccessWidth) -> (r: usize) {
        width.size()
    }
}

/// The port number of an I/O operation.
#[derive(Debug, Clone, Copy, PartialEq, Eq, Structural, PartialOrd, Ord)]
pub struct Port(pub u16);

impl Port {
    /// Creates a new `Port` instance.
    pub fn new(port: u16) -> (r: Self)
        ensures
            r.0 == port,
    {
        Self(port)
    }

    /// Returns the port number.
    pub fn number(&self) -> (r: u16)
        ensures
            r == self.0,
    {
        self.0
    }
}

impl DeviceAddr for Port {

}

/// A system register address.
#[derive(Debug, Clone, Copy, PartialEq, Eq, Structural, PartialOrd, Ord)]
pub struct SysRegAddr(pub usize);

impl SysRegAddr {
    /// Creates a new `SysRegAddr` instance.
    pub fn new(addr: usize) -> (r: Self)
        ensures
            r.0 == addr,
    {
        Self(addr)
    }

    /// Returns the address.
    pub fn addr(&self) -> (r: usize)
        ensures
            r == self.0,
    {
        self.0
    }
}

impl DeviceAddr for SysRegAddr {

}

/// An inclusive range of system register addresses.
///
/// Unlike [`GuestPhysAddrRange`], this type is inclusive on both ends.
#[derive(Copy, Clone, Eq, PartialEq, Structural, Debug)]
pub struct SysRegAddrRange {
    /// The start address of the range.
    pub start: SysRegAddr,
    /// The end address of the range.
    pub end: SysRegAddr,
}

impl SysRegAddrRange {
    /// Creates a new [`SysRegAddrRange`] instance.
    pub fn new(start: SysRegAddr, end: SysRegAddr) -> (r: Self)
        ensures
            r.start == start,
            r.end == end,
    {
        Self { start, end }
    }
}

impl DeviceAddrRange for SysRegAddrRange {
    type Addr = SysRegAddr;

    open spec fn spec_contains(&self, addr: SysRegAddr) -> bool {
        self.start.0 <= addr.0 <= self.end.0
    }

    fn contains(&self, addr: SysRegAddr) -> (r: bool) {
        addr.0 >= self.start.0 && addr.0 <= self.end.0
    }
}

/// An inclusive range of port numbers.
///
/// Unlike [`GuestPhysAddrRange`], this type is inclusive on both ends.
#[derive(Copy, Clone, Eq, PartialEq, Structural, Debug)]
pub struct PortRange {
    /// The start port number of the range.
    pub start: Port,
    /// The end port number of the range.
    pub end: Port,
}

impl PortRange {
    /// Creates a new [`PortRange`] instance.
    pub fn new(start: Port, end: Port) -> (r: Self)
        ensures
            r.start == start,
            r.end == end,
    {
        Self { start, end }
    }
}

impl DeviceAddrRange for PortRange {
    type Addr = Port;

    open spec fn spec_contains(&self, addr: Port) -> bool {
        self.start.0 <= addr.0 <= self.end.0
    }

    fn contains(&self, addr: Port) -> (r: bool) {
        addr.0 >= self.start.0 && addr.0 <= self.end.0
    }
}

} // verus!
