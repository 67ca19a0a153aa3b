//! Guest physical address space management for a hypervisor.
//!
//! This crate tracks which guest-physical ranges of a virtual machine are
//! mapped, by what strategy (linear or allocation-backed), and resolves
//! nested page faults by installing or repairing translations in a nested
//! page table.
//!
//! The address space is exclusively owned and externally serialized: a
//! single writer at a time, no internal locking.

use vstd::prelude::*;

pub mod addr;
pub mod address_space;
pub mod area;
pub mod backend;
pub mod device;
pub mod error;
pub mod flags;
pub mod hal;
pub mod laws;
pub mod npt;

pub use addr::{GuestPhysAddr, GuestPhysAddrRange, HostPhysAddr, HostVirtAddr};
pub use address_space::AddrSpace;
pub use area::{MemoryArea, MemorySet};
pub use backend::Backend;
pub use error::{AxError, MappingError, PagingError};
pub use flags::MappingFlags;
pub use hal::{AxMmHal, BumpFrameAllocator};
pub use npt::NestedPageTable;

verus! {

/// Information about nested page faults, as delivered by a VM-exit
/// dispatcher.
#[derive(Clone, Copy, PartialEq, Eq, Structural, Debug)]
pub struct NestedPageFaultInfo {
    /// Access type that caused the nested page fault.
    pub access_flags: MappingFlags,
    /// Guest physical address that caused the nested page fault.
    pub fault_guest_paddr: GuestPhysAddr,
}

/// Translates an area-set mapping error into the crate-wide error type.
pub fn mapping_err_to_ax_err(err: MappingError) -> (r: AxError)
    ensures
        r == (match err {
            MappingError::InvalidParam => AxError::InvalidInput,
            MappingError::AlreadyExists => AxError::AlreadyExists,
            MappingError::BadState => AxError::BadState,
        }),
{
    match err {
        MappingError::InvalidParam => AxError::InvalidInput,
        MappingError::AlreadyExists => AxError::AlreadyExists,
        MappingError::BadState => AxError::BadState,
    }
}

} // verus!
