//! Error taxonomy: invalid-input (misaligned or out-of-range request),
//! conflict (overlapping area), bad-state (page-table or backend
//! inconsistency) and out-of-memory (frame allocation failure).

use vstd::prelude::*;

verus! {

/// The crate-wide error type returned by address-space operations.
#[derive(Clone, Copy, PartialEq, Eq, Structural, Debug)]
pub enum AxError {
    /// The request was misaligned, empty, or outside the address space.
    InvalidInput,
    /// The requested range overlaps an existing area.
    AlreadyExists,
    /// The page table or a backend is in an inconsistent state.
    BadState,
    /// A frame or root-table allocation failed.
    NoMemory,
}

/// Error type of area-set mapping operations.
#[derive(Clone, Copy, PartialEq, Eq, Structural, Debug)]
pub enum MappingError {
    /// Invalid parameter (an empty or overflowing range).
    InvalidParam,
    /// The given range overlaps with an existing mapping.
    AlreadyExists,
    /// The backend page table is in a bad state.
    BadState,
}

/// Error type of nested-page-table operations.
#[derive(Clone, Copy, PartialEq, Eq, Structural, Debug)]
pub enum PagingError {
    /// Cannot allocate memory for the root table.
    NoMemory,
    /// The mapping is not present.
    NotMapped,
    /// The mapping is already present.
    AlreadyMapped,
    /// The entry is a huge page where a 4 KiB page was expected.
    MappedToHugePage,
}

} // verus!
