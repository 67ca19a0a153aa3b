//! Address types of the guest-physical and host address spaces, with
//! 4 KiB alignment helpers and half-open address ranges.

use vstd::prelude::*;

verus! {

/// The size of a 4 KiB page, the granule of every mapping operation.
pub const PAGE_SIZE_4K: usize = 4096;

/// A guest physical address: the address space the virtual machine
/// perceives as physical memory.
#[derive(Clone, Copy, PartialEq, Eq, Structural, Debug)]
pub struct GuestPhysAddr(pub usize);

/// A host physical address, as handed out by the host frame allocator.
#[derive(Clone, Copy, PartialEq, Eq, Structural, Debug)]
pub struct HostPhysAddr(pub usize);

/// A host virtual address, as produced by the host's physical-to-virtual
/// conversion.
#[derive(Clone, Copy, PartialEq, Eq, Structural, Debug)]
pub struct HostVirtAddr(pub usize);

/// Whether `addr` is a multiple of 4096.
pub open spec fn aligned_4k(addr: usize) -> bool {
    addr % 4096 == 0
}

/// `addr` rounded down to the nearest multiple of 4096.
pub open spec fn align_down_4k_spec(addr: usize) -> usize {
    (addr - addr % 4096) as usize
}

/// Wrapping subtraction on `usize`, used to express physical-virtual
/// offsets that may "underflow" (the linear backend relies on the double
/// wrap cancelling out).
pub open spec fn wsub(a: usize, b: usize) -> usize {
    vstd::wrapping::usize_specs::wrapping_sub(a, b)
}

/// Wrapping addition on `usize`.
pub open spec fn wadd(a: usize, b: usize) -> usize {
    vstd::wrapping::usize_specs::wrapping_add(a, b)
}

/// Whether `addr` is a multiple of 4096.
pub fn is_aligned_4k(addr: usize) -> (r: bool)
    ensures
        r == aligned_4k(addr),
{
    addr % 4096 == 0
}

/// Rounds `addr` down to the nearest multiple of 4096.
pub fn align_down_4k(addr: usize) -> (r: usize)
    ensures
        r == align_down_4k_spec(addr),
        aligned_4k(r),
        r <= addr,
{
    proof {
        assert(align_down_4k_spec(addr) % 4096 == 0) by {
            assert((addr - addr % 4096) % 4096 == 0) by (nonlinear_arith);
        };
    }
    addr - addr % 4096
}

/// Wrapping subtraction of two 4096-aligned values is 4096-aligned: the
/// modulus is a multiple of the page size, so the wrap preserves
/// alignment.
pub proof fn lemma_wsub_aligned(a: usize, b: usize)
    requires
        aligned_4k(a),
        aligned_4k(b),
    ensures
        aligned_4k(wsub(a, b)),
{
    if a - b < 0 {
        assert((usize::MAX - usize::MIN + 1) % 4096 == 0);
        assert((a - b + (usize::MAX - usize::MIN + 1)) % 4096 == 0) by (nonlinear_arith)
            requires
                a % 4096 == 0,
                b % 4096 == 0,
                (usize::MAX - usize::MIN + 1) % 4096 == 0,
        ;
    } else {
        assert((a - b) % 4096 == 0) by (nonlinear_arith)
            requires
                a % 4096 == 0,
                b % 4096 == 0,
                a - b >= 0,
        ;
    }
}

/// Rounding down an already aligned value changes nothing.
pub proof fn lemma_align_down_id(a: usize)
    requires
        aligned_4k(a),
    ensures
        align_down_4k_spec(a) == a,
{
}

/// Rounding down to a page keeps an address at or above any aligned
/// lower bound.
pub proof fn lemma_align_down_mono(bound: usize, addr: usize)
    requires
        aligned_4k(bound),
        bound <= addr,
    ensures
        bound <= align_down_4k_spec(addr),
{
    assert(bound <= addr - addr % 4096) by (nonlinear_arith)
        requires
            bound % 4096 == 0,
            bound <= addr,
    ;
}

/// Between two distinct 4096-aligned values lies at least one page.
pub proof fn lemma_aligned_step(a: usize, b: usize)
    requires
        aligned_4k(a),
        aligned_4k(b),
        a < b,
    ensures
        a + 4096 <= b,
{
    assert(a + 4096 <= b) by (nonlinear_arith)
        requires
            a % 4096 == 0,
            b % 4096 == 0,
            a < b,
    ;
}

/// The sum of two 4096-aligned values is 4096-aligned.
pub proof fn lemma_aligned_add(a: usize, b: usize)
    requires
        aligned_4k(a),
        aligned_4k(b),
        a + b <= usize::MAX,
    ensures
        aligned_4k((a + b) as usize),
{
    assert((a + b) % 4096 == 0) by (nonlinear_arith)
        requires
            a % 4096 == 0,
            b % 4096 == 0,
    ;
}

/// The distance between two 4096-aligned values is 4096-aligned.
pub proof fn lemma_aligned_sub(a: usize, b: usize)
    requires
        aligned_4k(a),
        aligned_4k(b),
        b <= a,
    ensures
        aligned_4k((a - b) as usize),
{
    assert((a - b) % 4096 == 0) by (nonlinear_arith)
        requires
            a % 4096 == 0,
            b % 4096 == 0,
            b <= a,
    ;
}

impl GuestPhysAddr {
    /// Builds a guest physical address from its numeric value.
    pub fn from_usize(value: usize) -> (r: Self)
        ensures
            r.0 == value,
    {
        GuestPhysAddr(value)
    }

    /// The numeric value of the address.
    pub fn as_usize(self) -> (r: usize)
        ensures
            r == self.0,
    {
        self.0
    }

    /// Whether the address is 4096-byte aligned.
    pub fn is_aligned_4k(self) -> (r: bool)
        ensures
            r == aligned_4k(self.0),
    {
        is_aligned_4k(self.0)
    }
}

impl HostPhysAddr {
    /// Builds a host physical address from its numeric value.
    pub fn from_usize(value: usize) -> (r: Self)
        ensures
            r.0 == value,
    {
        HostPhysAddr(value)
    }

    /// The numeric value of the address.
    pub fn as_usize(self) -> (r: usize)
        ensures
            r == self.0,
    {
        self.0
    }

    /// Whether the address is 4096-byte aligned.
    pub fn is_aligned_4k(self) -> (r: bool)
        ensures
            r == aligned_4k(self.0),
    {
        is_aligned_4k(self.0)
    }
}

impl HostVirtAddr {
    /// Builds a host virtual address from its numeric value.
    pub fn from_usize(value: usize) -> (r: Self)
        ensures
            r.0 == value,
    {
        HostVirtAddr(value)
    }

    /// The numeric value of the address.
    pub fn as_usize(self) -> (r: usize)
        ensures
            r == self.0,
    {
        self.0
    }
}

/// A half-open range `[start, end)` of guest physical addresses.
#[derive(Clone, Copy, PartialEq, Eq, Structural, Debug)]
pub struct GuestPhysAddrRange {
    /// The lower bound of the range (inclusive).
    pub start: GuestPhysAddr,
    /// The upper bound of the range (exclusive).
    pub end: GuestPhysAddr,
}

impl GuestPhysAddrRange {
    /// Whether the bounds are ordered.
    pub open spec fn wf(self) -> bool {
        self.start.0 <= self.end.0
    }

    /// Whether `addr` lies within the range.
    pub open spec fn spec_contains(self, addr: GuestPhysAddr) -> bool {
        self.start.0 <= addr.0 < self.end.0
    }

    /// Whether the whole of `other` lies within the range.
    pub open spec fn spec_contains_range(self, other: GuestPhysAddrRange) -> bool {
        self.start.0 <= other.start.0 && other.end.0 <= self.end.0
    }

    /// Builds the range `[start, start + size)`.
    pub fn from_start_size(start: GuestPhysAddr, size: usize) -> (r: Self)
        requires
            start.0 + size <= usize::MAX,
        ensures
            r.start == start,
            r.end.0 == start.0 + size,
    {
        GuestPhysAddrRange { start, end: GuestPhysAddr(start.0 + size) }
    }

    /// The number of bytes the range covers.
    pub fn size(self) -> (r: usize)
        requires
            self.wf(),
        ensures
            r == self.end.0 - self.start.0,
    {
        self.end.0 - self.start.0
    }

    /// Whether `addr` lies within the range.
    pub fn contains(self, addr: GuestPhysAddr) -> (r: bool)
        ensures
            r == self.spec_contains(addr),
    {
        self.start.0 <= addr.0 && addr.0 < self.end.0
    }

    /// Whether the whole of `other` lies within the range.
    pub fn contains_range(self, other: GuestPhysAddrRange) -> (r: bool)
        ensures
            r == self.spec_contains_range(other),
    {
        self.start.0 <= other.start.0 && other.end.0 <= self.end.0
    }
}

} // verus!
