//! Hardware abstraction layer for memory management: host frame
//! allocation and physical/virtual conversion.
//!
//! The embedding hypervisor supplies an implementation; the crate ships
//! [`BumpFrameAllocator`], a verified watermark allocator over one host
//! memory window, usable wherever frames need not be reclaimed
//! individually.

use vstd::prelude::*;

use crate::addr::{aligned_4k, wadd, wsub, HostPhysAddr, HostVirtAddr};

verus! {

broadcast use vstd::set::group_set_axioms;

/// What the address space requires of the host: frames come out 4096-byte
/// aligned, never zero (a zero physical address marks an absent entry in
/// the nested page table), and never equal to a frame that is still
/// outstanding; physical and virtual host addresses differ by a constant
/// offset (a direct mapping).
///
/// The spec members expose the allocator's history: the set of
/// outstanding frames and the running counts of successful allocations
/// and deallocations.
pub trait AxMmHal: Sized {
    /// The set of frames handed out and not yet freed.
    spec fn allocated(&self) -> Set<usize>;

    /// How many frames have been handed out so far.
    spec fn alloc_total(&self) -> nat;

    /// How many frames have been freed so far.
    spec fn dealloc_total(&self) -> nat;

    /// The constant the direct mapping adds to a physical address.
    spec fn virt_offset(&self) -> usize;

    /// Allocates a frame and returns its host physical address, or `None`
    /// if allocation fails, in which case nothing changed.
    fn alloc_frame(&mut self) -> (r: Option<HostPhysAddr>)
        ensures
            match r {
                Some(f) => {
                    &&& aligned_4k(f.0)
                    &&& f.0 != 0
                    &&& !old(self).allocated().contains(f.0)
                    &&& final(self).allocated() == old(self).allocated().insert(f.0)
                    &&& final(self).alloc_total() == old(self).alloc_total() + 1
                    &&& final(self).dealloc_total() == old(self).dealloc_total()
                    &&& final(self).virt_offset() == old(self).virt_offset()
                },
                None => *final(self) == *old(self),
            },
    ;

    /// Deallocates a frame given its physical address; only an
    /// outstanding frame may be handed back.
    fn dealloc_frame(&mut self, paddr: HostPhysAddr)
        requires
            old(self).allocated().contains(paddr.0),
        ensures
            final(self).allocated() == old(self).allocated().remove(paddr.0),
            final(self).dealloc_total() == old(self).dealloc_total() + 1,
            final(self).alloc_total() == old(self).alloc_total(),
            final(self).virt_offset() == old(self).virt_offset(),
    ;

    /// Converts a host physical address to a host virtual address through
    /// the direct mapping.
    fn phys_to_virt(&self, paddr: HostPhysAddr) -> (r: HostVirtAddr)
        ensures
            r.0 == wadd(paddr.0, self.virt_offset()),
    ;

    /// Converts a host virtual address back to a host physical address.
    fn virt_to_phys(&self, vaddr: HostVirtAddr) -> (r: HostPhysAddr)
        ensures
            r.0 == wsub(vaddr.0, self.virt_offset()),
    ;
}

/// A watermark frame allocator over the host memory window
/// `[base, base + size)`: frames are handed out in address order and
/// never reused, and the physical/virtual offset is zero.
///
/// Freed frames are only counted, which suits verification of frame
/// accounting and tests; a production HAL would recycle them.
pub struct BumpFrameAllocator {
    base: usize,
    next: usize,
    limit: usize,
    alloc_n: usize,
    dealloc_n: usize,
    frames: Ghost<Set<usize>>,
}

impl BumpFrameAllocator {
    #[verifier::type_invariant]
    spec fn inv(self) -> bool {
        &&& aligned_4k(self.base)
        &&& self.base > 0
        &&& self.base <= self.next <= self.limit
        &&& aligned_4k(self.next)
        &&& self.frames@.finite()
        &&& (forall|f: usize| #[trigger]
            self.frames@.contains(f) ==> self.base <= f && f < self.next && aligned_4k(f))
        &&& self.frames@.len() + self.dealloc_n == self.alloc_n
        &&& self.alloc_n * 4096 <= self.next - self.base
    }

    /// Creates an allocator over the window `[base, base + size)`.
    pub fn new(base: usize, size: usize) -> (r: Self)
        requires
            aligned_4k(base),
            base > 0,
            base + size <= usize::MAX,
        ensures
            r.allocated() == Set::<usize>::empty(),
            r.alloc_total() == 0,
            r.dealloc_total() == 0,
            r.virt_offset() == 0usize,
    {
        let end = base + size;
        let limit = crate::addr::align_down_4k(end);
        proof {
            crate::addr::lemma_align_down_mono(base, end);
        }
        BumpFrameAllocator {
            base,
            next: base,
            limit,
            alloc_n: 0,
            dealloc_n: 0,
            frames: Ghost(Set::empty()),
        }
    }

    /// How many frames this allocator has handed out.
    pub fn alloc_count(&self) -> (r: usize)
        ensures
            r == self.alloc_total(),
    {
        self.alloc_n
    }

    /// How many frames have been handed back.
    pub fn dealloc_count(&self) -> (r: usize)
        ensures
            r == self.dealloc_total(),
    {
        self.dealloc_n
    }
}

impl AxMmHal for BumpFrameAllocator {
    closed spec fn allocated(&self) -> Set<usize> {
        self.frames@
    }

    closed spec fn alloc_total(&self) -> nat {
        self.alloc_n as nat
    }

    closed spec fn dealloc_total(&self) -> nat {
        self.dealloc_n as nat
    }

    closed spec fn virt_offset(&self) -> usize {
        0
    }

    fn alloc_frame(&mut self) -> (r: Option<HostPhysAddr>) {
        proof {
            use_type_invariant(&*self);
        }
        if self.limit - self.next >= 4096 {
            let f = self.next;
            proof {
                assert((self.alloc_n + 1) * 4096 == self.alloc_n * 4096 + 4096) by (nonlinear_arith);
                assert(aligned_4k((self.next + 4096) as usize)) by (nonlinear_arith)
                    requires
                        aligned_4k(self.next),
                        self.next + 4096 <= usize::MAX,
                ;
                assert(!self.frames@.contains(f));
                assert(self.frames@.insert(f).len() == self.frames@.len() + 1);
                assert forall|g: usize| self.frames@.insert(f).contains(g) implies self.base <= g
                    && g < self.next + 4096 && aligned_4k(g) by {
                    if g != f {
                        assert(self.frames@.contains(g));
                    }
                }
            }
            *self = BumpFrameAllocator {
                base: self.base,
                next: self.next + 4096,
                limit: self.limit,
                alloc_n: self.alloc_n + 1,
                dealloc_n: self.dealloc_n,
                frames: Ghost(self.frames@.insert(f)),
            };
            Some(HostPhysAddr(f))
        } else {
            None
        }
    }

    fn dealloc_frame(&mut self, paddr: HostPhysAddr) {
        proof {
            use_type_invariant(&*self);
            if self.frames@.len() == 0 {
                self.frames@.lemma_len0_is_empty();
            }
            assert(self.frames@.len() >= 1);
            assert(self.frames@.remove(paddr.0).len() == self.frames@.len() - 1);
            assert forall|g: usize| self.frames@.remove(paddr.0).contains(g) implies self.base
                <= g && g < self.next && aligned_4k(g) by {
                assert(self.frames@.contains(g));
            }
        }
        *self = BumpFrameAllocator {
            base: self.base,
            next: self.next,
            limit: self.limit,
            alloc_n: self.alloc_n,
            dealloc_n: self.dealloc_n + 1,
            frames: Ghost(self.frames@.remove(paddr.0)),
        };
    }

    fn phys_to_virt(&self, paddr: HostPhysAddr) -> (r: HostVirtAddr) {
        HostVirtAddr(paddr.0)
    }

    fn virt_to_phys(&self, vaddr: HostVirtAddr) -> (r: HostPhysAddr) {
        HostPhysAddr(vaddr.0)
    }
}

} // verus!
