//! The nested (second-level) page table: a hardware-walked translation
//! structure keyed by guest-physical address.
//!
//! The table is modelled at its interface: a finite map from 4096-aligned
//! guest page addresses to entries. A key being present stands for the
//! walk down the intermediate tables reaching a leaf slot; a present key
//! whose flags are empty is a placeholder (the slot exists but translates
//! nothing), which is how lazily populated regions await their first
//! fault. Queries and unmaps treat placeholders as not mapped, while
//! `remap` can still install a translation through them.

use std::collections::HashMap;

use vstd::prelude::*;

use crate::addr::{align_down_4k, align_down_4k_spec, aligned_4k, GuestPhysAddr, HostPhysAddr};
use crate::error::PagingError;
use crate::flags::MappingFlags;
use crate::hal::AxMmHal;

verus! {

broadcast use vstd::std_specs::hash::group_hash_axioms;

/// The page sizes a nested page table can hold.
#[derive(Debug, Copy, Clone, Eq, PartialEq, Structural)]
pub enum PageSize {
    /// Size of 4 kilobytes (2^12 bytes).
    Size4K,
    /// Size of 2 megabytes (2^21 bytes).
    Size2M,
    /// Size of 1 gigabytes (2^30 bytes).
    Size1G,
}

impl PageSize {
    /// The size in bytes.
    pub open spec fn spec_bytes(self) -> usize {
        match self {
            PageSize::Size4K => 4096,
            PageSize::Size2M => 0x20_0000,
            PageSize::Size1G => 0x4000_0000,
        }
    }

    /// The size in bytes.
    pub fn bytes(self) -> (r: usize)
        ensures
            r == self.spec_bytes(),
    {
        match self {
            PageSize::Size4K => 4096,
            PageSize::Size2M => 0x20_0000,
            PageSize::Size1G => 0x4000_0000,
        }
    }

    /// Whether this page size is considered huge (larger than 4 KiB).
    pub fn is_huge(self) -> (r: bool)
        ensures
            r == (self != PageSize::Size4K),
    {
        match self {
            PageSize::Size4K => false,
            PageSize::Size2M => true,
            PageSize::Size1G => true,
        }
    }
}

/// One leaf slot of the nested page table.
#[derive(Debug, Copy, Clone, Eq, PartialEq, Structural)]
pub struct PtEntry {
    /// The host physical address of the target frame (4096-aligned).
    pub pa: usize,
    /// The permissions of the translation; empty flags make the slot a
    /// placeholder that translates nothing.
    pub flags: MappingFlags,
    /// The size of the page the slot covers.
    pub size: PageSize,
}

/// A nested page table for one guest-physical range, 4 KiB-granular.
pub struct NestedPageTable {
    root_paddr: usize,
    slots_map: HashMap<usize, PtEntry>,
}

/// The placeholder entry: an existing slot that translates nothing.
pub open spec fn placeholder_entry() -> PtEntry {
    PtEntry { pa: 0, flags: MappingFlags(0), size: PageSize::Size4K }
}

impl NestedPageTable {
    /// The leaf slots, keyed by 4096-aligned guest page address.
    pub closed spec fn slots(self) -> Map<usize, PtEntry> {
        self.slots_map@
    }

    /// The root table's host physical address.
    pub closed spec fn spec_root(self) -> usize {
        self.root_paddr
    }

    /// Every key is a page address, every slot covers 4 KiB, and every
    /// target frame address is page-aligned.
    pub open spec fn wf(self) -> bool {
        forall|vp: usize| #[trigger]
            self.slots().dom().contains(vp) ==> aligned_4k(vp) && self.slots()[vp].size
                == PageSize::Size4K && aligned_4k(self.slots()[vp].pa)
    }

    /// Whether the page at `vp` (a 4096-aligned address) currently
    /// translates: its slot exists and has non-empty flags.
    pub open spec fn present(self, vp: usize) -> bool {
        self.slots().dom().contains(vp) && !self.slots()[vp].flags.spec_is_empty()
    }

    /// Creates a page table, allocating the root table frame through the
    /// host abstraction; fails with out-of-memory if that allocation
    /// fails, changing nothing.
    pub fn try_new<H: AxMmHal>(hal: &mut H) -> (r: Result<Self, PagingError>)
        ensures
            match r {
                Ok(pt) => {
                    &&& pt.wf()
                    &&& pt.slots() == Map::<usize, PtEntry>::empty()
                    &&& aligned_4k(pt.spec_root()) && pt.spec_root() != 0
                    &&& final(hal).allocated() == old(hal).allocated().insert(pt.spec_root())
                    &&& !old(hal).allocated().contains(pt.spec_root())
                    &&& final(hal).alloc_total() == old(hal).alloc_total() + 1
                    &&& final(hal).dealloc_total() == old(hal).dealloc_total()
                    &&& final(hal).virt_offset() == old(hal).virt_offset()
                },
                Err(e) => e == PagingError::NoMemory && *final(hal) == *old(hal),
            },
    {
        match hal.alloc_frame() {
            Some(root) => Ok(NestedPageTable { root_paddr: root.0, slots_map: HashMap::new() }),
            None => Err(PagingError::NoMemory),
        }
    }

    /// Returns the physical address of the root page table.
    pub fn root_paddr(&self) -> (r: HostPhysAddr)
        ensures
            r.0 == self.spec_root(),
    {
        HostPhysAddr(self.root_paddr)
    }

    /// Maps the page at `vaddr` (aligned down) to the frame at `target`
    /// (aligned down) with the given flags. Fails if the page already
    /// translates; a placeholder slot is overwritten. Mapping with empty
    /// flags installs a placeholder.
    pub fn map(
        &mut self,
        vaddr: GuestPhysAddr,
        target: HostPhysAddr,
        page_size: PageSize,
        flags: MappingFlags,
    ) -> (r: Result<(), PagingError>)
        requires
            old(self).wf(),
            page_size == PageSize::Size4K,
        ensures
            final(self).wf(),
            final(self).spec_root() == old(self).spec_root(),
            ({
                let vp = align_down_4k_spec(vaddr.0);
                match r {
                    Ok(()) => {
                        &&& !old(self).present(vp)
                        &&& final(self).slots() == old(self).slots().insert(
                            vp,
                            PtEntry {
                                pa: align_down_4k_spec(target.0),
                                flags,
                                size: PageSize::Size4K,
                            },
                        )
                    },
                    Err(e) => {
                        &&& e == PagingError::AlreadyMapped
                        &&& old(self).present(vp)
                        &&& *final(self) == *old(self)
                    },
                }
            }),
    {
        let vp = align_down_4k(vaddr.0);
        let occupied = match self.slots_map.get(&vp) {
            Some(e) => !e.flags.is_empty(),
            None => false,
        };
        if occupied {
            return Err(PagingError::AlreadyMapped);
        }
        let pa = align_down_4k(target.0);
        self.slots_map.insert(vp, PtEntry { pa, flags, size: PageSize::Size4K });
        Ok(())
    }

    /// Removes the translation of the page at `vaddr` (aligned down),
    /// leaving a placeholder slot behind, and reports the frame, page
    /// size and flags that were removed. Fails if the page does not
    /// translate, changing nothing.
    pub fn unmap(&mut self, vaddr: GuestPhysAddr) -> (r: Result<
        (HostPhysAddr, PageSize, MappingFlags),
        PagingError,
    >)
        requires
            old(self).wf(),
        ensures
            final(self).wf(),
            final(self).spec_root() == old(self).spec_root(),
            ({
                let vp = align_down_4k_spec(vaddr.0);
                match r {
                    Ok(t) => {
                        &&& old(self).present(vp)
                        &&& t.0.0 == old(self).slots()[vp].pa
                        &&& t.1 == old(self).slots()[vp].size
                        &&& t.2 == old(self).slots()[vp].flags
                        &&& final(self).slots() == old(self).slots().insert(
                            vp,
                            placeholder_entry(),
                        )
                    },
                    Err(e) => {
                        &&& e == PagingError::NotMapped
                        &&& !old(self).present(vp)
                        &&& *final(self) == *old(self)
                    },
                }
            }),
    {
        let vp = align_down_4k(vaddr.0);
        let found = match self.slots_map.get(&vp) {
            Some(e) => {
                if e.flags.is_empty() {
                    None
                } else {
                    Some(*e)
                }
            },
            None => None,
        };
        match found {
            Some(e) => {
                self.slots_map.insert(
                    vp,
                    PtEntry { pa: 0, flags: MappingFlags(0), size: PageSize::Size4K },
                );
                Ok((HostPhysAddr(e.pa), e.size, e.flags))
            },
            None => Err(PagingError::NotMapped),
        }
    }

    /// Queries the translation of the address `vaddr`: the physical
    /// address of the corresponding byte (the page translation plus the
    /// offset within the page), the flags and the page size. Fails if the
    /// page does not translate.
    pub fn query(&self, vaddr: GuestPhysAddr) -> (r: Result<
        (HostPhysAddr, MappingFlags, PageSize),
        PagingError,
    >)
        requires
            self.wf(),
        ensures
            ({
                let vp = align_down_4k_spec(vaddr.0);
                match r {
                    Ok(t) => {
                        &&& self.present(vp)
                        &&& t.0.0 == self.slots()[vp].pa + (vaddr.0 - vp)
                        &&& t.1 == self.slots()[vp].flags
                        &&& t.2 == self.slots()[vp].size
                    },
                    Err(e) => e == PagingError::NotMapped && !self.present(vp),
                }
            }),
    {
        let vp = align_down_4k(vaddr.0);
        match self.slots_map.get(&vp) {
            Some(e) => {
                if e.flags.is_empty() {
                    Err(PagingError::NotMapped)
                } else {
                    proof {
                        assert(aligned_4k(e.pa) && e.pa <= usize::MAX);
                        assert(vaddr.0 - vp < 4096);
                        assert(e.pa + 4096 <= usize::MAX + 1) by (nonlinear_arith)
                            requires
                                aligned_4k(e.pa),
                                e.pa <= usize::MAX,
                        ;
                    }
                    Ok((HostPhysAddr(e.pa + (vaddr.0 - vp)), e.flags, e.size))
                }
            },
            None => Err(PagingError::NotMapped),
        }
    }

    /// Repairs the slot of the page at `vaddr` (aligned down): updates
    /// both the frame address (aligned down) and the flags. The slot must
    /// exist — a placeholder suffices, which is what the lazy fault path
    /// relies on — otherwise nothing changes.
    pub fn remap(&mut self, vaddr: GuestPhysAddr, paddr: HostPhysAddr, flags: MappingFlags) -> (r:
        Result<PageSize, PagingError>)
        requires
            old(self).wf(),
        ensures
            final(self).wf(),
            final(self).spec_root() == old(self).spec_root(),
            ({
                let vp = align_down_4k_spec(vaddr.0);
                match r {
                    Ok(size) => {
                        &&& old(self).slots().dom().contains(vp)
                        &&& size == old(self).slots()[vp].size
                        &&& final(self).slots() == old(self).slots().insert(
                            vp,
                            PtEntry {
                                pa: align_down_4k_spec(paddr.0),
                                flags,
                                size: old(self).slots()[vp].size,
                            },
                        )
                    },
                    Err(e) => {
                        &&& e == PagingError::NotMapped
                        &&& !old(self).slots().dom().contains(vp)
                        &&& *final(self) == *old(self)
                    },
                }
            }),
    {
        let vp = align_down_4k(vaddr.0);
        let found = match self.slots_map.get(&vp) {
            Some(e) => Some(e.size),
            None => None,
        };
        match found {
            Some(size) => {
                let pa = align_down_4k(paddr.0);
                self.slots_map.insert(vp, PtEntry { pa, flags, size });
                Ok(size)
            },
            None => Err(PagingError::NotMapped),
        }
    }
}

} // verus!
