//! Memory mapping backends: a closed set of policies deciding how a
//! region's pages are populated, depopulated, and repaired on fault.
//!
//! - **Linear**: the target physical frames are contiguous, at a constant
//!   (wrapping) offset below the guest address; the backend never owns
//!   frames.
//! - **Alloc**: each guest page is independently backed by a host frame;
//!   with `populate` the frames are allocated when the mapping is
//!   created, otherwise placeholder slots are installed and the frames
//!   arrive on first fault.

use vstd::prelude::*;

use crate::addr::{
    align_down_4k_spec, aligned_4k, lemma_align_down_id, lemma_aligned_step, lemma_wsub_aligned,
    wsub, GuestPhysAddr, HostPhysAddr,
};
use crate::flags::MappingFlags;
use crate::hal::AxMmHal;
use crate::npt::{placeholder_entry, NestedPageTable, PageSize, PtEntry};

verus! {

broadcast use vstd::map::group_map_axioms, vstd::set::group_set_axioms;

/// Whether `vp` is the address of one of the pages of `[start, start + size)`.
pub open spec fn page_in_range(vp: usize, start: usize, size: usize) -> bool {
    start <= vp && vp < start + size && aligned_4k(vp)
}

/// Whether a slot map translates the page at `vp`.
pub open spec fn map_present(m: Map<usize, PtEntry>, vp: usize) -> bool {
    m.dom().contains(vp) && !m[vp].flags.spec_is_empty()
}

/// Whether the two slot maps agree on every key outside
/// `[start, start + size)`.
pub open spec fn pt_same_outside(
    old_m: Map<usize, PtEntry>,
    new_m: Map<usize, PtEntry>,
    start: usize,
    size: usize,
) -> bool {
    forall|k: usize|
        #![trigger new_m.dom().contains(k)]
        #![trigger old_m.dom().contains(k)]
        !(start <= k && k < start + size) ==> (new_m.dom().contains(k) == old_m.dom().contains(k)
            && (old_m.dom().contains(k) ==> new_m[k] == old_m[k]))
}

/// Whether the two slot maps agree on every key inside `[lo, hi)`.
pub open spec fn pt_same_within(
    old_m: Map<usize, PtEntry>,
    new_m: Map<usize, PtEntry>,
    lo: int,
    hi: int,
) -> bool {
    forall|k: usize|
        #![trigger new_m.dom().contains(k)]
        #![trigger old_m.dom().contains(k)]
        lo <= k && k < hi ==> (new_m.dom().contains(k) == old_m.dom().contains(k)
            && (old_m.dom().contains(k) ==> new_m[k] == old_m[k]))
}

/// Whether no page of `[start, start + size)` currently translates.
pub open spec fn range_unmapped(m: Map<usize, PtEntry>, start: usize, size: usize) -> bool {
    forall|vp: usize| #[trigger] page_in_range(vp, start, size) ==> !map_present(m, vp)
}

/// Whether every page of `[start, start + size)` holds the linear
/// entry: the frame at the constant (wrapping) offset below it, with
/// the given flags, 4 KiB-sized.
pub open spec fn linear_entries_installed(
    m: Map<usize, PtEntry>,
    start: usize,
    size: usize,
    pa_va_offset: usize,
    flags: MappingFlags,
) -> bool {
    forall|vp: usize| #[trigger]
        page_in_range(vp, start, size) ==> m.dom().contains(vp) && m[vp] == (PtEntry {
            pa: wsub(vp, pa_va_offset),
            flags,
            size: PageSize::Size4K,
        })
}

/// How many of the first `n` pages starting at `start` translate in `m`.
pub open spec fn present_pages(m: Map<usize, PtEntry>, start: int, n: nat) -> nat
    decreases n,
{
    if n == 0 {
        0
    } else {
        present_pages(m, start, (n - 1) as nat) + if start + (n - 1) * 4096 <= usize::MAX
            && map_present(m, (start + (n - 1) * 4096) as usize) {
            1nat
        } else {
            0nat
        }
    }
}

/// Whether every page of `[start, start + size)` holds a placeholder
/// slot, awaiting its first fault.
pub open spec fn placeholder_entries_installed(
    m: Map<usize, PtEntry>,
    start: usize,
    size: usize,
) -> bool {
    forall|vp: usize| #[trigger]
        page_in_range(vp, start, size) ==> m.dom().contains(vp) && m[vp] == placeholder_entry()
}

/// Whether every page of `[start, start + size)` translates to its own
/// freshly allocated frame with the given flags: present, 4 KiB, frame
/// non-zero, absent from `old_alloc` and outstanding in `new_alloc`.
pub open spec fn alloc_entries_installed(
    m: Map<usize, PtEntry>,
    start: usize,
    size: usize,
    flags: MappingFlags,
    old_alloc: Set<usize>,
    new_alloc: Set<usize>,
) -> bool {
    &&& (forall|vp: usize| #[trigger]
        page_in_range(vp, start, size) ==> m.dom().contains(vp) && m[vp].flags == flags
            && m[vp].size == PageSize::Size4K && m[vp].pa != 0 && !old_alloc.contains(m[vp].pa)
            && new_alloc.contains(m[vp].pa))
    &&& range_frames_owned(m, start, size, new_alloc)
}

/// Whether the two slot maps relate as before/after unmapping the range:
/// slots of translating pages became placeholders, the rest of the range
/// is unchanged.
pub open spec fn range_cleared(
    old_m: Map<usize, PtEntry>,
    new_m: Map<usize, PtEntry>,
    start: usize,
    size: usize,
) -> bool {
    forall|vp: usize| #[trigger]
        page_in_range(vp, start, size) ==> new_m.dom().contains(vp) == old_m.dom().contains(vp) && (
        old_m.dom().contains(vp) ==> new_m[vp] == (if !old_m[vp].flags.spec_is_empty() {
            placeholder_entry()
        } else {
            old_m[vp]
        }))
}

/// Whether unmapping the pages of `[start, start + size)` frees the
/// frame at `x`: some translating page of the range targets it.
pub open spec fn frees_pa(m: Map<usize, PtEntry>, start: usize, size: usize, x: usize) -> bool {
    exists|vp: usize| #[trigger] page_in_range(vp, start, size) && map_present(m, vp) && m[vp].pa == x
}

/// Whether the frames behind the translating pages of
/// `[start, start + size)` are pairwise distinct and all outstanding in
/// the allocator — the ownership obligations the allocation backend
/// relies on to free them.
pub open spec fn range_frames_owned(
    m: Map<usize, PtEntry>,
    start: usize,
    size: usize,
    allocated: Set<usize>,
) -> bool {
    &&& (forall|vp: usize| #[trigger]
        page_in_range(vp, start, size) && map_present(m, vp) ==> allocated.contains(m[vp].pa))
    &&& (forall|vp1: usize, vp2: usize|
        page_in_range(vp1, start, size) && page_in_range(vp2, start, size) && vp1 != vp2
            && #[trigger] map_present(m, vp1) && #[trigger] map_present(m, vp2) ==> m[vp1].pa
            != m[vp2].pa)
}

/// Two slot maps that agree on a window count the same translating
/// pages there.
pub proof fn lemma_present_pages_congruent(
    m1: Map<usize, PtEntry>,
    m2: Map<usize, PtEntry>,
    start: int,
    n: nat,
)
    requires
        pt_same_within(m1, m2, start, start + n * 4096),
        start >= 0,
    ensures
        present_pages(m1, start, n) == present_pages(m2, start, n),
    decreases n,
{
    if n > 0 {
        assert(pt_same_within(m1, m2, start, start + (n - 1) * 4096)) by {
            assert((n - 1) * 4096 <= n * 4096) by (nonlinear_arith);
        }
        lemma_present_pages_congruent(m1, m2, start, (n - 1) as nat);
        let p = start + (n - 1) * 4096;
        if p <= usize::MAX {
            assert(p < start + n * 4096) by (nonlinear_arith)
                requires
                    p == start + (n - 1) * 4096,
                    n >= 1,
            ;
            assert(m1.dom().contains(p as usize) == m2.dom().contains(p as usize));
        }
    }
}

/// Two slot maps that agree on a window free the same frames there.
pub proof fn lemma_frees_pa_congruent(
    m1: Map<usize, PtEntry>,
    m2: Map<usize, PtEntry>,
    start: usize,
    size: usize,
    x: usize,
)
    requires
        pt_same_within(m1, m2, start as int, start + size),
    ensures
        frees_pa(m1, start, size, x) == frees_pa(m2, start, size, x),
{
    if frees_pa(m1, start, size, x) {
        let vp = choose|vp: usize| #[trigger]
            page_in_range(vp, start, size) && map_present(m1, vp) && m1[vp].pa == x;
        assert(m2.dom().contains(vp) && m2[vp] == m1[vp]);
        assert(frees_pa(m2, start, size, x));
    }
    if frees_pa(m2, start, size, x) {
        let vp = choose|vp: usize| #[trigger]
            page_in_range(vp, start, size) && map_present(m2, vp) && m2[vp].pa == x;
        assert(m1.dom().contains(vp) && m1[vp] == m2[vp]);
        assert(frees_pa(m1, start, size, x));
    }
}

/// A window whose every page translates counts exactly its page count.
pub proof fn lemma_present_pages_full(m: Map<usize, PtEntry>, start: usize, size: usize, n: nat)
    requires
        aligned_4k(start),
        size == n * 4096,
        start + size <= usize::MAX + 1,
        forall|vp: usize| #[trigger] page_in_range(vp, start, size) ==> map_present(m, vp),
    ensures
        present_pages(m, start as int, n) == n,
    decreases n,
{
    if n > 0 {
        assert((n - 1) * 4096 + 4096 == n * 4096) by (nonlinear_arith);
        let size1 = (size - 4096) as usize;
        assert(forall|vp: usize| #[trigger]
            page_in_range(vp, start, size1) ==> page_in_range(vp, start, size));
        lemma_present_pages_full(m, start, size1, (n - 1) as nat);
        let p = start + (n - 1) * 4096;
        assert(p % 4096 == 0) by (nonlinear_arith)
            requires
                start % 4096 == 0,
                p == start + (n - 1) * 4096,
        ;
        assert(page_in_range(p as usize, start, size));
        assert(map_present(m, p as usize));
    }
}

/// A unified type for the memory mapping backends.
#[derive(Debug, Clone, Copy, PartialEq, Eq, Structural)]
pub enum Backend {
    /// Linear mapping backend.
    ///
    /// The offset between the guest address and the host physical
    /// address is constant: `vaddr` maps to `vaddr - pa_va_offset`
    /// (wrapping).
    Linear {
        /// `vaddr - paddr` (wrapping difference).
        pa_va_offset: usize,
    },
    /// Allocation mapping backend.
    ///
    /// If `populate` is `true`, all physical frames are allocated when
    /// the mapping is created, and no page faults are expected during
    /// access. Otherwise, the frames are allocated on demand, by
    /// handling page faults.
    Alloc {
        /// Whether to allocate the frames when creating the mapping.
        populate: bool,
    },
}

impl Backend {
    /// Creates a new linear mapping backend.
    pub fn new_linear(pa_va_offset: usize) -> (r: Self)
        ensures
            r == (Backend::Linear { pa_va_offset }),
    {
        Backend::Linear { pa_va_offset }
    }

    /// Creates a new allocation mapping backend.
    pub fn new_alloc(populate: bool) -> (r: Self)
        ensures
            r == (Backend::Alloc { populate }),
    {
        Backend::Alloc { populate }
    }

    /// Installs the whole region as a linear mapping: every page of
    /// `[start, start + size)` maps to the page at the constant offset
    /// below it. Succeeds exactly when no page of the region already
    /// translated; on failure the pages before the conflict remain
    /// installed (no rollback).
    pub(crate) fn map_linear(
        &self,
        start: GuestPhysAddr,
        size: usize,
        flags: MappingFlags,
        pt: &mut NestedPageTable,
        pa_va_offset: usize,
    ) -> (r: bool)
        requires
            old(pt).wf(),
            aligned_4k(start.0),
            aligned_4k(size),
            aligned_4k(pa_va_offset),
            start.0 + size <= usize::MAX,
        ensures
            final(pt).wf(),
            final(pt).spec_root() == old(pt).spec_root(),
            pt_same_outside(old(pt).slots(), final(pt).slots(), start.0, size),
            r == range_unmapped(old(pt).slots(), start.0, size),
            r ==> linear_entries_installed(final(pt).slots(), start.0, size, pa_va_offset, flags),
    {
        let end = start.0 + size;
        let mut va = start.0;
        while va < end
            invariant
                start.0 <= va <= end,
                end == start.0 + size,
                aligned_4k(va),
                aligned_4k(start.0),
                aligned_4k(size),
                aligned_4k(pa_va_offset),
                pt.wf(),
                pt.spec_root() == old(pt).spec_root(),
                pt_same_outside(old(pt).slots(), pt.slots(), start.0, size),
                pt_same_within(old(pt).slots(), pt.slots(), va as int, end as int),
                range_unmapped(old(pt).slots(), start.0, (va - start.0) as usize),
                linear_entries_installed(
                    pt.slots(),
                    start.0,
                    (va - start.0) as usize,
                    pa_va_offset,
                    flags,
                ),
            decreases end - va,
        {
            let target = va.wrapping_sub(pa_va_offset);
            proof {
                lemma_wsub_aligned(va, pa_va_offset);
                lemma_align_down_id(va);
                lemma_align_down_id(target);
            }
            match pt.map(GuestPhysAddr(va), HostPhysAddr(target), PageSize::Size4K, flags) {
                Ok(()) => {},
                Err(_) => {
                    proof {
                        assert(page_in_range(va, start.0, size));
                        assert(map_present(old(pt).slots(), va));
                    }
                    return false;
                },
            }
            proof {
                lemma_aligned_step(va, end);
                assert forall|vp: usize| #[trigger]
                    page_in_range(vp, start.0, (va + 4096 - start.0) as usize) implies !map_present(
                    old(pt).slots(),
                    vp,
                ) && pt.slots().dom().contains(vp) && pt.slots()[vp] == (PtEntry {
                    pa: wsub(vp, pa_va_offset),
                    flags,
                    size: PageSize::Size4K,
                }) by {
                    if vp < va {
                        assert(page_in_range(vp, start.0, (va - start.0) as usize));
                        assert(map_present(old(pt).slots(), vp) == false);
                    } else {
                        if va < vp {
                            lemma_aligned_step(va, vp);
                        }
                        assert(vp == va);
                    }
                }
                assert(range_unmapped(old(pt).slots(), start.0, (va + 4096 - start.0) as usize));
                assert(linear_entries_installed(
                    pt.slots(),
                    start.0,
                    (va + 4096 - start.0) as usize,
                    pa_va_offset,
                    flags,
                ));
            }
            va = va + 4096;
        }
        true
    }

    /// Removes the page-table entries of a linear region; never frees
    /// frames (the backend never owned any, which the absence of an
    /// allocator parameter makes structural). Succeeds exactly when
    /// every page of the region translated.
    pub(crate) fn unmap_linear(
        &self,
        start: GuestPhysAddr,
        size: usize,
        pt: &mut NestedPageTable,
        _pa_va_offset: usize,
    ) -> (r: bool)
        requires
            old(pt).wf(),
            aligned_4k(start.0),
            aligned_4k(size),
            start.0 + size <= usize::MAX,
        ensures
            final(pt).wf(),
            final(pt).spec_root() == old(pt).spec_root(),
            pt_same_outside(old(pt).slots(), final(pt).slots(), start.0, size),
            r == (forall|vp: usize| #[trigger]
                page_in_range(vp, start.0, size) ==> map_present(old(pt).slots(), vp)),
            r ==> range_cleared(old(pt).slots(), final(pt).slots(), start.0, size),
    {
        let end = start.0 + size;
        let mut va = start.0;
        while va < end
            invariant
                start.0 <= va <= end,
                end == start.0 + size,
                aligned_4k(va),
                aligned_4k(start.0),
                aligned_4k(size),
                pt.wf(),
                pt.spec_root() == old(pt).spec_root(),
                pt_same_outside(old(pt).slots(), pt.slots(), start.0, size),
                pt_same_within(old(pt).slots(), pt.slots(), va as int, end as int),
                forall|vp: usize| #[trigger]
                    page_in_range(vp, start.0, (va - start.0) as usize) ==> map_present(
                        old(pt).slots(),
                        vp,
                    ),
                range_cleared(old(pt).slots(), pt.slots(), start.0, (va - start.0) as usize),
            decreases end - va,
        {
            proof {
                lemma_align_down_id(va);
            }
            match pt.unmap(GuestPhysAddr(va)) {
                Ok(_) => {},
                Err(_) => {
                    proof {
                        assert(page_in_range(va, start.0, size));
                        assert(!map_present(old(pt).slots(), va));
                    }
                    return false;
                },
            }
            proof {
                lemma_aligned_step(va, end);
                assert forall|vp: usize| #[trigger]
                    page_in_range(vp, start.0, (va + 4096 - start.0) as usize) implies map_present(
                    old(pt).slots(),
                    vp,
                ) && pt.slots().dom().contains(vp) == old(pt).slots().dom().contains(vp) && (old(pt).slots().dom().contains(vp) ==> pt.slots()[vp] == (
                if !old(pt).slots()[vp].flags.spec_is_empty() {
                    placeholder_entry()
                } else {
                    old(pt).slots()[vp]
                })) by {
                    if vp < va {
                        assert(page_in_range(vp, start.0, (va - start.0) as usize));
                    } else {
                        if va < vp {
                            lemma_aligned_step(va, vp);
                        }
                        assert(vp == va);
                    }
                }
            }
            va = va + 4096;
        }
        true
    }

    /// Installs the region as an allocation mapping. With `populate`,
    /// allocates one host frame per page and maps it eagerly, stopping
    /// at the first allocation failure or conflict with no rollback;
    /// otherwise installs a placeholder slot for every page, so that the
    /// fault path can later repair it, allocating nothing.
    pub(crate) fn map_alloc<H: AxMmHal>(
        &self,
        start: GuestPhysAddr,
        size: usize,
        flags: MappingFlags,
        pt: &mut NestedPageTable,
        hal: &mut H,
        populate: bool,
    ) -> (r: bool)
        requires
            old(pt).wf(),
            aligned_4k(start.0),
            aligned_4k(size),
            start.0 + size <= usize::MAX,
        ensures
            final(pt).wf(),
            final(pt).spec_root() == old(pt).spec_root(),
            pt_same_outside(old(pt).slots(), final(pt).slots(), start.0, size),
            final(hal).dealloc_total() == old(hal).dealloc_total(),
            final(hal).virt_offset() == old(hal).virt_offset(),
            forall|x: usize| #[trigger]
                old(hal).allocated().contains(x) ==> final(hal).allocated().contains(x),
            r ==> range_unmapped(old(pt).slots(), start.0, size),
            !populate ==> *final(hal) == *old(hal),
            !populate ==> r == range_unmapped(old(pt).slots(), start.0, size),
            (!populate && r) ==> placeholder_entries_installed(final(pt).slots(), start.0, size),
            (populate && r) ==> final(hal).alloc_total() == old(hal).alloc_total() + size / 4096,
            (populate && r) ==> alloc_entries_installed(
                final(pt).slots(),
                start.0,
                size,
                flags,
                old(hal).allocated(),
                final(hal).allocated(),
            ),
            final(hal).alloc_total() <= old(hal).alloc_total() + size / 4096,
            (populate && !r) ==> forall|vp: usize| #[trigger]
                page_in_range(vp, start.0, size) ==> ((final(pt).slots().dom().contains(vp)
                    == old(pt).slots().dom().contains(vp) && (old(pt).slots().dom().contains(vp)
                    ==> final(pt).slots()[vp] == old(pt).slots()[vp])) || (final(pt).slots().dom().contains(vp) && final(pt).slots()[vp].flags == flags && final(pt).slots()[vp].size == PageSize::Size4K && final(pt).slots()[vp].pa != 0)),
    {
        let end = start.0 + size;
        let mut va = start.0;
        if populate {
            let ghost mut k: nat = 0nat;
            while va < end
                invariant
                    populate,
                    start.0 <= va <= end,
                    end == start.0 + size,
                    va == start.0 + k * 4096,
                    aligned_4k(va),
                    aligned_4k(start.0),
                    aligned_4k(size),
                    pt.wf(),
                    pt.spec_root() == old(pt).spec_root(),
                    pt_same_outside(old(pt).slots(), pt.slots(), start.0, size),
                    pt_same_within(old(pt).slots(), pt.slots(), va as int, end as int),
                    hal.dealloc_total() == old(hal).dealloc_total(),
                    hal.virt_offset() == old(hal).virt_offset(),
                    hal.alloc_total() == old(hal).alloc_total() + k,
                    forall|x: usize| #[trigger]
                        old(hal).allocated().contains(x) ==> hal.allocated().contains(x),
                    range_unmapped(old(pt).slots(), start.0, (va - start.0) as usize),
                    alloc_entries_installed(
                        pt.slots(),
                        start.0,
                        (va - start.0) as usize,
                        flags,
                        old(hal).allocated(),
                        hal.allocated(),
                    ),
                decreases end - va,
            {
                let ghost hal0 = *hal;
                let frame = match hal.alloc_frame() {
                    Some(f) => f,
                    None => {
                        proof {
                            assert(k <= size / 4096) by (nonlinear_arith)
                                requires
                                    k * 4096 == va - start.0,
                                    va - start.0 <= size,
                            ;
                            assert forall|vp: usize| #[trigger]
                                page_in_range(vp, start.0, size) implies ((pt.slots().dom(
                            ).contains(vp) == old(pt).slots().dom().contains(vp) && (old(pt).slots().dom().contains(vp) ==> pt.slots()[vp] == old(pt).slots()[vp])) || (pt.slots().dom().contains(vp)
                                && pt.slots()[vp].flags == flags && pt.slots()[vp].size
                                == PageSize::Size4K && pt.slots()[vp].pa != 0)) by {
                                if vp < va {
                                    assert(page_in_range(vp, start.0, (va - start.0) as usize));
                                }
                            }
                        }
                        return false;
                    },
                };
                let ghost pt0 = *pt;
                proof {
                    lemma_align_down_id(va);
                    lemma_align_down_id(frame.0);
                }
                match pt.map(GuestPhysAddr(va), frame, PageSize::Size4K, flags) {
                    Ok(()) => {},
                    Err(_) => {
                        proof {
                            lemma_aligned_step(va, end);
                            assert(k + 1 <= size / 4096) by (nonlinear_arith)
                                requires
                                    k * 4096 == va - start.0,
                                    va - start.0 + 4096 <= size,
                            ;
                            assert forall|vp: usize| #[trigger]
                                page_in_range(vp, start.0, size) implies ((pt.slots().dom(
                            ).contains(vp) == old(pt).slots().dom().contains(vp) && (old(pt).slots().dom().contains(vp) ==> pt.slots()[vp] == old(pt).slots()[vp])) || (pt.slots().dom().contains(vp)
                                && pt.slots()[vp].flags == flags && pt.slots()[vp].size
                                == PageSize::Size4K && pt.slots()[vp].pa != 0)) by {
                                if vp < va {
                                    assert(page_in_range(vp, start.0, (va - start.0) as usize));
                                }
                            }
                        }
                        return false;
                    },
                }
                proof {
                    lemma_aligned_step(va, end);
                    let ghost ps = (va - start.0) as usize;
                    let ghost ps1 = (va + 4096 - start.0) as usize;
                    assert(!map_present(old(pt).slots(), va));
                    assert forall|vp: usize| #[trigger]
                        page_in_range(vp, start.0, ps1) implies pt.slots().dom().contains(vp)
                        && pt.slots()[vp].flags == flags && pt.slots()[vp].size == PageSize::Size4K
                        && pt.slots()[vp].pa != 0 && !old(hal).allocated().contains(
                        pt.slots()[vp].pa,
                    ) && hal.allocated().contains(pt.slots()[vp].pa) && !map_present(
                        old(pt).slots(),
                        vp,
                    ) by {
                        if vp != va {
                            if va < vp {
                                lemma_aligned_step(va, vp);
                            }
                            assert(page_in_range(vp, start.0, ps));
                            assert(hal0.allocated().contains(pt0.slots()[vp].pa));
                        } else {
                            assert(!hal0.allocated().contains(frame.0));
                        }
                    }
                    assert forall|vp1: usize, vp2: usize|
                        page_in_range(vp1, start.0, ps1) && page_in_range(vp2, start.0, ps1) && vp1
                            != vp2 && #[trigger] map_present(pt.slots(), vp1)
                            && #[trigger] map_present(pt.slots(), vp2) implies pt.slots()[vp1].pa
                        != pt.slots()[vp2].pa by {
                        if vp1 != va && vp2 != va {
                            if va < vp1 {
                                lemma_aligned_step(va, vp1);
                            }
                            if va < vp2 {
                                lemma_aligned_step(va, vp2);
                            }
                            assert(page_in_range(vp1, start.0, ps));
                            assert(page_in_range(vp2, start.0, ps));
                            assert(map_present(pt0.slots(), vp1));
                            assert(map_present(pt0.slots(), vp2));
                        } else if vp1 == va {
                            if va < vp2 {
                                lemma_aligned_step(va, vp2);
                            }
                            assert(page_in_range(vp2, start.0, ps));
                            assert(hal0.allocated().contains(pt.slots()[vp2].pa));
                            assert(!hal0.allocated().contains(frame.0));
                        } else {
                            if va < vp1 {
                                lemma_aligned_step(va, vp1);
                            }
                            assert(page_in_range(vp1, start.0, ps));
                            assert(hal0.allocated().contains(pt.slots()[vp1].pa));
                            assert(!hal0.allocated().contains(frame.0));
                        }
                    }
                    assert(alloc_entries_installed(
                        pt.slots(),
                        start.0,
                        ps1,
                        flags,
                        old(hal).allocated(),
                        hal.allocated(),
                    ));
                }
                va = va + 4096;
                proof {
                    k = k + 1nat;
                }
            }
            proof {
                assert(k * 4096 == size);
                assert(k == size / 4096) by (nonlinear_arith)
                    requires
                        k * 4096 == size,
                ;
            }
            true
        } else {
            while va < end
                invariant
                    !populate,
                    start.0 <= va <= end,
                    end == start.0 + size,
                    aligned_4k(va),
                    aligned_4k(start.0),
                    aligned_4k(size),
                    pt.wf(),
                    pt.spec_root() == old(pt).spec_root(),
                    pt_same_outside(old(pt).slots(), pt.slots(), start.0, size),
                    pt_same_within(old(pt).slots(), pt.slots(), va as int, end as int),
                    *hal == *old(hal),
                    range_unmapped(old(pt).slots(), start.0, (va - start.0) as usize),
                    placeholder_entries_installed(pt.slots(), start.0, (va - start.0) as usize),
                decreases end - va,
            {
                proof {
                    lemma_align_down_id(va);
                    lemma_align_down_id(0);
                }
                match pt.map(
                    GuestPhysAddr(va),
                    HostPhysAddr(0),
                    PageSize::Size4K,
                    MappingFlags::empty(),
                ) {
                    Ok(()) => {},
                    Err(_) => {
                        proof {
                            assert(page_in_range(va, start.0, size));
                            assert(map_present(old(pt).slots(), va));
                        }
                        return false;
                    },
                }
                proof {
                    lemma_aligned_step(va, end);
                    assert forall|vp: usize| #[trigger]
                        page_in_range(vp, start.0, (va + 4096 - start.0) as usize) && vp
                        != va implies page_in_range(vp, start.0, (va - start.0) as usize) by {
                        if va < vp {
                            lemma_aligned_step(va, vp);
                        }
                    }
                }
                va = va + 4096;
            }
            true
        }
    }

    /// Walks the pages of an allocation region: a page that never
    /// faulted in is skipped silently, a huge entry aborts (incremental
    /// unmap of huge pages is unsupported by design), and every
    /// translating page has its frame handed back to the allocator —
    /// exactly once, which is why the region's frames must be owned.
    pub(crate) fn unmap_alloc<H: AxMmHal>(
        &self,
        start: GuestPhysAddr,
        size: usize,
        pt: &mut NestedPageTable,
        hal: &mut H,
        _populate: bool,
    ) -> (r: bool)
        requires
            old(pt).wf(),
            aligned_4k(start.0),
            aligned_4k(size),
            start.0 + size <= usize::MAX,
            range_frames_owned(old(pt).slots(), start.0, size, old(hal).allocated()),
        ensures
            final(pt).wf(),
            final(pt).spec_root() == old(pt).spec_root(),
            pt_same_outside(old(pt).slots(), final(pt).slots(), start.0, size),
            r == true,
            range_cleared(old(pt).slots(), final(pt).slots(), start.0, size),
            final(hal).alloc_total() == old(hal).alloc_total(),
            final(hal).virt_offset() == old(hal).virt_offset(),
            final(hal).dealloc_total() == old(hal).dealloc_total() + present_pages(
                old(pt).slots(),
                start.0 as int,
                (size / 4096) as nat,
            ),
            forall|x: usize|
                #![trigger final(hal).allocated().contains(x)]
                #![trigger old(hal).allocated().contains(x)]
                final(hal).allocated().contains(x) == (old(hal).allocated().contains(x)
                    && !frees_pa(old(pt).slots(), start.0, size, x)),
    {
        let end = start.0 + size;
        let mut va = start.0;
        let ghost mut k: nat = 0nat;
        while va < end
            invariant
                start.0 <= va <= end,
                end == start.0 + size,
                va == start.0 + k * 4096,
                aligned_4k(va),
                aligned_4k(start.0),
                aligned_4k(size),
                pt.wf(),
                pt.spec_root() == old(pt).spec_root(),
                pt_same_outside(old(pt).slots(), pt.slots(), start.0, size),
                pt_same_within(old(pt).slots(), pt.slots(), va as int, end as int),
                range_cleared(old(pt).slots(), pt.slots(), start.0, (va - start.0) as usize),
                range_frames_owned(old(pt).slots(), start.0, size, old(hal).allocated()),
                hal.alloc_total() == old(hal).alloc_total(),
                hal.virt_offset() == old(hal).virt_offset(),
                hal.dealloc_total() == old(hal).dealloc_total() + present_pages(
                    old(pt).slots(),
                    start.0 as int,
                    k,
                ),
                forall|x: usize|
                    #![trigger hal.allocated().contains(x)]
                    #![trigger old(hal).allocated().contains(x)]
                    hal.allocated().contains(x) == (old(hal).allocated().contains(x) && !frees_pa(
                        old(pt).slots(),
                        start.0,
                        (va - start.0) as usize,
                        x,
                    )),
            decreases end - va,
        {
            proof {
                lemma_align_down_id(va);
                lemma_aligned_step(va, end);
                assert(page_in_range(va, start.0, size));
            }
            let ghost ps = (va - start.0) as usize;
            let ghost ps1 = (va + 4096 - start.0) as usize;
            match pt.unmap(GuestPhysAddr(va)) {
                Ok((frame, page_size, _)) => {
                    proof {
                        assert(map_present(old(pt).slots(), va));
                        assert(frame.0 == old(pt).slots()[va].pa);
                        assert(old(hal).allocated().contains(frame.0));
                        assert(!frees_pa(old(pt).slots(), start.0, ps, frame.0)) by {
                            if frees_pa(old(pt).slots(), start.0, ps, frame.0) {
                                let vp = choose|vp: usize| #[trigger]
                                    page_in_range(vp, start.0, ps) && map_present(
                                        old(pt).slots(),
                                        vp,
                                    ) && old(pt).slots()[vp].pa == frame.0;
                                assert(page_in_range(vp, start.0, size));
                                assert(vp != va);
                            }
                        }
                        assert(hal.allocated().contains(frame.0));
                    }
                    if page_size.is_huge() {
                        return false;
                    }
                    hal.dealloc_frame(frame);
                    proof {
                        assert forall|x: usize|
                            #![trigger hal.allocated().contains(x)]
                            #![trigger old(hal).allocated().contains(x)]
                            hal.allocated().contains(x) == (old(hal).allocated().contains(x)
                                && !frees_pa(old(pt).slots(), start.0, ps1, x)) by {
                            if x == frame.0 {
                                assert(frees_pa(old(pt).slots(), start.0, ps1, frame.0)) by {
                                    assert(page_in_range(va, start.0, ps1) && map_present(
                                        old(pt).slots(),
                                        va,
                                    ) && old(pt).slots()[va].pa == frame.0);
                                }
                            } else {
                                if frees_pa(old(pt).slots(), start.0, ps1, x) {
                                    let vp = choose|vp: usize| #[trigger]
                                        page_in_range(vp, start.0, ps1) && map_present(
                                            old(pt).slots(),
                                            vp,
                                        ) && old(pt).slots()[vp].pa == x;
                                    if va < vp {
                                        lemma_aligned_step(va, vp);
                                    }
                                    assert(vp != va);
                                    assert(page_in_range(vp, start.0, ps));
                                    assert(frees_pa(old(pt).slots(), start.0, ps, x));
                                }
                                if frees_pa(old(pt).slots(), start.0, ps, x) {
                                    let vp = choose|vp: usize| #[trigger]
                                        page_in_range(vp, start.0, ps) && map_present(
                                            old(pt).slots(),
                                            vp,
                                        ) && old(pt).slots()[vp].pa == x;
                                    assert(page_in_range(vp, start.0, ps1));
                                    assert(frees_pa(old(pt).slots(), start.0, ps1, x));
                                }
                            }
                        }
                    }
                },
                Err(_) => {
                    proof {
                        assert(!map_present(old(pt).slots(), va));
                        assert forall|x: usize|
                            #![trigger hal.allocated().contains(x)]
                            #![trigger old(hal).allocated().contains(x)]
                            hal.allocated().contains(x) == (old(hal).allocated().contains(x)
                                && !frees_pa(old(pt).slots(), start.0, ps1, x)) by {
                            if frees_pa(old(pt).slots(), start.0, ps1, x) {
                                let vp = choose|vp: usize| #[trigger]
                                    page_in_range(vp, start.0, ps1) && map_present(
                                        old(pt).slots(),
                                        vp,
                                    ) && old(pt).slots()[vp].pa == x;
                                if va < vp {
                                    lemma_aligned_step(va, vp);
                                }
                                assert(vp != va);
                                assert(page_in_range(vp, start.0, ps));
                                assert(frees_pa(old(pt).slots(), start.0, ps, x));
                            }
                            if frees_pa(old(pt).slots(), start.0, ps, x) {
                                let vp = choose|vp: usize| #[trigger]
                                    page_in_range(vp, start.0, ps) && map_present(
                                        old(pt).slots(),
                                        vp,
                                    ) && old(pt).slots()[vp].pa == x;
                                assert(page_in_range(vp, start.0, ps1));
                                assert(frees_pa(old(pt).slots(), start.0, ps1, x));
                            }
                        }
                    }
                },
            }
            proof {
                assert forall|vp: usize| #[trigger]
                    page_in_range(vp, start.0, ps1) && vp != va implies page_in_range(
                    vp,
                    start.0,
                    ps,
                ) by {
                    if va < vp {
                        lemma_aligned_step(va, vp);
                    }
                }
                assert(range_cleared(old(pt).slots(), pt.slots(), start.0, ps1));
                assert(present_pages(old(pt).slots(), start.0 as int, (k + 1) as nat)
                    == present_pages(old(pt).slots(), start.0 as int, k) + (
                if map_present(old(pt).slots(), va) {
                    1nat
                } else {
                    0nat
                }));
            }
            va = va + 4096;
            proof {
                k = k + 1nat;
            }
        }
        proof {
            assert(k == size / 4096) by (nonlinear_arith)
                requires
                    k * 4096 == size,
            ;
        }
        true
    }

    /// Resolves a fault in a lazily populated region: allocates one
    /// host frame and repairs the slot at the fault address (aligned
    /// down) with the region's original flags. Populated regions never
    /// fault by construction, so the populated arm refuses.
    pub(crate) fn handle_page_fault_alloc<H: AxMmHal>(
        &self,
        vaddr: GuestPhysAddr,
        orig_flags: MappingFlags,
        pt: &mut NestedPageTable,
        hal: &mut H,
        populate: bool,
    ) -> (r: bool)
        requires
            old(pt).wf(),
        ensures
            final(pt).wf(),
            final(pt).spec_root() == old(pt).spec_root(),
            populate ==> !r && *final(pt) == *old(pt) && *final(hal) == *old(hal),
            ({
                let vp = align_down_4k_spec(vaddr.0);
                &&& (!populate && r) ==> {
                    let e = final(pt).slots()[vp];
                    &&& old(pt).slots().dom().contains(vp)
                    &&& final(pt).slots() == old(pt).slots().insert(vp, e)
                    &&& e.flags == orig_flags
                    &&& e.size == old(pt).slots()[vp].size
                    &&& e.pa != 0
                    &&& aligned_4k(e.pa)
                    &&& !old(hal).allocated().contains(e.pa)
                    &&& final(hal).allocated() == old(hal).allocated().insert(e.pa)
                    &&& final(hal).alloc_total() == old(hal).alloc_total() + 1
                    &&& final(hal).dealloc_total() == old(hal).dealloc_total()
                    &&& final(hal).virt_offset() == old(hal).virt_offset()
                }
                &&& (!populate && !r) ==> *final(pt) == *old(pt) && final(hal).dealloc_total()
                    == old(hal).dealloc_total() && final(hal).virt_offset() == old(hal).virt_offset() && (forall|x: usize| #[trigger]
                    old(hal).allocated().contains(x) ==> final(hal).allocated().contains(x)) && (
                old(pt).slots().dom().contains(vp) ==> *final(hal) == *old(hal))
            }),
    {
        if populate {
            // Populated mappings should not trigger page faults.
            false
        } else {
            match hal.alloc_frame() {
                Some(frame) => {
                    proof {
                        lemma_align_down_id(frame.0);
                    }
                    match pt.remap(vaddr, frame, orig_flags) {
                        Ok(_) => true,
                        Err(_) => false,
                    }
                },
                None => false,
            }
        }
    }

    /// Installs the whole region in the page table as this backend
    /// prescribes; see [`Backend`] for what each policy does. Failure
    /// (allocation failure or conflict inside the page table) leaves the
    /// already installed pages behind, with no rollback.
    pub(crate) fn map<H: AxMmHal>(
        &self,
        start: GuestPhysAddr,
        size: usize,
        flags: MappingFlags,
        pt: &mut NestedPageTable,
        hal: &mut H,
    ) -> (r: bool)
        requires
            old(pt).wf(),
            aligned_4k(start.0),
            aligned_4k(size),
            start.0 + size <= usize::MAX,
            *self matches Backend::Linear { pa_va_offset } ==> aligned_4k(pa_va_offset),
        ensures
            final(pt).wf(),
            final(pt).spec_root() == old(pt).spec_root(),
            pt_same_outside(old(pt).slots(), final(pt).slots(), start.0, size),
            final(hal).dealloc_total() == old(hal).dealloc_total(),
            final(hal).virt_offset() == old(hal).virt_offset(),
            final(hal).alloc_total() <= old(hal).alloc_total() + size / 4096,
            forall|x: usize| #[trigger]
                old(hal).allocated().contains(x) ==> final(hal).allocated().contains(x),
            r ==> range_unmapped(old(pt).slots(), start.0, size),
            (*self == (Backend::Alloc { populate: true }) && !r) ==> forall|vp: usize| #[trigger]
                page_in_range(vp, start.0, size) ==> ((final(pt).slots().dom().contains(vp)
                    == old(pt).slots().dom().contains(vp) && (old(pt).slots().dom().contains(vp)
                    ==> final(pt).slots()[vp] == old(pt).slots()[vp])) || (final(pt).slots().dom().contains(vp) && final(pt).slots()[vp].flags == flags && final(pt).slots()[vp].size == PageSize::Size4K && final(pt).slots()[vp].pa != 0)),
            match *self {
                Backend::Linear { pa_va_offset } => {
                    &&& *final(hal) == *old(hal)
                    &&& r == range_unmapped(old(pt).slots(), start.0, size)
                    &&& r ==> linear_entries_installed(
                        final(pt).slots(),
                        start.0,
                        size,
                        pa_va_offset,
                        flags,
                    )
                },
                Backend::Alloc { populate } => {
                    &&& !populate ==> *final(hal) == *old(hal) && r == range_unmapped(
                        old(pt).slots(),
                        start.0,
                        size,
                    ) && (r ==> placeholder_entries_installed(final(pt).slots(), start.0, size))
                    &&& (populate && r) ==> final(hal).alloc_total() == old(hal).alloc_total()
                        + size / 4096 && alloc_entries_installed(
                        final(pt).slots(),
                        start.0,
                        size,
                        flags,
                        old(hal).allocated(),
                        final(hal).allocated(),
                    )
                },
            },
    {
        match *self {
            Backend::Linear { pa_va_offset } => self.map_linear(start, size, flags, pt, pa_va_offset),
            Backend::Alloc { populate } => self.map_alloc(start, size, flags, pt, hal, populate),
        }
    }

    /// Removes the region from the page table as this backend
    /// prescribes; the linear arm fails if some page did not translate,
    /// the allocation arm skips such pages and frees the frames behind
    /// the rest.
    pub(crate) fn unmap<H: AxMmHal>(
        &self,
        start: GuestPhysAddr,
        size: usize,
        pt: &mut NestedPageTable,
        hal: &mut H,
    ) -> (r: bool)
        requires
            old(pt).wf(),
            aligned_4k(start.0),
            aligned_4k(size),
            start.0 + size <= usize::MAX,
            *self matches Backend::Alloc { populate } ==> range_frames_owned(
                old(pt).slots(),
                start.0,
                size,
                old(hal).allocated(),
            ),
        ensures
            final(pt).wf(),
            final(pt).spec_root() == old(pt).spec_root(),
            pt_same_outside(old(pt).slots(), final(pt).slots(), start.0, size),
            final(hal).alloc_total() == old(hal).alloc_total(),
            final(hal).virt_offset() == old(hal).virt_offset(),
            r ==> range_cleared(old(pt).slots(), final(pt).slots(), start.0, size),
            match *self {
                Backend::Linear { pa_va_offset } => {
                    &&& *final(hal) == *old(hal)
                    &&& r == (forall|vp: usize| #[trigger]
                        page_in_range(vp, start.0, size) ==> map_present(old(pt).slots(), vp))
                },
                Backend::Alloc { populate } => {
                    &&& r == true
                    &&& final(hal).dealloc_total() == old(hal).dealloc_total() + present_pages(
                        old(pt).slots(),
                        start.0 as int,
                        (size / 4096) as nat,
                    )
                    &&& (forall|x: usize|
                        #![trigger final(hal).allocated().contains(x)]
                        #![trigger old(hal).allocated().contains(x)]
                        final(hal).allocated().contains(x) == (old(hal).allocated().contains(x)
                            && !frees_pa(old(pt).slots(), start.0, size, x)))
                },
            },
    {
        match *self {
            Backend::Linear { pa_va_offset } => self.unmap_linear(start, size, pt, pa_va_offset),
            Backend::Alloc { populate } => self.unmap_alloc(start, size, pt, hal, populate),
        }
    }

    /// Permission change in place is a documented stub in this design:
    /// it reports success without altering anything.
    pub fn protect(
        &self,
        _start: GuestPhysAddr,
        _size: usize,
        _new_flags: MappingFlags,
        page_table: &mut NestedPageTable,
    ) -> (r: bool)
        ensures
            r == true,
            *final(page_table) == *old(page_table),
    {
        true
    }

    /// Routes a fault to the backend: linear regions never resolve
    /// faults (an eager mapping that faults indicates misuse), the
    /// allocation backend may repair the slot. Returns whether a
    /// translation was actually installed.
    pub(crate) fn handle_page_fault<H: AxMmHal>(
        &self,
        vaddr: GuestPhysAddr,
        orig_flags: MappingFlags,
        pt: &mut NestedPageTable,
        hal: &mut H,
    ) -> (r: bool)
        requires
            old(pt).wf(),
        ensures
            final(pt).wf(),
            final(pt).spec_root() == old(pt).spec_root(),
            (*self matches Backend::Linear { .. } || *self matches Backend::Alloc {
                populate: true,
            }) ==> !r && *final(pt) == *old(pt) && *final(hal) == *old(hal),
            ({
                let vp = align_down_4k_spec(vaddr.0);
                &&& (*self == (Backend::Alloc { populate: false }) && r) ==> {
                    let e = final(pt).slots()[vp];
                    &&& old(pt).slots().dom().contains(vp)
                    &&& final(pt).slots() == old(pt).slots().insert(vp, e)
                    &&& e.flags == orig_flags
                    &&& e.size == old(pt).slots()[vp].size
                    &&& e.pa != 0
                    &&& aligned_4k(e.pa)
                    &&& !old(hal).allocated().contains(e.pa)
                    &&& final(hal).allocated() == old(hal).allocated().insert(e.pa)
                    &&& final(hal).alloc_total() == old(hal).alloc_total() + 1
                    &&& final(hal).dealloc_total() == old(hal).dealloc_total()
                    &&& final(hal).virt_offset() == old(hal).virt_offset()
                }
                &&& (*self == (Backend::Alloc { populate: false }) && !r) ==> *final(pt) == *old(pt) && final(hal).dealloc_total() == old(hal).dealloc_total() && final(hal).virt_offset() == old(hal).virt_offset() && (forall|x: usize| #[trigger]
                    old(hal).allocated().contains(x) ==> final(hal).allocated().contains(x)) && (
                old(pt).slots().dom().contains(vp) ==> *final(hal) == *old(hal))
            }),
    {
        match *self {
            Backend::Linear { .. } => false,  // Linear mappings should not trigger page faults.
            Backend::Alloc { populate } => {
                self.handle_page_fault_alloc(vaddr, orig_flags, pt, hal, populate)
            },
        }
    }
}

} // verus!
