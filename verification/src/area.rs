//! Memory areas and the area set: an ordered collection of
//! non-overlapping guest-physical ranges, each tagged with permission
//! flags and a mapping backend, supporting containment queries,
//! overlap-checked insertion, and split-on-partial-removal.

use vstd::prelude::*;

use crate::addr::{aligned_4k, GuestPhysAddr, GuestPhysAddrRange};
use crate::backend::{
    alloc_entries_installed, frees_pa, lemma_frees_pa_congruent, lemma_present_pages_congruent,
    linear_entries_installed, map_present, page_in_range, placeholder_entries_installed,
    present_pages, pt_same_outside, pt_same_within, range_cleared, range_frames_owned,
    range_unmapped, Backend,
};
use crate::addr::{lemma_aligned_add, lemma_aligned_sub};
use crate::error::MappingError;
use crate::flags::MappingFlags;
use crate::hal::AxMmHal;
use crate::npt::{placeholder_entry, NestedPageTable, PageSize, PtEntry};

verus! {

broadcast use
    vstd::map::group_map_axioms,
    vstd::set::group_set_axioms,
    vstd::seq::group_seq_axioms,
;

/// A memory area represents a continuous range of virtual memory with
/// the same flags.
///
/// The target physical frames are determined by the [`Backend`] and may
/// not be contiguous.
#[derive(Debug, Clone, Copy, PartialEq, Eq, Structural)]
pub struct MemoryArea {
    /// The start of the area (4096-aligned).
    pub start: GuestPhysAddr,
    /// The size of the area in bytes (4096-aligned, non-zero).
    pub size: usize,
    /// The permission flags of every page of the area.
    pub flags: MappingFlags,
    /// The mapping policy of the area.
    pub backend: Backend,
}

impl MemoryArea {
    /// The structural obligations of an area: page-aligned bounds, at
    /// least one page, no overflow, and a page-aligned linear offset.
    pub open spec fn wf(self) -> bool {
        &&& aligned_4k(self.start.0)
        &&& aligned_4k(self.size)
        &&& self.size > 0
        &&& self.start.0 + self.size <= usize::MAX
        &&& (self.backend matches Backend::Linear { pa_va_offset } ==> aligned_4k(pa_va_offset))
    }

    /// The end of the area as a mathematical integer.
    pub open spec fn end_spec(self) -> int {
        self.start.0 + self.size
    }

    /// Whether the area's range contains `addr`.
    pub open spec fn spec_contains(self, addr: usize) -> bool {
        self.start.0 <= addr < self.end_spec()
    }

    /// Creates a new memory area.
    pub fn new(start: GuestPhysAddr, size: usize, flags: MappingFlags, backend: Backend) -> (r:
        Self)
        ensures
            r == (MemoryArea { start, size, flags, backend }),
    {
        MemoryArea { start, size, flags, backend }
    }

    /// Returns the virtual address range.
    pub fn va_range(&self) -> (r: GuestPhysAddrRange)
        requires
            self.start.0 + self.size <= usize::MAX,
        ensures
            r.start == self.start,
            r.end.0 == self.end_spec(),
    {
        GuestPhysAddrRange::from_start_size(self.start, self.size)
    }

    /// Returns the start address of the memory area.
    pub fn start(&self) -> (r: GuestPhysAddr)
        ensures
            r == self.start,
    {
        self.start
    }

    /// Returns the end address of the memory area.
    pub fn end(&self) -> (r: GuestPhysAddr)
        requires
            self.start.0 + self.size <= usize::MAX,
        ensures
            r.0 == self.end_spec(),
    {
        GuestPhysAddr(self.start.0 + self.size)
    }

    /// Returns the size of the memory area.
    pub fn size(&self) -> (r: usize)
        ensures
            r == self.size,
    {
        self.size
    }

    /// Returns the memory flags, e.g., the permission bits.
    pub fn flags(&self) -> (r: MappingFlags)
        ensures
            r == self.flags,
    {
        self.flags
    }

    /// Returns the mapping backend of the memory area.
    pub fn backend(&self) -> (r: &Backend)
        ensures
            *r == self.backend,
    {
        &self.backend
    }
}

/// Whether the pages of an area are backed as its policy prescribes: a
/// linear area holds the offset translation everywhere; a populated
/// allocation area holds a frame with the area's flags everywhere; a
/// lazily populated area holds, for every page, either the placeholder
/// or a faulted-in frame with the area's flags.
pub open spec fn area_backed(a: MemoryArea, m: Map<usize, PtEntry>) -> bool {
    match a.backend {
        Backend::Linear { pa_va_offset } => linear_entries_installed(
            m,
            a.start.0,
            a.size,
            pa_va_offset,
            a.flags,
        ),
        Backend::Alloc { populate } => {
            if populate {
                forall|vp: usize| #[trigger]
                    page_in_range(vp, a.start.0, a.size) ==> m.dom().contains(vp) && m[vp].flags
                        == a.flags && m[vp].size == PageSize::Size4K && m[vp].pa != 0
                        && aligned_4k(m[vp].pa)
            } else {
                forall|vp: usize| #[trigger]
                    page_in_range(vp, a.start.0, a.size) ==> m.dom().contains(vp) && (m[vp]
                        == placeholder_entry() || (m[vp].flags == a.flags && m[vp].size
                        == PageSize::Size4K && m[vp].pa != 0 && aligned_4k(m[vp].pa)))
            }
        },
    }
}

/// Whether some area of the sequence covers `addr`.
pub open spec fn covered(s: Seq<MemoryArea>, addr: usize) -> bool {
    exists|i: int| 0 <= i < s.len() && (#[trigger] s[i]).spec_contains(addr)
}

/// Whether some area of the sequence covers `addr` with exactly these
/// flags and this backend.
pub open spec fn covers(s: Seq<MemoryArea>, addr: usize, flags: MappingFlags, backend: Backend) -> bool {
    exists|i: int|
        0 <= i < s.len() && (#[trigger] s[i]).spec_contains(addr) && s[i].flags == flags
            && s[i].backend == backend
}

/// Whether `addr` lies in an allocation-backed area of the sequence.
pub open spec fn alloc_covered(s: Seq<MemoryArea>, addr: usize) -> bool {
    exists|i: int|
        0 <= i < s.len() && (#[trigger] s[i]).spec_contains(addr) && (s[i].backend
            matches Backend::Alloc { .. })
}

/// Whether the area overlaps the half-open range `[start, start + size)`.
pub open spec fn area_overlaps_range(a: MemoryArea, start: usize, size: usize) -> bool {
    a.start.0 < start + size && start < a.end_spec()
}

/// How many frames unmapping `[start, end)` takes from this area: the
/// translating pages of the clipped intersection if the area is
/// allocation-backed, none otherwise (a linear area owns no frames).
pub open spec fn area_freed_pages(
    a: MemoryArea,
    m: Map<usize, PtEntry>,
    start: usize,
    end: usize,
) -> nat {
    if (a.backend matches Backend::Alloc { .. }) && a.start.0 < end && start < a.end_spec() {
        let lo = if a.start.0 >= start {
            a.start.0 as int
        } else {
            start as int
        };
        let hi = if a.end_spec() <= end {
            a.end_spec()
        } else {
            end as int
        };
        present_pages(m, lo, (((hi - lo)) / 4096) as nat)
    } else {
        0
    }
}

/// How many frames unmapping `[start, end)` takes from the first `n`
/// areas of the sequence.
pub open spec fn freed_pages_upto(
    s: Seq<MemoryArea>,
    m: Map<usize, PtEntry>,
    start: usize,
    end: usize,
    n: nat,
) -> nat
    decreases n,
{
    if n == 0 {
        0
    } else {
        freed_pages_upto(s, m, start, end, (n - 1) as nat) + area_freed_pages(
            s[n - 1],
            m,
            start,
            end,
        )
    }
}

/// Whether unmapping `[start, start + size)` hands the frame at `x`
/// back to the allocator: some translating page of the range lies in an
/// allocation-backed area and targets it.
pub open spec fn frees_owned_pa(
    s: Seq<MemoryArea>,
    m: Map<usize, PtEntry>,
    start: usize,
    size: usize,
    x: usize,
) -> bool {
    exists|vp: usize|
        #![trigger map_present(m, vp), page_in_range(vp, start, size)]
        page_in_range(vp, start, size) && alloc_covered(s, vp) && map_present(m, vp) && m[vp].pa
            == x
}

/// How inserting an area changes the coverage predicates: an address is
/// covered afterwards exactly when it was covered before or the new
/// area covers it.
pub proof fn lemma_coverage_insert(s: Seq<MemoryArea>, i: int, a: MemoryArea, vp: usize)
    requires
        0 <= i <= s.len(),
    ensures
        covered(s.insert(i, a), vp) == (covered(s, vp) || a.spec_contains(vp)),
        alloc_covered(s.insert(i, a), vp) == (alloc_covered(s, vp) || (a.spec_contains(vp) && (
        a.backend matches Backend::Alloc { .. }))),
{
    let s2 = s.insert(i, a);
    if covered(s2, vp) {
        let j = choose|j: int| 0 <= j < s2.len() && (#[trigger] s2[j]).spec_contains(vp);
        if j < i {
            assert(s[j] == s2[j]);
            assert(covered(s, vp));
        } else if j > i {
            assert(s[j - 1] == s2[j]);
            assert(covered(s, vp));
        }
    }
    if covered(s, vp) {
        let j = choose|j: int| 0 <= j < s.len() && (#[trigger] s[j]).spec_contains(vp);
        if j < i {
            assert(s2[j] == s[j]);
        } else {
            assert(s2[j + 1] == s[j]);
        }
        assert(covered(s2, vp));
    }
    if a.spec_contains(vp) {
        assert(s2[i] == a);
        assert(covered(s2, vp));
    }
    if alloc_covered(s2, vp) {
        let j = choose|j: int|
            0 <= j < s2.len() && (#[trigger] s2[j]).spec_contains(vp) && (s2[j].backend
                matches Backend::Alloc { .. });
        if j < i {
            assert(s[j] == s2[j]);
            assert(alloc_covered(s, vp));
        } else if j > i {
            assert(s[j - 1] == s2[j]);
            assert(alloc_covered(s, vp));
        }
    }
    if alloc_covered(s, vp) {
        let j = choose|j: int|
            0 <= j < s.len() && (#[trigger] s[j]).spec_contains(vp) && (s[j].backend
                matches Backend::Alloc { .. });
        if j < i {
            assert(s2[j] == s[j]);
        } else {
            assert(s2[j + 1] == s[j]);
        }
        assert(alloc_covered(s2, vp));
    }
    if a.spec_contains(vp) && (a.backend matches Backend::Alloc { .. }) {
        assert(s2[i] == a);
        assert(alloc_covered(s2, vp));
    }
}

/// How inserting an area changes the flag-and-backend coverage
/// predicate.
pub proof fn lemma_covers_insert(
    s: Seq<MemoryArea>,
    i: int,
    a: MemoryArea,
    addr: usize,
    fl: MappingFlags,
    be: Backend,
)
    requires
        0 <= i <= s.len(),
    ensures
        covers(s.insert(i, a), addr, fl, be) == (covers(s, addr, fl, be) || (a.spec_contains(addr)
            && a.flags == fl && a.backend == be)),
{
    let s2 = s.insert(i, a);
    if covers(s2, addr, fl, be) {
        let j = choose|j: int|
            0 <= j < s2.len() && (#[trigger] s2[j]).spec_contains(addr) && s2[j].flags == fl
                && s2[j].backend == be;
        if j < i {
            assert(s[j] == s2[j]);
            assert(covers(s, addr, fl, be));
        } else if j > i {
            assert(s[j - 1] == s2[j]);
            assert(covers(s, addr, fl, be));
        }
    }
    if covers(s, addr, fl, be) {
        let j = choose|j: int|
            0 <= j < s.len() && (#[trigger] s[j]).spec_contains(addr) && s[j].flags == fl
                && s[j].backend == be;
        if j < i {
            assert(s2[j] == s[j]);
        } else {
            assert(s2[j + 1] == s[j]);
        }
        assert(covers(s2, addr, fl, be));
    }
    if a.spec_contains(addr) && a.flags == fl && a.backend == be {
        assert(s2[i] == a);
        assert(covers(s2, addr, fl, be));
    }
}

/// Allocation coverage by a prefix implies coverage by the whole
/// sequence.
pub proof fn lemma_alloc_covered_take(s: Seq<MemoryArea>, i: int, vp: usize)
    requires
        0 <= i <= s.len(),
        alloc_covered(s.take(i), vp),
    ensures
        alloc_covered(s, vp),
{
    let j = choose|j: int|
        0 <= j < s.take(i).len() && (#[trigger] s.take(i)[j]).spec_contains(vp) && (s.take(
            i,
        )[j].backend matches Backend::Alloc { .. });
    assert(s[j] == s.take(i)[j]);
}

/// Extending the prefix can only add freed frames.
pub proof fn lemma_frees_owned_pa_grow(
    s: Seq<MemoryArea>,
    m: Map<usize, PtEntry>,
    start: usize,
    size: usize,
    i: int,
    x: usize,
)
    requires
        0 <= i < s.len(),
    ensures
        frees_owned_pa(s.take(i), m, start, size, x) ==> frees_owned_pa(
            s.take(i + 1),
            m,
            start,
            size,
            x,
        ),
{
    if frees_owned_pa(s.take(i), m, start, size, x) {
        let vp = choose|vp: usize|
            #![trigger map_present(m, vp), page_in_range(vp, start, size)]
            page_in_range(vp, start, size) && alloc_covered(s.take(i), vp) && map_present(m, vp)
                && m[vp].pa == x;
        let j = choose|j: int|
            0 <= j < s.take(i).len() && (#[trigger] s.take(i)[j]).spec_contains(vp) && (s.take(
                i,
            )[j].backend matches Backend::Alloc { .. });
        assert(s.take(i + 1)[j] == s.take(i)[j]);
        assert(alloc_covered(s.take(i + 1), vp));
    }
}

/// An area that does not overlap `[start, start + size)` keeps its
/// backing when the slot map changes only within that range.
pub proof fn lemma_area_backed_frame(
    a: MemoryArea,
    m1: Map<usize, PtEntry>,
    m2: Map<usize, PtEntry>,
    start: usize,
    size: usize,
)
    requires
        a.wf(),
        area_backed(a, m1),
        pt_same_outside(m1, m2, start, size),
        !area_overlaps_range(a, start, size),
    ensures
        area_backed(a, m2),
{
    assert forall|vp: usize| #[trigger]
        page_in_range(vp, a.start.0, a.size) implies m2.dom().contains(vp) == m1.dom().contains(vp)
        && (m1.dom().contains(vp) ==> m2[vp] == m1[vp]) by {
        assert(!(start <= vp && vp < start + size));
    }
}

/// A container that maintains non-overlapping memory areas, sorted by
/// their start address.
pub struct MemorySet {
    areas: Vec<MemoryArea>,
}

impl MemorySet {
    /// The areas, in ascending order of start address.
    pub closed spec fn areas_seq(self) -> Seq<MemoryArea> {
        self.areas@
    }

    /// Every area is well formed, and the areas are sorted and pairwise
    /// disjoint.
    pub open spec fn wf_set(self) -> bool {
        &&& (forall|i: int| 0 <= i < self.areas_seq().len() ==> (#[trigger] self.areas_seq()[i]).wf())
        &&& (forall|i: int, j: int|
            0 <= i < j < self.areas_seq().len() ==> (#[trigger] self.areas_seq()[i]).end_spec()
                <= (#[trigger] self.areas_seq()[j]).start.0)
    }

    /// The coupling of the set with a page table and an allocator: the
    /// set is well formed, every area's pages are backed as its policy
    /// prescribes, every frame behind an allocation-backed page is
    /// outstanding, and those frames are pairwise distinct.
    pub open spec fn inv(self, pt: NestedPageTable, allocated: Set<usize>) -> bool {
        &&& self.wf_set()
        &&& pt.wf()
        &&& (forall|i: int|
            0 <= i < self.areas_seq().len() ==> area_backed(
                #[trigger] self.areas_seq()[i],
                pt.slots(),
            ))
        &&& (forall|vp: usize|
            #![trigger alloc_covered(self.areas_seq(), vp)]
            alloc_covered(self.areas_seq(), vp) && map_present(pt.slots(), vp)
                ==> allocated.contains(pt.slots()[vp].pa))
        &&& (forall|vp1: usize, vp2: usize|
            #![trigger alloc_covered(self.areas_seq(), vp1), alloc_covered(self.areas_seq(), vp2)]
            alloc_covered(self.areas_seq(), vp1) && alloc_covered(self.areas_seq(), vp2) && vp1
                != vp2 && map_present(pt.slots(), vp1) && map_present(pt.slots(), vp2)
                ==> pt.slots()[vp1].pa != pt.slots()[vp2].pa)
    }

    /// Creates a new, empty memory set.
    pub fn new() -> (r: Self)
        ensures
            r.areas_seq() == Seq::<MemoryArea>::empty(),
    {
        MemorySet { areas: Vec::new() }
    }

    /// Returns the number of memory areas in the memory set.
    pub fn len(&self) -> (r: usize)
        ensures
            r == self.areas_seq().len(),
    {
        self.areas.len()
    }

    /// Returns `true` if the memory set contains no memory areas.
    pub fn is_empty(&self) -> (r: bool)
        ensures
            r == (self.areas_seq().len() == 0),
    {
        self.areas.len() == 0
    }

    /// Returns the area at the given position.
    pub fn get(&self, i: usize) -> (r: &MemoryArea)
        requires
            i < self.areas_seq().len(),
        ensures
            *r == self.areas_seq()[i as int],
    {
        &self.areas[i]
    }

    /// Returns whether the given range overlaps any existing area.
    pub fn overlaps(&self, start: GuestPhysAddr, size: usize) -> (r: bool)
        requires
            self.wf_set(),
            start.0 + size <= usize::MAX,
        ensures
            r == exists|i: int|
                0 <= i < self.areas_seq().len() && area_overlaps_range(
                    #[trigger] self.areas_seq()[i],
                    start.0,
                    size,
                ),
    {
        let n = self.areas.len();
        let mut i: usize = 0;
        while i < n
            invariant
                self.wf_set(),
                n == self.areas_seq().len(),
                i <= n,
                start.0 + size <= usize::MAX,
                forall|j: int|
                    0 <= j < i ==> !area_overlaps_range(
                        #[trigger] self.areas_seq()[j],
                        start.0,
                        size,
                    ),
            decreases n - i,
        {
            let a = self.areas[i];
            proof {
                assert(self.areas_seq()[i as int].wf());
            }
            if a.start.0 < start.0 + size && start.0 < a.start.0 + a.size {
                return true;
            }
            i = i + 1;
        }
        false
    }

    /// Finds the position of the memory area that contains the given
    /// address.
    pub fn find_index(&self, addr: GuestPhysAddr) -> (r: Option<usize>)
        ensures
            match r {
                Some(i) => i < self.areas_seq().len() && self.areas_seq()[i as int].spec_contains(
                    addr.0,
                ),
                None => !covered(self.areas_seq(), addr.0),
            },
    {
        let n = self.areas.len();
        let mut i: usize = 0;
        while i < n
            invariant
                n == self.areas_seq().len(),
                i <= n,
                forall|j: int|
                    0 <= j < i ==> !(#[trigger] self.areas_seq()[j]).spec_contains(addr.0),
            decreases n - i,
        {
            let a = self.areas[i];
            if a.start.0 <= addr.0 && (addr.0 - a.start.0) < a.size {
                return Some(i);
            }
            i = i + 1;
        }
        None
    }

    /// Finds the memory area that contains the given address.
    pub fn find(&self, addr: GuestPhysAddr) -> (r: Option<&MemoryArea>)
        ensures
            match r {
                Some(a) => covered(self.areas_seq(), addr.0) && a.spec_contains(addr.0) && exists|
                    i: int,
                |
                    0 <= i < self.areas_seq().len() && *a == #[trigger] self.areas_seq()[i],
                None => !covered(self.areas_seq(), addr.0),
            },
    {
        match self.find_index(addr) {
            Some(i) => {
                let a = &self.areas[i];
                proof {
                    assert(self.areas_seq()[i as int].spec_contains(addr.0));
                    assert(*a == self.areas_seq()[i as int]);
                }
                Some(a)
            },
            None => None,
        }
    }

    /// Adds a new memory mapping: validates that the area is non-empty
    /// and overlaps nothing, installs it through its backend, and on
    /// success inserts it at its sorted position. On a backend failure
    /// the area set is unchanged, but pages the backend installed
    /// before failing remain mapped — the caller must treat the range
    /// as inconsistent.
    pub fn map<H: AxMmHal>(
        &mut self,
        area: MemoryArea,
        pt: &mut NestedPageTable,
        hal: &mut H,
    ) -> (r: Result<(), MappingError>)
        requires
            old(self).inv(*old(pt), old(hal).allocated()),
            aligned_4k(area.start.0),
            aligned_4k(area.size),
            area.start.0 + area.size <= usize::MAX,
            area.backend matches Backend::Linear { pa_va_offset } ==> aligned_4k(pa_va_offset),
        ensures
            final(self).inv(*final(pt), final(hal).allocated()),
            final(pt).spec_root() == old(pt).spec_root(),
            pt_same_outside(old(pt).slots(), final(pt).slots(), area.start.0, area.size),
            final(hal).dealloc_total() == old(hal).dealloc_total(),
            final(hal).virt_offset() == old(hal).virt_offset(),
            final(hal).alloc_total() <= old(hal).alloc_total() + area.size / 4096,
            forall|x: usize| #[trigger]
                old(hal).allocated().contains(x) ==> final(hal).allocated().contains(x),
            match r {
                Ok(()) => {
                    &&& area.size > 0
                    &&& !(exists|i: int|
                        0 <= i < old(self).areas_seq().len() && area_overlaps_range(
                            #[trigger] old(self).areas_seq()[i],
                            area.start.0,
                            area.size,
                        ))
                    &&& range_unmapped(old(pt).slots(), area.start.0, area.size)
                    &&& (exists|i: int|
                        0 <= i <= old(self).areas_seq().len() && final(self).areas_seq() == old(self).areas_seq().insert(i, area))
                    &&& area_backed(area, final(pt).slots())
                    &&& (area.backend == (Backend::Alloc { populate: true })
                        ==> alloc_entries_installed(
                        final(pt).slots(),
                        area.start.0,
                        area.size,
                        area.flags,
                        old(hal).allocated(),
                        final(hal).allocated(),
                    ))
                    &&& (area.backend == (Backend::Alloc { populate: false })
                        ==> placeholder_entries_installed(final(pt).slots(), area.start.0, area.size))
                    &&& (area.backend == (Backend::Alloc { populate: true }) ==> final(hal).alloc_total() == old(hal).alloc_total() + area.size / 4096)
                    &&& (area.backend != (Backend::Alloc { populate: true }) ==> *final(hal)
                        == *old(hal))
                },
                Err(MappingError::InvalidParam) => area.size == 0 && *final(self) == *old(self)
                    && *final(pt) == *old(pt) && *final(hal) == *old(hal),
                Err(MappingError::AlreadyExists) => {
                    &&& area.size > 0
                    &&& (exists|i: int|
                        0 <= i < old(self).areas_seq().len() && area_overlaps_range(
                            #[trigger] old(self).areas_seq()[i],
                            area.start.0,
                            area.size,
                        ))
                    &&& *final(self) == *old(self)
                    &&& *final(pt) == *old(pt)
                    &&& *final(hal) == *old(hal)
                },
                Err(MappingError::BadState) => {
                    &&& area.size > 0
                    &&& !(exists|i: int|
                        0 <= i < old(self).areas_seq().len() && area_overlaps_range(
                            #[trigger] old(self).areas_seq()[i],
                            area.start.0,
                            area.size,
                        ))
                    &&& final(self).areas_seq() == old(self).areas_seq()
                    &&& (area.backend != (Backend::Alloc { populate: true })
                        ==> !range_unmapped(old(pt).slots(), area.start.0, area.size) && *final(hal) == *old(hal))
                },
            },
    {
        if area.size == 0 {
            return Err(MappingError::InvalidParam);
        }
        if self.overlaps(area.start, area.size) {
            return Err(MappingError::AlreadyExists);
        }
        let ghost pre_pt = *pt;
        let ghost pre_hal = *hal;
        let ghost s_old = self.areas_seq();
        let installed = area.backend.map(area.start, area.size, area.flags, pt, hal);
        proof {
            assert forall|p: int| 0 <= p < s_old.len() implies area_backed(
                #[trigger] s_old[p],
                pt.slots(),
            ) by {
                assert(!area_overlaps_range(s_old[p], area.start.0, area.size));
                lemma_area_backed_frame(
                    s_old[p],
                    pre_pt.slots(),
                    pt.slots(),
                    area.start.0,
                    area.size,
                );
            }
            assert forall|vp: usize|
                alloc_covered(s_old, vp) && map_present(pt.slots(), vp) implies pt.slots()[vp]
                == pre_pt.slots()[vp] && map_present(pre_pt.slots(), vp) by {
                let j = choose|j: int|
                    0 <= j < s_old.len() && (#[trigger] s_old[j]).spec_contains(vp) && (
                    s_old[j].backend matches Backend::Alloc { .. });
                assert(!area_overlaps_range(s_old[j], area.start.0, area.size));
                assert(!(area.start.0 <= vp && vp < area.start.0 + area.size));
                assert(pre_pt.slots().dom().contains(vp) == pt.slots().dom().contains(vp));
            }
        }
        if !installed {
            proof {
                assert forall|vp: usize|
                    #![trigger alloc_covered(self.areas_seq(), vp)]
                    alloc_covered(self.areas_seq(), vp) && map_present(pt.slots(), vp) implies hal
                    .allocated().contains(pt.slots()[vp].pa) by {
                    assert(pre_hal.allocated().contains(pre_pt.slots()[vp].pa));
                }
                assert forall|vp1: usize, vp2: usize|
                    #![trigger alloc_covered(self.areas_seq(), vp1), alloc_covered(self.areas_seq(), vp2)]
                    alloc_covered(self.areas_seq(), vp1) && alloc_covered(self.areas_seq(), vp2)
                        && vp1 != vp2 && map_present(pt.slots(), vp1) && map_present(
                        pt.slots(),
                        vp2,
                    ) implies pt.slots()[vp1].pa != pt.slots()[vp2].pa by {
                    assert(map_present(pre_pt.slots(), vp1) && map_present(pre_pt.slots(), vp2));
                }
            }
            return Err(MappingError::BadState);
        }
        let n = self.areas.len();
        let mut idx: usize = 0;
        while idx < n && self.areas[idx].start.0 < area.start.0
            invariant
                n == self.areas_seq().len(),
                idx <= n,
                forall|j: int|
                    0 <= j < idx ==> (#[trigger] self.areas_seq()[j]).start.0 < area.start.0,
            decreases n - idx,
        {
            idx = idx + 1;
        }
        proof {
            assert(idx == n || self.areas_seq()[idx as int].start.0 >= area.start.0);
        }
        proof {
            let ii = idx as int;
            assert forall|j: int| 0 <= j < ii implies (#[trigger] s_old[j]).end_spec()
                <= area.start.0 by {
                assert(s_old[j].wf());
                if s_old[j].end_spec() > area.start.0 {
                    assert(area_overlaps_range(s_old[j], area.start.0, area.size));
                }
            }
            assert forall|j: int| ii <= j < s_old.len() implies area.start.0 + area.size <= (
            #[trigger] s_old[j]).start.0 by {
                assert(s_old[j].wf());
                if ii < j {
                    assert(s_old[ii].end_spec() <= s_old[j].start.0);
                    assert(s_old[ii].wf());
                }
                if (s_old[j].start.0 as int) < area.start.0 + area.size {
                    assert(area_overlaps_range(s_old[j], area.start.0, area.size));
                }
            }
        }
        self.areas.insert(idx, area);
        proof {
            let ii = idx as int;
            let s_new = self.areas_seq();
            assert(s_new == s_old.insert(ii, area));
            assert forall|p: int, q: int| 0 <= p < q < s_new.len() implies (
            #[trigger] s_new[p]).end_spec() <= (#[trigger] s_new[q]).start.0 by {
                if q < ii {
                } else if p < ii && q == ii {
                    assert(s_new[p] == s_old[p]);
                } else if p < ii && q > ii {
                    assert(s_new[p] == s_old[p] && s_new[q] == s_old[q - 1]);
                    assert(s_old[p].end_spec() <= s_old[q - 1].start.0);
                } else if p == ii {
                    assert(s_new[q] == s_old[q - 1]);
                } else {
                }
            }
            assert forall|p: int| 0 <= p < s_new.len() implies (#[trigger] s_new[p]).wf() by {
                if p != ii {
                    if p < ii {
                        assert(s_new[p] == s_old[p]);
                    } else {
                        assert(s_new[p] == s_old[p - 1]);
                    }
                }
            }
            assert(area_backed(area, pt.slots())) by {
                match area.backend {
                    Backend::Linear { pa_va_offset } => {
                    },
                    Backend::Alloc { populate } => {
                        if populate {
                            assert forall|vp: usize| #[trigger]
                                page_in_range(vp, area.start.0, area.size) implies pt.slots(
                            ).dom().contains(vp) && pt.slots()[vp].flags == area.flags
                                && pt.slots()[vp].size == PageSize::Size4K && pt.slots()[vp].pa
                                != 0 && aligned_4k(pt.slots()[vp].pa) by {
                                assert(pt.slots().dom().contains(vp));
                            }
                        }
                    },
                }
            }
            assert forall|p: int| 0 <= p < s_new.len() implies area_backed(
                #[trigger] s_new[p],
                pt.slots(),
            ) by {
                if p < ii {
                    assert(s_new[p] == s_old[p]);
                } else if p > ii {
                    assert(s_new[p] == s_old[p - 1]);
                } else {
                    assert(s_new[p] == area);
                }
            }
            assert forall|vp: usize|
                #![trigger alloc_covered(s_new, vp)]
                alloc_covered(s_new, vp) && map_present(pt.slots(), vp) implies hal.allocated(
            ).contains(pt.slots()[vp].pa) by {
                lemma_coverage_insert(s_old, ii, area, vp);
                if area.spec_contains(vp) && (area.backend matches Backend::Alloc { .. }) {
                    assert(aligned_4k(vp));
                    assert(page_in_range(vp, area.start.0, area.size));
                } else {
                    assert(alloc_covered(s_old, vp));
                    assert(pre_hal.allocated().contains(pre_pt.slots()[vp].pa));
                }
            }
            assert forall|vp1: usize, vp2: usize|
                #![trigger alloc_covered(s_new, vp1), alloc_covered(s_new, vp2)]
                alloc_covered(s_new, vp1) && alloc_covered(s_new, vp2) && vp1 != vp2
                    && map_present(pt.slots(), vp1) && map_present(pt.slots(), vp2) implies pt
                .slots()[vp1].pa != pt.slots()[vp2].pa by {
                lemma_coverage_insert(s_old, ii, area, vp1);
                lemma_coverage_insert(s_old, ii, area, vp2);
                if area.spec_contains(vp1) && (area.backend matches Backend::Alloc { .. }) {
                    assert(aligned_4k(vp1));
                    assert(page_in_range(vp1, area.start.0, area.size));
                    if area.spec_contains(vp2) && (area.backend matches Backend::Alloc { .. }) {
                        assert(aligned_4k(vp2));
                        assert(page_in_range(vp2, area.start.0, area.size));
                    } else {
                        assert(alloc_covered(s_old, vp2));
                        assert(pre_hal.allocated().contains(pre_pt.slots()[vp2].pa));
                        assert(!pre_hal.allocated().contains(pt.slots()[vp1].pa));
                    }
                } else {
                    assert(alloc_covered(s_old, vp1));
                    if area.spec_contains(vp2) && (area.backend matches Backend::Alloc { .. }) {
                        assert(aligned_4k(vp2));
                        assert(page_in_range(vp2, area.start.0, area.size));
                        assert(pre_hal.allocated().contains(pre_pt.slots()[vp1].pa));
                        assert(!pre_hal.allocated().contains(pt.slots()[vp2].pa));
                    } else {
                        assert(alloc_covered(s_old, vp2));
                        assert(map_present(pre_pt.slots(), vp1) && map_present(
                            pre_pt.slots(),
                            vp2,
                        ));
                    }
                }
            }
        }
        Ok(())
    }

    /// Removes the mappings within `[start, start + size)`. Areas fully
    /// inside the range are removed; an area crossing a boundary is
    /// shrunk, and an area containing the whole range is split in two,
    /// each survivor keeping the original flags and backend at its new,
    /// smaller range. Frames behind allocation-backed pages of the range
    /// are handed back to the allocator. Fails with a bad state only on
    /// the degenerate linear area whose flags are empty (its entries do
    /// not translate, which the linear backend treats as an error).
    #[verifier::rlimit(100)]
    pub fn unmap<H: AxMmHal>(
        &mut self,
        start: GuestPhysAddr,
        size: usize,
        pt: &mut NestedPageTable,
        hal: &mut H,
    ) -> (r: Result<(), MappingError>)
        requires
            old(self).inv(*old(pt), old(hal).allocated()),
            aligned_4k(start.0),
            aligned_4k(size),
            size > 0,
            start.0 + size <= usize::MAX,
        ensures
            final(pt).spec_root() == old(pt).spec_root(),
            final(pt).wf(),
            final(hal).alloc_total() == old(hal).alloc_total(),
            final(hal).virt_offset() == old(hal).virt_offset(),
            pt_same_outside(old(pt).slots(), final(pt).slots(), start.0, size),
            forall|x: usize| #[trigger]
                final(hal).allocated().contains(x) ==> old(hal).allocated().contains(x),
            match r {
                Ok(()) => {
                    &&& final(self).inv(*final(pt), final(hal).allocated())
                    &&& (forall|addr: usize|
                        start.0 <= addr && addr < start.0 + size ==> !covered(
                            final(self).areas_seq(),
                            addr,
                        ))
                    &&& (forall|addr: usize, fl: MappingFlags, be: Backend|
                        #![trigger covers(final(self).areas_seq(), addr, fl, be)]
                        #![trigger covers(old(self).areas_seq(), addr, fl, be)]
                        !(start.0 <= addr && addr < start.0 + size) ==> covers(
                            final(self).areas_seq(),
                            addr,
                            fl,
                            be,
                        ) == covers(old(self).areas_seq(), addr, fl, be))
                    &&& (forall|vp: usize| #[trigger]
                        page_in_range(vp, start.0, size) && covered(old(self).areas_seq(), vp)
                            ==> !map_present(final(pt).slots(), vp))
                    &&& final(hal).dealloc_total() == old(hal).dealloc_total() + freed_pages_upto(
                        old(self).areas_seq(),
                        old(pt).slots(),
                        start.0,
                        (start.0 + size) as usize,
                        old(self).areas_seq().len() as nat,
                    )
                    &&& (forall|x: usize|
                        #![trigger final(hal).allocated().contains(x)]
                        #![trigger old(hal).allocated().contains(x)]
                        final(hal).allocated().contains(x) == (old(hal).allocated().contains(x)
                            && !frees_owned_pa(
                            old(self).areas_seq(),
                            old(pt).slots(),
                            start.0,
                            size,
                            x,
                        )))
                },
                Err(e) => {
                    &&& e == MappingError::BadState
                    &&& final(self).areas_seq() == old(self).areas_seq()
                    &&& (exists|j: int|
                        0 <= j < old(self).areas_seq().len() && area_overlaps_range(
                            #[trigger] old(self).areas_seq()[j],
                            start.0,
                            size,
                        ) && (old(self).areas_seq()[j].backend matches Backend::Linear { .. })
                            && old(self).areas_seq()[j].flags.spec_is_empty())
                },
            },
    {
        let end = start.0 + size;
        let ghost s_old = self.areas_seq();
        let ghost m_old = old(pt).slots();
        let n = self.areas.len();
        let mut new_areas: Vec<MemoryArea> = Vec::new();
        let mut i: usize = 0;
        proof {
            lemma_aligned_add(start.0, size);
        }
        while i < n
            invariant
                old(self).inv(*old(pt), old(hal).allocated()),
                aligned_4k(start.0),
                aligned_4k(size),
                aligned_4k(end),
                size > 0,
                end == start.0 + size,
                s_old == old(self).areas_seq(),
                m_old == old(pt).slots(),
                self.areas_seq() == s_old,
                n == s_old.len(),
                i <= n,
                pt.wf(),
                pt.spec_root() == old(pt).spec_root(),
                hal.alloc_total() == old(hal).alloc_total(),
                hal.virt_offset() == old(hal).virt_offset(),
                // (a) the rebuilt prefix is sorted, well formed, and ends
                // before every unprocessed area
                forall|p: int|
                    0 <= p < new_areas@.len() ==> (#[trigger] new_areas@[p]).wf(),
                forall|p: int, q: int|
                    0 <= p < q < new_areas@.len() ==> (#[trigger] new_areas@[p]).end_spec() <= (
                    #[trigger] new_areas@[q]).start.0,
                forall|p: int, j: int|
                    0 <= p < new_areas@.len() && i <= j < n ==> (
                    #[trigger] new_areas@[p]).end_spec() <= (#[trigger] s_old[j]).start.0,
                // (b) coverage of the rebuilt prefix: the processed areas
                // clipped to the complement of the range
                forall|addr: usize, fl: MappingFlags, be: Backend|
                    #![trigger covers(new_areas@, addr, fl, be)]
                    #![trigger covers(s_old.take(i as int), addr, fl, be)]
                    covers(new_areas@, addr, fl, be) == (covers(
                        s_old.take(i as int),
                        addr,
                        fl,
                        be,
                    ) && !(start.0 <= addr && addr < end)),
                forall|addr: usize|
                    #![trigger covered(new_areas@, addr)]
                    #![trigger covered(s_old.take(i as int), addr)]
                    covered(new_areas@, addr) == (covered(s_old.take(i as int), addr) && !(start.0
                        <= addr < end)),
                forall|addr: usize|
                    #![trigger alloc_covered(new_areas@, addr)]
                    #![trigger alloc_covered(s_old.take(i as int), addr)]
                    alloc_covered(new_areas@, addr) == (alloc_covered(s_old.take(i as int), addr)
                        && !(start.0 <= addr && addr < end)),
                // (c) slots: untouched outside the processed portion of
                // the range, cleared on its covered pages
                forall|k: usize|
                    #![trigger pt.slots().dom().contains(k)]
                    #![trigger m_old.dom().contains(k)]
                    !(start.0 <= k && k < end && covered(s_old.take(i as int), k)) ==> (
                    pt.slots().dom().contains(k) == m_old.dom().contains(k) && (m_old.dom(
                    ).contains(k) ==> pt.slots()[k] == m_old[k])),
                forall|vp: usize| #[trigger]
                    page_in_range(vp, start.0, size) && covered(s_old.take(i as int), vp)
                        ==> !map_present(pt.slots(), vp),
                // (d) unprocessed areas are still backed
                forall|j: int|
                    i <= j < n ==> area_backed(#[trigger] s_old[j], pt.slots()),
                forall|p: int|
                    0 <= p < new_areas@.len() ==> area_backed(
                        #[trigger] new_areas@[p],
                        pt.slots(),
                    ),
                // (e) frame accounting
                hal.dealloc_total() == old(hal).dealloc_total() + freed_pages_upto(
                    s_old,
                    m_old,
                    start.0,
                    end,
                    i as nat,
                ),
                // (f) outstanding frames
                forall|x: usize|
                    #![trigger hal.allocated().contains(x)]
                    #![trigger old(hal).allocated().contains(x)]
                    hal.allocated().contains(x) == (old(hal).allocated().contains(x)
                        && !frees_owned_pa(s_old.take(i as int), m_old, start.0, size, x)),
            decreases n - i,
        {
            let a = self.areas[i];
            let ghost ii = i as int;
            proof {
                assert(s_old[ii] == a && a.wf());
                assert(s_old.take(ii + 1) =~= s_old.take(ii).push(s_old[ii]));
            }
            let a_end = a.start.0 + a.size;
            if a_end <= start.0 || end <= a.start.0 {
                // untouched: the area lies entirely outside the range
                let ghost new0 = new_areas@;
                new_areas.push(a);
                proof {
                    assert(new_areas@ =~= new0.insert(new0.len() as int, a));
                    assert forall|addr: usize, fl: MappingFlags, be: Backend|
                        #![trigger covers(new_areas@, addr, fl, be)]
                        #![trigger covers(s_old.take(ii + 1), addr, fl, be)]
                        covers(new_areas@, addr, fl, be) == (covers(s_old.take(ii + 1), addr, fl, be)
                            && !(start.0 <= addr && addr < end)) by {
                        lemma_covers_insert(new0, new0.len() as int, a, addr, fl, be);
                        lemma_covers_insert(s_old.take(ii), ii, a, addr, fl, be);
                        assert(s_old.take(ii + 1) =~= s_old.take(ii).insert(ii, a));
                    }
                    assert forall|addr: usize|
                        #![trigger covered(new_areas@, addr)]
                        #![trigger covered(s_old.take(ii + 1), addr)]
                        covered(new_areas@, addr) == (covered(s_old.take(ii + 1), addr) && !(start.0
                            <= addr < end)) by {
                        lemma_coverage_insert(new0, new0.len() as int, a, addr);
                        lemma_coverage_insert(s_old.take(ii), ii, a, addr);
                        assert(s_old.take(ii + 1) =~= s_old.take(ii).insert(ii, a));
                    }
                    assert forall|addr: usize|
                        #![trigger alloc_covered(new_areas@, addr)]
                        #![trigger alloc_covered(s_old.take(ii + 1), addr)]
                        alloc_covered(new_areas@, addr) == (alloc_covered(s_old.take(ii + 1), addr)
                            && !(start.0 <= addr && addr < end)) by {
                        lemma_coverage_insert(new0, new0.len() as int, a, addr);
                        lemma_coverage_insert(s_old.take(ii), ii, a, addr);
                        assert(s_old.take(ii + 1) =~= s_old.take(ii).insert(ii, a));
                    }
                    assert forall|vp: usize| #[trigger]
                        page_in_range(vp, start.0, size) && covered(s_old.take(ii + 1), vp)
                            implies !map_present(pt.slots(), vp) by {
                        lemma_coverage_insert(s_old.take(ii), ii, a, vp);
                        assert(s_old.take(ii + 1) =~= s_old.take(ii).insert(ii, a));
                        assert(!a.spec_contains(vp));
                    }
                    assert forall|k: usize|
                        #![trigger pt.slots().dom().contains(k)]
                        #![trigger m_old.dom().contains(k)]
                        !(start.0 <= k && k < end && covered(s_old.take(ii + 1), k)) implies (
                        pt.slots().dom().contains(k) == m_old.dom().contains(k) && (m_old.dom(
                        ).contains(k) ==> pt.slots()[k] == m_old[k])) by {
                        if start.0 <= k && k < end && covered(s_old.take(ii), k) {
                            lemma_coverage_insert(s_old.take(ii), ii, a, k);
                            assert(s_old.take(ii + 1) =~= s_old.take(ii).insert(ii, a));
                            assert(covered(s_old.take(ii + 1), k));
                        }
                    }
                    assert(freed_pages_upto(s_old, m_old, start.0, end, (ii + 1) as nat)
                        == freed_pages_upto(s_old, m_old, start.0, end, ii as nat)) by {
                        assert(area_freed_pages(a, m_old, start.0, end) == 0);
                    }
                    assert forall|x: usize|
                        #![trigger hal.allocated().contains(x)]
                        #![trigger old(hal).allocated().contains(x)]
                        hal.allocated().contains(x) == (old(hal).allocated().contains(x)
                            && !frees_owned_pa(s_old.take(ii + 1), m_old, start.0, size, x)) by {
                        lemma_frees_owned_pa_grow(s_old, m_old, start.0, size, ii, x);
                        if frees_owned_pa(s_old.take(ii + 1), m_old, start.0, size, x)
                            && !frees_owned_pa(s_old.take(ii), m_old, start.0, size, x) {
                            let vp = choose|vp: usize|
                                #![trigger map_present(m_old, vp), page_in_range(vp, start.0, size)]
                                page_in_range(vp, start.0, size) && alloc_covered(
                                    s_old.take(ii + 1),
                                    vp,
                                ) && map_present(m_old, vp) && m_old[vp].pa == x;
                            lemma_coverage_insert(s_old.take(ii), ii, a, vp);
                            assert(s_old.take(ii + 1) =~= s_old.take(ii).insert(ii, a));
                            assert(a.spec_contains(vp));
                            assert(false);
                        }
                    }
                }
            } else {
                // the area intersects the range: clip it
                let lo = if a.start.0 < start.0 {
                    start.0
                } else {
                    a.start.0
                };
                let hi = if a_end < end {
                    a_end
                } else {
                    end
                };
                proof {
                    lemma_aligned_add(a.start.0, a.size);
                    lemma_aligned_sub(hi, lo);
                    assert(lo < hi);
                    assert forall|vp: usize| #[trigger]
                        page_in_range(vp, lo, (hi - lo) as usize) implies page_in_range(
                        vp,
                        a.start.0,
                        a.size,
                    ) && page_in_range(vp, start.0, size) && !covered(s_old.take(ii), vp) by {
                        if covered(s_old.take(ii), vp) {
                            let j = choose|j: int|
                                0 <= j < s_old.take(ii).len() && (
                                #[trigger] s_old.take(ii)[j]).spec_contains(vp);
                            assert(s_old[j].end_spec() <= s_old[ii].start.0);
                            assert(false);
                        }
                    }
                    // the clipped window is untouched so far, so its old
                    // and current slots agree
                    assert(pt_same_within(m_old, pt.slots(), lo as int, hi as int));
                    assert(pt_same_within(pt.slots(), m_old, lo as int, hi as int));
                    // ownership of the window's frames, for the backend
                    if a.backend matches Backend::Alloc { .. } {
                        assert forall|vp: usize| #[trigger]
                            page_in_range(vp, lo, (hi - lo) as usize) && map_present(
                            pt.slots(),
                            vp,
                        ) implies hal.allocated().contains(pt.slots()[vp].pa) by {
                            assert(map_present(m_old, vp) && m_old[vp] == pt.slots()[vp]);
                            assert(alloc_covered(s_old, vp)) by {
                                assert(0 <= ii < s_old.len() && s_old[ii].spec_contains(vp));
                            }
                            assert(old(hal).allocated().contains(m_old[vp].pa));
                            if frees_owned_pa(s_old.take(ii), m_old, start.0, size, m_old[vp].pa) {
                                let vq = choose|vq: usize|
                                    #![trigger map_present(m_old, vq), page_in_range(vq, start.0, size)]
                                    page_in_range(vq, start.0, size) && alloc_covered(
                                        s_old.take(ii),
                                        vq,
                                    ) && map_present(m_old, vq) && m_old[vq].pa == m_old[vp].pa;
                                lemma_alloc_covered_take(s_old, ii, vq);
                                assert(vq != vp) by {
                                    let j = choose|j: int|
                                        0 <= j < s_old.take(ii).len() && (
                                        #[trigger] s_old.take(ii)[j]).spec_contains(vq) && (
                                        s_old.take(ii)[j].backend matches Backend::Alloc { .. });
                                    assert(s_old[j].end_spec() <= s_old[ii].start.0);
                                }
                                assert(false);
                            }
                        }
                        assert forall|vp1: usize, vp2: usize|
                            page_in_range(vp1, lo, (hi - lo) as usize) && page_in_range(
                                vp2,
                                lo,
                                (hi - lo) as usize,
                            ) && vp1 != vp2 && #[trigger] map_present(pt.slots(), vp1)
                            && #[trigger] map_present(pt.slots(), vp2) implies pt.slots()[vp1].pa
                            != pt.slots()[vp2].pa by {
                            assert(map_present(m_old, vp1) && m_old[vp1] == pt.slots()[vp1]);
                            assert(map_present(m_old, vp2) && m_old[vp2] == pt.slots()[vp2]);
                            assert(alloc_covered(s_old, vp1)) by {
                                assert(0 <= ii < s_old.len() && s_old[ii].spec_contains(vp1));
                            }
                            assert(alloc_covered(s_old, vp2)) by {
                                assert(0 <= ii < s_old.len() && s_old[ii].spec_contains(vp2));
                            }
                        }
                    }
                }
                let ghost m_pre = pt.slots();
                let ghost hal_pre_alloc = hal.allocated();
                let ok = a.backend.unmap(GuestPhysAddr(lo), hi - lo, pt, hal);
                if !ok {
                    proof {
                        assert(a.backend matches Backend::Linear { .. });
                        assert(a.flags.spec_is_empty()) by {
                            if !a.flags.spec_is_empty() {
                                assert forall|vp: usize| #[trigger]
                                    page_in_range(vp, lo, (hi - lo) as usize) implies map_present(
                                    m_pre,
                                    vp,
                                ) by {
                                    assert(page_in_range(vp, a.start.0, a.size));
                                }
                                assert(false);
                            }
                        }
                        assert(area_overlaps_range(s_old[ii], start.0, size));
                    }
                    return Err(MappingError::BadState);
                }
                let ghost left = MemoryArea {
                    start: a.start,
                    size: (start.0 - a.start.0) as usize,
                    flags: a.flags,
                    backend: a.backend,
                };
                let ghost right = MemoryArea {
                    start: GuestPhysAddr(end),
                    size: (a_end - end) as usize,
                    flags: a.flags,
                    backend: a.backend,
                };
                let ghost new0 = new_areas@;
                if a.start.0 < start.0 {
                    new_areas.push(
                        MemoryArea {
                            start: a.start,
                            size: start.0 - a.start.0,
                            flags: a.flags,
                            backend: a.backend,
                        },
                    );
                }
                if end < a_end {
                    new_areas.push(
                        MemoryArea {
                            start: GuestPhysAddr(end),
                            size: a_end - end,
                            flags: a.flags,
                            backend: a.backend,
                        },
                    );
                }
                proof {
                    let pushed_left = a.start.0 < start.0;
                    let pushed_right = end < a_end;
                    if pushed_left {
                        lemma_aligned_sub(start.0, a.start.0);
                    }
                    if pushed_right {
                        lemma_aligned_sub(a_end, end);
                    }
                    assert(new_areas@ =~= (if pushed_left && pushed_right {
                        new0.insert(new0.len() as int, left).insert(new0.len() as int + 1, right)
                    } else if pushed_left {
                        new0.insert(new0.len() as int, left)
                    } else if pushed_right {
                        new0.insert(new0.len() as int, right)
                    } else {
                        new0
                    }));
                    // the remaining areas keep their backing: their pages
                    // lie outside the unmapped window
                    assert forall|j: int| ii + 1 <= j < n implies area_backed(
                        #[trigger] s_old[j],
                        pt.slots(),
                    ) by {
                        assert(s_old[ii].end_spec() <= s_old[j].start.0);
                        lemma_area_backed_frame(s_old[j], m_pre, pt.slots(), lo, (hi - lo) as usize);
                    }
                    assert forall|p: int| 0 <= p < new0.len() implies area_backed(
                        #[trigger] new0[p],
                        pt.slots(),
                    ) by {
                        assert(new0[p].end_spec() <= s_old[ii].start.0);
                        lemma_area_backed_frame(new0[p], m_pre, pt.slots(), lo, (hi - lo) as usize);
                    }
                    // the fragments keep the parent's backing
                    if pushed_left {
                        assert(area_backed(left, pt.slots())) by {
                            assert(area_backed(a, m_pre));
                            assert forall|vp: usize| #[trigger]
                                page_in_range(vp, left.start.0, left.size) implies page_in_range(
                                vp,
                                a.start.0,
                                a.size,
                            ) && !(lo <= vp && vp < hi) && pt.slots().dom().contains(vp) == m_pre.dom(
                            ).contains(vp) && (m_pre.dom().contains(vp) ==> pt.slots()[vp]
                                == m_pre[vp]) by {}
                        }
                    }
                    if pushed_right {
                        assert(area_backed(right, pt.slots())) by {
                            assert(area_backed(a, m_pre));
                            assert forall|vp: usize| #[trigger]
                                page_in_range(vp, right.start.0, right.size) implies page_in_range(
                                vp,
                                a.start.0,
                                a.size,
                            ) && !(lo <= vp && vp < hi) && pt.slots().dom().contains(vp) == m_pre.dom(
                            ).contains(vp) && (m_pre.dom().contains(vp) ==> pt.slots()[vp]
                                == m_pre[vp]) by {}
                        }
                    }
                    // coverage bookkeeping: the area minus the range is
                    // exactly the pushed fragments
                    assert forall|addr: usize|
                        #![trigger covered(new_areas@, addr)]
                        #![trigger covered(s_old.take(ii + 1), addr)]
                        covered(new_areas@, addr) == (covered(s_old.take(ii + 1), addr) && !(start.0
                            <= addr < end)) by {
                        lemma_coverage_insert(s_old.take(ii), ii, a, addr);
                        assert(s_old.take(ii + 1) =~= s_old.take(ii).insert(ii, a));
                        if pushed_left && pushed_right {
                            lemma_coverage_insert(new0, new0.len() as int, left, addr);
                            lemma_coverage_insert(
                                new0.insert(new0.len() as int, left),
                                new0.len() as int + 1,
                                right,
                                addr,
                            );
                        } else if pushed_left {
                            lemma_coverage_insert(new0, new0.len() as int, left, addr);
                        } else if pushed_right {
                            lemma_coverage_insert(new0, new0.len() as int, right, addr);
                        }
                    }
                    assert forall|addr: usize|
                        #![trigger alloc_covered(new_areas@, addr)]
                        #![trigger alloc_covered(s_old.take(ii + 1), addr)]
                        alloc_covered(new_areas@, addr) == (alloc_covered(s_old.take(ii + 1), addr)
                            && !(start.0 <= addr && addr < end)) by {
                        lemma_coverage_insert(s_old.take(ii), ii, a, addr);
                        assert(s_old.take(ii + 1) =~= s_old.take(ii).insert(ii, a));
                        if pushed_left && pushed_right {
                            lemma_coverage_insert(new0, new0.len() as int, left, addr);
                            lemma_coverage_insert(
                                new0.insert(new0.len() as int, left),
                                new0.len() as int + 1,
                                right,
                                addr,
                            );
                        } else if pushed_left {
                            lemma_coverage_insert(new0, new0.len() as int, left, addr);
                        } else if pushed_right {
                            lemma_coverage_insert(new0, new0.len() as int, right, addr);
                        }
                    }
                    assert forall|addr: usize, fl: MappingFlags, be: Backend|
                        #![trigger covers(new_areas@, addr, fl, be)]
                        #![trigger covers(s_old.take(ii + 1), addr, fl, be)]
                        covers(new_areas@, addr, fl, be) == (covers(s_old.take(ii + 1), addr, fl, be)
                            && !(start.0 <= addr && addr < end)) by {
                        lemma_covers_insert(s_old.take(ii), ii, a, addr, fl, be);
                        assert(s_old.take(ii + 1) =~= s_old.take(ii).insert(ii, a));
                        if pushed_left && pushed_right {
                            lemma_covers_insert(new0, new0.len() as int, left, addr, fl, be);
                            lemma_covers_insert(
                                new0.insert(new0.len() as int, left),
                                new0.len() as int + 1,
                                right,
                                addr,
                                fl,
                                be,
                            );
                        } else if pushed_left {
                            lemma_covers_insert(new0, new0.len() as int, left, addr, fl, be);
                        } else if pushed_right {
                            lemma_covers_insert(new0, new0.len() as int, right, addr, fl, be);
                        }
                    }
                    // slots: the window's covered pages are cleared, the
                    // rest is untouched
                    assert forall|k: usize|
                        #![trigger pt.slots().dom().contains(k)]
                        #![trigger m_old.dom().contains(k)]
                        !(start.0 <= k && k < end && covered(s_old.take(ii + 1), k)) implies (
                        pt.slots().dom().contains(k) == m_old.dom().contains(k) && (m_old.dom(
                        ).contains(k) ==> pt.slots()[k] == m_old[k])) by {
                        lemma_coverage_insert(s_old.take(ii), ii, a, k);
                        assert(s_old.take(ii + 1) =~= s_old.take(ii).insert(ii, a));
                        assert(!(lo <= k && k < hi));
                        assert(m_pre.dom().contains(k) == pt.slots().dom().contains(k) && (
                        m_pre.dom().contains(k) ==> pt.slots()[k] == m_pre[k]));
                    }
                    assert forall|vp: usize| #[trigger]
                        page_in_range(vp, start.0, size) && covered(s_old.take(ii + 1), vp)
                            implies !map_present(pt.slots(), vp) by {
                        lemma_coverage_insert(s_old.take(ii), ii, a, vp);
                        assert(s_old.take(ii + 1) =~= s_old.take(ii).insert(ii, a));
                        if covered(s_old.take(ii), vp) {
                            assert(!map_present(m_pre, vp));
                            assert(!(lo <= vp && vp < hi));
                        } else {
                            assert(a.spec_contains(vp));
                            assert(lo <= vp && vp < hi);
                            assert(page_in_range(vp, lo, (hi - lo) as usize));
                        }
                    }
                    // accounting
                    assert(present_pages(m_pre, lo as int, ((hi - lo) / 4096) as nat)
                        == present_pages(m_old, lo as int, ((hi - lo) / 4096) as nat)) by {
                        assert((((hi - lo) / 4096) as nat) * 4096 == hi - lo) by (nonlinear_arith)
                            requires
                                (hi - lo) % 4096 == 0,
                                hi >= lo,
                        ;
                        lemma_present_pages_congruent(
                            m_pre,
                            m_old,
                            lo as int,
                            ((hi - lo) / 4096) as nat,
                        );
                    }
                    assert(freed_pages_upto(s_old, m_old, start.0, end, (ii + 1) as nat)
                        == freed_pages_upto(s_old, m_old, start.0, end, ii as nat)
                        + area_freed_pages(a, m_old, start.0, end));
                    if a.backend matches Backend::Alloc { .. } {
                        assert(area_freed_pages(a, m_old, start.0, end) == present_pages(
                            m_old,
                            lo as int,
                            ((hi - lo) / 4096) as nat,
                        ));
                    } else {
                        assert(area_freed_pages(a, m_old, start.0, end) == 0);
                    }
                    // outstanding frames
                    assert forall|x: usize|
                        #![trigger hal.allocated().contains(x)]
                        #![trigger old(hal).allocated().contains(x)]
                        hal.allocated().contains(x) == (old(hal).allocated().contains(x)
                            && !frees_owned_pa(s_old.take(ii + 1), m_old, start.0, size, x)) by {
                        lemma_frees_owned_pa_grow(s_old, m_old, start.0, size, ii, x);
                        if a.backend matches Backend::Alloc { .. } {
                            lemma_frees_pa_congruent(m_pre, m_old, lo, (hi - lo) as usize, x);
                            if frees_owned_pa(s_old.take(ii + 1), m_old, start.0, size, x)
                                && !frees_owned_pa(s_old.take(ii), m_old, start.0, size, x) {
                                let vp = choose|vp: usize|
                                    #![trigger map_present(m_old, vp), page_in_range(vp, start.0, size)]
                                    page_in_range(vp, start.0, size) && alloc_covered(
                                        s_old.take(ii + 1),
                                        vp,
                                    ) && map_present(m_old, vp) && m_old[vp].pa == x;
                                lemma_coverage_insert(s_old.take(ii), ii, a, vp);
                                assert(s_old.take(ii + 1) =~= s_old.take(ii).insert(ii, a));
                                assert(a.spec_contains(vp));
                                assert(lo <= vp && vp < hi);
                                assert(page_in_range(vp, lo, (hi - lo) as usize));
                                assert(frees_pa(m_old, lo, (hi - lo) as usize, x));
                            }
                            if frees_pa(m_old, lo, (hi - lo) as usize, x) {
                                let vp = choose|vp: usize| #[trigger]
                                    page_in_range(vp, lo, (hi - lo) as usize) && map_present(
                                        m_old,
                                        vp,
                                    ) && m_old[vp].pa == x;
                                assert(alloc_covered(s_old.take(ii + 1), vp)) by {
                                    assert(s_old.take(ii + 1)[ii] == a);
                                    assert(a.spec_contains(vp));
                                }
                                assert(frees_owned_pa(s_old.take(ii + 1), m_old, start.0, size, x));
                            }
                        } else {
                            // a linear area frees nothing
                            if frees_owned_pa(s_old.take(ii + 1), m_old, start.0, size, x)
                                && !frees_owned_pa(s_old.take(ii), m_old, start.0, size, x) {
                                let vp = choose|vp: usize|
                                    #![trigger map_present(m_old, vp), page_in_range(vp, start.0, size)]
                                    page_in_range(vp, start.0, size) && alloc_covered(
                                        s_old.take(ii + 1),
                                        vp,
                                    ) && map_present(m_old, vp) && m_old[vp].pa == x;
                                lemma_coverage_insert(s_old.take(ii), ii, a, vp);
                                assert(s_old.take(ii + 1) =~= s_old.take(ii).insert(ii, a));
                                let j = choose|j: int|
                                    0 <= j < s_old.take(ii + 1).len() && (
                                    #[trigger] s_old.take(ii + 1)[j]).spec_contains(vp) && (
                                    s_old.take(ii + 1)[j].backend matches Backend::Alloc { .. });
                                assert(false);
                            }
                        }
                    }
                }
            }
            i = i + 1;
        }
        proof {
            assert(s_old.take(n as int) =~= s_old);
        }
        self.areas = new_areas;
        proof {
            // remaining coverage is old coverage clipped to the
            // complement of the range; ownership and distinctness carry
            // over because the surviving pages kept their slots
            assert forall|vp: usize|
                #![trigger alloc_covered(self.areas_seq(), vp)]
                alloc_covered(self.areas_seq(), vp) && map_present(pt.slots(), vp) implies hal
                .allocated().contains(pt.slots()[vp].pa) by {
                assert(alloc_covered(s_old, vp) && !(start.0 <= vp && vp < end));
                assert(aligned_4k(vp)) by {
                    assert(pt.slots().dom().contains(vp));
                }
                assert(pt.slots()[vp] == m_old[vp] && map_present(m_old, vp));
                assert(old(hal).allocated().contains(m_old[vp].pa));
                if frees_owned_pa(s_old, m_old, start.0, size, m_old[vp].pa) {
                    let vq = choose|vq: usize|
                        #![trigger map_present(m_old, vq), page_in_range(vq, start.0, size)]
                        page_in_range(vq, start.0, size) && alloc_covered(s_old, vq)
                            && map_present(m_old, vq) && m_old[vq].pa == m_old[vp].pa;
                    assert(vq != vp);
                    assert(false);
                }
            }
            assert forall|vp1: usize, vp2: usize|
                #![trigger alloc_covered(self.areas_seq(), vp1), alloc_covered(self.areas_seq(), vp2)]
                alloc_covered(self.areas_seq(), vp1) && alloc_covered(self.areas_seq(), vp2) && vp1
                    != vp2 && map_present(pt.slots(), vp1) && map_present(pt.slots(), vp2) implies
                pt.slots()[vp1].pa != pt.slots()[vp2].pa by {
                assert(alloc_covered(s_old, vp1) && !(start.0 <= vp1 && vp1 < end));
                assert(alloc_covered(s_old, vp2) && !(start.0 <= vp2 && vp2 < end));
                assert(pt.slots()[vp1] == m_old[vp1] && map_present(m_old, vp1));
                assert(pt.slots()[vp2] == m_old[vp2] && map_present(m_old, vp2));
            }
        }
        Ok(())
    }

    /// Removes all memory areas and the mappings behind them, handing
    /// every frame behind an allocation-backed page back to the
    /// allocator. Fails only on the degenerate linear area whose flags
    /// are empty, leaving the set unchanged but earlier areas already
    /// torn down.
    pub fn clear<H: AxMmHal>(&mut self, pt: &mut NestedPageTable, hal: &mut H) -> (r: Result<
        (),
        MappingError,
    >)
        requires
            old(self).inv(*old(pt), old(hal).allocated()),
        ensures
            final(pt).spec_root() == old(pt).spec_root(),
            final(pt).wf(),
            final(hal).alloc_total() == old(hal).alloc_total(),
            final(hal).virt_offset() == old(hal).virt_offset(),
            forall|x: usize| #[trigger]
                final(hal).allocated().contains(x) ==> old(hal).allocated().contains(x),
            match r {
                Ok(()) => {
                    &&& final(self).areas_seq() == Seq::<MemoryArea>::empty()
                    &&& final(self).inv(*final(pt), final(hal).allocated())
                    &&& (forall|k: usize|
                        #![trigger final(pt).slots().dom().contains(k)]
                        #![trigger old(pt).slots().dom().contains(k)]
                        !covered(old(self).areas_seq(), k) ==> (final(pt).slots().dom().contains(k)
                            == old(pt).slots().dom().contains(k) && (old(pt).slots().dom(
                        ).contains(k) ==> final(pt).slots()[k] == old(pt).slots()[k])))
                    &&& (forall|vp: usize| #[trigger]
                        covered(old(self).areas_seq(), vp) ==> !map_present(
                            final(pt).slots(),
                            vp,
                        ))
                    &&& final(hal).dealloc_total() == old(hal).dealloc_total() + freed_pages_upto(
                        old(self).areas_seq(),
                        old(pt).slots(),
                        0,
                        usize::MAX,
                        old(self).areas_seq().len() as nat,
                    )
                    &&& (forall|x: usize|
                        #![trigger final(hal).allocated().contains(x)]
                        #![trigger old(hal).allocated().contains(x)]
                        final(hal).allocated().contains(x) == (old(hal).allocated().contains(x)
                            && !frees_owned_pa(
                            old(self).areas_seq(),
                            old(pt).slots(),
                            0,
                            usize::MAX,
                            x,
                        )))
                },
                Err(e) => {
                    &&& e == MappingError::BadState
                    &&& final(self).areas_seq() == old(self).areas_seq()
                    &&& (exists|j: int|
                        0 <= j < old(self).areas_seq().len() && ((#[trigger] old(self).areas_seq()[j].backend) matches Backend::Linear { .. }) && old(self).areas_seq()[j].flags.spec_is_empty())
                },
            },
    {
        let ghost s_old = self.areas_seq();
        let ghost m_old = old(pt).slots();
        let n = self.areas.len();
        let mut i: usize = 0;
        while i < n
            invariant
                old(self).inv(*old(pt), old(hal).allocated()),
                s_old == old(self).areas_seq(),
                m_old == old(pt).slots(),
                self.areas_seq() == s_old,
                n == s_old.len(),
                i <= n,
                pt.wf(),
                pt.spec_root() == old(pt).spec_root(),
                hal.alloc_total() == old(hal).alloc_total(),
                hal.virt_offset() == old(hal).virt_offset(),
                forall|k: usize|
                    #![trigger pt.slots().dom().contains(k)]
                    #![trigger m_old.dom().contains(k)]
                    !covered(s_old.take(i as int), k) ==> (pt.slots().dom().contains(k)
                        == m_old.dom().contains(k) && (m_old.dom().contains(k) ==> pt.slots()[k]
                        == m_old[k])),
                forall|vp: usize| #[trigger]
                    covered(s_old.take(i as int), vp) ==> !map_present(pt.slots(), vp),
                forall|j: int| i <= j < n ==> area_backed(#[trigger] s_old[j], pt.slots()),
                hal.dealloc_total() == old(hal).dealloc_total() + freed_pages_upto(
                    s_old,
                    m_old,
                    0,
                    usize::MAX,
                    i as nat,
                ),
                forall|x: usize|
                    #![trigger hal.allocated().contains(x)]
                    #![trigger old(hal).allocated().contains(x)]
                    hal.allocated().contains(x) == (old(hal).allocated().contains(x)
                        && !frees_owned_pa(s_old.take(i as int), m_old, 0, usize::MAX, x)),
            decreases n - i,
        {
            let a = self.areas[i];
            let ghost ii = i as int;
            proof {
                assert(s_old[ii] == a && a.wf());
                assert(s_old.take(ii + 1) =~= s_old.take(ii).insert(ii, a));
                assert forall|vp: usize| #[trigger]
                    page_in_range(vp, a.start.0, a.size) implies !covered(s_old.take(ii), vp) by {
                    if covered(s_old.take(ii), vp) {
                        let j = choose|j: int|
                            0 <= j < s_old.take(ii).len() && (
                            #[trigger] s_old.take(ii)[j]).spec_contains(vp);
                        assert(s_old[j].end_spec() <= s_old[ii].start.0);
                        assert(false);
                    }
                }
                assert(pt_same_within(m_old, pt.slots(), a.start.0 as int, a.end_spec()));
                assert(pt_same_within(pt.slots(), m_old, a.start.0 as int, a.end_spec()));
                if a.backend matches Backend::Alloc { .. } {
                    assert forall|vp: usize| #[trigger]
                        page_in_range(vp, a.start.0, a.size) && map_present(pt.slots(), vp) implies
                        hal.allocated().contains(pt.slots()[vp].pa) by {
                        assert(map_present(m_old, vp) && m_old[vp] == pt.slots()[vp]);
                        assert(alloc_covered(s_old, vp)) by {
                            assert(0 <= ii < s_old.len() && s_old[ii].spec_contains(vp));
                        }
                        assert(old(hal).allocated().contains(m_old[vp].pa));
                        if frees_owned_pa(s_old.take(ii), m_old, 0, usize::MAX, m_old[vp].pa) {
                            let vq = choose|vq: usize|
                                #![trigger map_present(m_old, vq), page_in_range(vq, 0, usize::MAX)]
                                page_in_range(vq, 0, usize::MAX) && alloc_covered(
                                    s_old.take(ii),
                                    vq,
                                ) && map_present(m_old, vq) && m_old[vq].pa == m_old[vp].pa;
                            lemma_alloc_covered_take(s_old, ii, vq);
                            assert(vq != vp) by {
                                let j = choose|j: int|
                                    0 <= j < s_old.take(ii).len() && (
                                    #[trigger] s_old.take(ii)[j]).spec_contains(vq) && (
                                    s_old.take(ii)[j].backend matches Backend::Alloc { .. });
                                assert(s_old[j].end_spec() <= s_old[ii].start.0);
                            }
                            assert(false);
                        }
                    }
                    assert forall|vp1: usize, vp2: usize|
                        page_in_range(vp1, a.start.0, a.size) && page_in_range(
                            vp2,
                            a.start.0,
                            a.size,
                        ) && vp1 != vp2 && #[trigger] map_present(pt.slots(), vp1)
                        && #[trigger] map_present(pt.slots(), vp2) implies pt.slots()[vp1].pa
                        != pt.slots()[vp2].pa by {
                        assert(map_present(m_old, vp1) && m_old[vp1] == pt.slots()[vp1]);
                        assert(map_present(m_old, vp2) && m_old[vp2] == pt.slots()[vp2]);
                        assert(alloc_covered(s_old, vp1)) by {
                            assert(0 <= ii < s_old.len() && s_old[ii].spec_contains(vp1));
                        }
                        assert(alloc_covered(s_old, vp2)) by {
                            assert(0 <= ii < s_old.len() && s_old[ii].spec_contains(vp2));
                        }
                    }
                }
            }
            let ghost m_pre = pt.slots();
            let ok = a.backend.unmap(a.start, a.size, pt, hal);
            if !ok {
                proof {
                    assert(a.backend matches Backend::Linear { .. });
                    assert(a.flags.spec_is_empty()) by {
                        if !a.flags.spec_is_empty() {
                            assert forall|vp: usize| #[trigger]
                                page_in_range(vp, a.start.0, a.size) implies map_present(
                                m_pre,
                                vp,
                            ) by {}
                            assert(false);
                        }
                    }
                }
                return Err(MappingError::BadState);
            }
            proof {
                assert forall|j: int| ii + 1 <= j < n implies area_backed(
                    #[trigger] s_old[j],
                    pt.slots(),
                ) by {
                    assert(s_old[ii].end_spec() <= s_old[j].start.0);
                    lemma_area_backed_frame(s_old[j], m_pre, pt.slots(), a.start.0, a.size);
                }
                assert forall|k: usize|
                    #![trigger pt.slots().dom().contains(k)]
                    #![trigger m_old.dom().contains(k)]
                    !covered(s_old.take(ii + 1), k) implies (pt.slots().dom().contains(k)
                    == m_old.dom().contains(k) && (m_old.dom().contains(k) ==> pt.slots()[k]
                    == m_old[k])) by {
                    lemma_coverage_insert(s_old.take(ii), ii, a, k);
                    assert(!(a.start.0 <= k && k < a.end_spec()));
                }
                assert forall|vp: usize| #[trigger]
                    covered(s_old.take(ii + 1), vp) implies !map_present(pt.slots(), vp) by {
                    lemma_coverage_insert(s_old.take(ii), ii, a, vp);
                    if covered(s_old.take(ii), vp) {
                        assert(!map_present(m_pre, vp));
                        assert(!(a.start.0 <= vp && vp < a.end_spec()));
                    } else {
                        assert(a.spec_contains(vp));
                        if map_present(pt.slots(), vp) {
                            assert(pt.slots().dom().contains(vp));
                            assert(aligned_4k(vp));
                            assert(page_in_range(vp, a.start.0, a.size));
                        }
                    }
                }
                assert(present_pages(m_pre, a.start.0 as int, ((a.size / 4096) as nat))
                    == present_pages(m_old, a.start.0 as int, ((a.size / 4096) as nat))) by {
                    assert(((a.size / 4096) as nat) * 4096 == a.size) by (nonlinear_arith)
                        requires
                            a.size % 4096 == 0,
                    ;
                    lemma_present_pages_congruent(
                        m_pre,
                        m_old,
                        a.start.0 as int,
                        (a.size / 4096) as nat,
                    );
                }
                assert(area_freed_pages(a, m_old, 0, usize::MAX) == (
                if a.backend matches Backend::Alloc { .. } {
                    present_pages(m_old, a.start.0 as int, (a.size / 4096) as nat)
                } else {
                    0nat
                })) by {
                    assert(a.start.0 < usize::MAX && 0 < a.end_spec());
                    assert(a.end_spec() <= usize::MAX);
                    assert(((a.end_spec() - a.start.0) / 4096) as nat == (a.size / 4096) as nat);
                }
                assert forall|x: usize|
                    #![trigger hal.allocated().contains(x)]
                    #![trigger old(hal).allocated().contains(x)]
                    hal.allocated().contains(x) == (old(hal).allocated().contains(x)
                        && !frees_owned_pa(s_old.take(ii + 1), m_old, 0, usize::MAX, x)) by {
                    lemma_frees_owned_pa_grow(s_old, m_old, 0, usize::MAX, ii, x);
                    if a.backend matches Backend::Alloc { .. } {
                        lemma_frees_pa_congruent(m_pre, m_old, a.start.0, a.size, x);
                        if frees_owned_pa(s_old.take(ii + 1), m_old, 0, usize::MAX, x)
                            && !frees_owned_pa(s_old.take(ii), m_old, 0, usize::MAX, x) {
                            let vp = choose|vp: usize|
                                #![trigger map_present(m_old, vp), page_in_range(vp, 0, usize::MAX)]
                                page_in_range(vp, 0, usize::MAX) && alloc_covered(
                                    s_old.take(ii + 1),
                                    vp,
                                ) && map_present(m_old, vp) && m_old[vp].pa == x;
                            lemma_coverage_insert(s_old.take(ii), ii, a, vp);
                            assert(a.spec_contains(vp));
                            assert(page_in_range(vp, a.start.0, a.size));
                            assert(frees_pa(m_old, a.start.0, a.size, x));
                        }
                        if frees_pa(m_old, a.start.0, a.size, x) {
                            let vp = choose|vp: usize| #[trigger]
                                page_in_range(vp, a.start.0, a.size) && map_present(m_old, vp)
                                    && m_old[vp].pa == x;
                            assert(alloc_covered(s_old.take(ii + 1), vp)) by {
                                assert(s_old.take(ii + 1)[ii] == a);
                                assert(a.spec_contains(vp));
                            }
                            assert(page_in_range(vp, 0, usize::MAX)) by {
                                assert(vp < a.end_spec() <= usize::MAX);
                            }
                            assert(frees_owned_pa(s_old.take(ii + 1), m_old, 0, usize::MAX, x));
                        }
                    } else {
                        if frees_owned_pa(s_old.take(ii + 1), m_old, 0, usize::MAX, x)
                            && !frees_owned_pa(s_old.take(ii), m_old, 0, usize::MAX, x) {
                            let vp = choose|vp: usize|
                                #![trigger map_present(m_old, vp), page_in_range(vp, 0, usize::MAX)]
                                page_in_range(vp, 0, usize::MAX) && alloc_covered(
                                    s_old.take(ii + 1),
                                    vp,
                                ) && map_present(m_old, vp) && m_old[vp].pa == x;
                            lemma_coverage_insert(s_old.take(ii), ii, a, vp);
                            let j = choose|j: int|
                                0 <= j < s_old.take(ii + 1).len() && (
                                #[trigger] s_old.take(ii + 1)[j]).spec_contains(vp) && (
                                s_old.take(ii + 1)[j].backend matches Backend::Alloc { .. });
                            assert(false);
                        }
                    }
                }
            }
            i = i + 1;
        }
        proof {
            assert(s_old.take(n as int) =~= s_old);
        }
        self.areas = Vec::new();
        Ok(())
    }
}

} // verus!
