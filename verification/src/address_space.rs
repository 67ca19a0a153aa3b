//! The virtual memory address space: the top-level object owning one
//! area set and one nested page table for a bounded guest-physical
//! range, exposing mapping, unmapping, translation, and fault-handling
//! operations.

use vstd::prelude::*;

use crate::addr::{
    align_down_4k, align_down_4k_spec, aligned_4k, is_aligned_4k, lemma_align_down_mono,
    lemma_aligned_step, lemma_wsub_aligned, wadd, wsub, GuestPhysAddr, GuestPhysAddrRange,
    HostPhysAddr, HostVirtAddr,
};
use crate::area::{
    alloc_covered, area_backed, area_overlaps_range, covered, covers, freed_pages_upto,
    frees_owned_pa, MemoryArea, MemorySet,
};
use crate::backend::{
    alloc_entries_installed, linear_entries_installed, map_present, page_in_range,
    placeholder_entries_installed, pt_same_outside, range_unmapped, Backend,
};
use crate::error::AxError;
use crate::flags::MappingFlags;
use crate::hal::AxMmHal;
use crate::mapping_err_to_ax_err;
use crate::npt::{NestedPageTable, PageSize};

verus! {

broadcast use
    vstd::map::group_map_axioms,
    vstd::set::group_set_axioms,
    vstd::seq::group_seq_axioms,
;

/// The total byte length of a sequence of buffer segments.
pub open spec fn segs_total(v: Seq<(HostVirtAddr, usize)>) -> int
    decreases v.len(),
{
    if v.len() == 0 {
        0
    } else {
        v[0].1 + segs_total(v.drop_first())
    }
}

/// The host virtual address of the `k`-th byte of a sequence of buffer
/// segments (wrapping address arithmetic).
pub open spec fn seg_addr_of(v: Seq<(HostVirtAddr, usize)>, k: int) -> usize
    decreases v.len(),
{
    if v.len() == 0 {
        0
    } else if k < v[0].1 {
        wadd(v[0].0.0, k as usize)
    } else {
        seg_addr_of(v.drop_first(), k - v[0].1)
    }
}

/// Whether every segment holds at least one byte.
pub open spec fn segs_nonempty(v: Seq<(HostVirtAddr, usize)>) -> bool {
    forall|i: int| 0 <= i < v.len() ==> (#[trigger] v[i]).1 > 0
}

/// Whether no two consecutive segments could have been one: each
/// segment ends where the next one does not continue contiguously in
/// host virtual memory. Together with the byte-for-byte address
/// correspondence this makes the segments exactly the maximal
/// host-contiguous runs of the translated window.
pub open spec fn segs_maximal(v: Seq<(HostVirtAddr, usize)>) -> bool {
    forall|i: int|
        0 <= i && i + 1 < v.len() ==> !((#[trigger] v[i]).0.0 + v[i].1 <= usize::MAX && v[i].0.0
            + v[i].1 == v[i + 1].0.0)
}

/// Segment totals are never negative.
pub proof fn lemma_segs_total_nonneg(v: Seq<(HostVirtAddr, usize)>)
    ensures
        segs_total(v) >= 0,
    decreases v.len(),
{
    if v.len() > 0 {
        lemma_segs_total_nonneg(v.drop_first());
    }
}

/// No segment is longer than the whole buffer.
pub proof fn lemma_segs_last_le(v: Seq<(HostVirtAddr, usize)>)
    requires
        v.len() > 0,
    ensures
        v[v.len() - 1].1 <= segs_total(v),
    decreases v.len(),
{
    lemma_segs_total_nonneg(v.drop_first());
    if v.len() > 1 {
        lemma_segs_last_le(v.drop_first());
        assert(v.drop_first()[v.drop_first().len() - 1] == v[v.len() - 1]);
    }
}

/// Appending a segment extends the total and addresses the new bytes
/// from the new segment, leaving earlier bytes as they were.
pub proof fn lemma_segs_push(v: Seq<(HostVirtAddr, usize)>, x: (HostVirtAddr, usize), k: int)
    ensures
        segs_total(v.push(x)) == segs_total(v) + x.1,
        0 <= k < segs_total(v) ==> seg_addr_of(v.push(x), k) == seg_addr_of(v, k),
        segs_total(v) <= k < segs_total(v) + x.1 ==> seg_addr_of(v.push(x), k) == wadd(
            x.0.0,
            (k - segs_total(v)) as usize,
        ),
    decreases v.len(),
{
    lemma_segs_total_nonneg(v);
    if v.len() == 0 {
        assert(v.push(x)[0] == x);
        assert(v.push(x).drop_first() =~= Seq::<(HostVirtAddr, usize)>::empty());
        assert(segs_total(v) == 0);
        assert(segs_total(v.push(x).drop_first()) == 0);
        assert(segs_total(v.push(x)) == x.1);
        if 0 <= k < x.1 {
            assert(seg_addr_of(v.push(x), k) == wadd(x.0.0, k as usize));
        }
    } else {
        assert(v.push(x).drop_first() =~= v.drop_first().push(x));
        assert(v.push(x)[0] == v[0]);
        lemma_segs_total_nonneg(v.drop_first());
        lemma_segs_push(v.drop_first(), x, k - v[0].1);
    }
}

/// Growing the last segment extends the total and addresses the new
/// bytes contiguously after it, leaving earlier bytes as they were.
pub proof fn lemma_segs_extend(v: Seq<(HostVirtAddr, usize)>, chunk: usize, k: int)
    requires
        v.len() > 0,
        v[v.len() - 1].1 + chunk <= usize::MAX,
    ensures
        segs_total(
            v.update(v.len() - 1, (v[v.len() - 1].0, (v[v.len() - 1].1 + chunk) as usize)),
        ) == segs_total(v) + chunk,
        0 <= k < segs_total(v) ==> seg_addr_of(
            v.update(v.len() - 1, (v[v.len() - 1].0, (v[v.len() - 1].1 + chunk) as usize)),
            k,
        ) == seg_addr_of(v, k),
        segs_total(v) <= k < segs_total(v) + chunk ==> seg_addr_of(
            v.update(v.len() - 1, (v[v.len() - 1].0, (v[v.len() - 1].1 + chunk) as usize)),
            k,
        ) == wadd(v[v.len() - 1].0.0, (v[v.len() - 1].1 + (k - segs_total(v))) as usize),
    decreases v.len(),
{
    lemma_segs_total_nonneg(v);
    let v2 = v.update(v.len() - 1, (v[v.len() - 1].0, (v[v.len() - 1].1 + chunk) as usize));
    if v.len() == 1 {
        assert(v2[0] == (v[0].0, (v[0].1 + chunk) as usize));
        assert(v2.drop_first() =~= Seq::<(HostVirtAddr, usize)>::empty());
        assert(v.drop_first() =~= Seq::<(HostVirtAddr, usize)>::empty());
        assert(segs_total(v.drop_first()) == 0);
        assert(segs_total(v2.drop_first()) == 0);
        assert(segs_total(v) == v[0].1);
        assert(segs_total(v2) == v2[0].1);
        if segs_total(v) <= k < segs_total(v) + chunk {
            assert(seg_addr_of(v2, k) == wadd(v2[0].0.0, k as usize));
            assert((v[v.len() - 1].1 + (k - segs_total(v))) as usize == k as usize);
        }
    } else {
        assert(v2.drop_first() =~= v.drop_first().update(
            v.drop_first().len() - 1,
            (v[v.len() - 1].0, (v[v.len() - 1].1 + chunk) as usize),
        ));
        assert(v2[0] == v[0]);
        assert(v.drop_first()[v.drop_first().len() - 1] == v[v.len() - 1]);
        lemma_segs_total_nonneg(v.drop_first());
        lemma_segs_extend(v.drop_first(), chunk, k - v[0].1);
    }
}

/// Shifting a wrapping sum: adding within bounds first or after the
/// wrap gives the same address.
pub proof fn lemma_wadd_shift(a: usize, b: usize, d: usize)
    requires
        a + d <= usize::MAX,
    ensures
        wadd(wadd(a, b), d) == wadd((a + d) as usize, b),
{
}

/// Merging segments: addressing `d` bytes past an exact segment end is
/// addressing `b + d` bytes into the segment.
pub proof fn lemma_wadd_merge(a: usize, b: usize, d: usize)
    requires
        a + b <= usize::MAX,
        b + d <= usize::MAX,
    ensures
        wadd(a, (b + d) as usize) == wadd((a + b) as usize, d),
{
}

/// Appends `chunk` bytes at host virtual address `hva` to a segment
/// list, growing the last segment when the new bytes continue it
/// contiguously, and starting a new segment otherwise.
fn append_chunk(v: &mut Vec<(HostVirtAddr, usize)>, hva: HostVirtAddr, chunk: usize)
    requires
        segs_total(old(v)@) + chunk <= usize::MAX,
        chunk > 0,
        segs_nonempty(old(v)@),
        segs_maximal(old(v)@),
    ensures
        segs_nonempty(final(v)@),
        segs_maximal(final(v)@),
        segs_total(final(v)@) == segs_total(old(v)@) + chunk,
        forall|k: int|
            0 <= k < segs_total(old(v)@) ==> #[trigger] seg_addr_of(final(v)@, k) == seg_addr_of(
                old(v)@,
                k,
            ),
        forall|k: int|
            segs_total(old(v)@) <= k < segs_total(old(v)@) + chunk ==> #[trigger] seg_addr_of(
                final(v)@,
                k,
            ) == wadd(hva.0, (k - segs_total(old(v)@)) as usize),
{
    proof {
        lemma_segs_total_nonneg(v@);
    }
    let n = v.len();
    if n > 0 {
        let last = v[n - 1];
        if last.0.0 <= usize::MAX - last.1 && last.0.0 + last.1 == hva.0 {
            proof {
                lemma_segs_last_le(v@);
            }
            let ghost v_old = v@;
            v[n - 1] = (last.0, last.1 + chunk);
            proof {
                assert(v@ == v_old.update(
                    v_old.len() - 1,
                    (v_old[v_old.len() - 1].0, (v_old[v_old.len() - 1].1 + chunk) as usize),
                ));
                lemma_segs_extend(v_old, chunk, 0);
                assert forall|k: int| 0 <= k < segs_total(v_old) implies #[trigger] seg_addr_of(
                    v@,
                    k,
                ) == seg_addr_of(v_old, k) by {
                    lemma_segs_extend(v_old, chunk, k);
                }
                assert forall|k: int|
                    segs_total(v_old) <= k < segs_total(v_old) + chunk implies #[trigger] seg_addr_of(
                    v@,
                    k,
                ) == wadd(hva.0, (k - segs_total(v_old)) as usize) by {
                    lemma_segs_extend(v_old, chunk, k);
                    let d = (k - segs_total(v_old)) as usize;
                    assert(seg_addr_of(v@, k) == wadd(last.0.0, (last.1 + d) as usize));
                    lemma_wadd_merge(last.0.0, last.1, d);
                }
                assert forall|i: int| 0 <= i < v@.len() implies (#[trigger] v@[i]).1 > 0 by {
                    let nl = (v_old[v_old.len() - 1].0, (v_old[v_old.len() - 1].1
                        + chunk) as usize);
                    let u = v_old.update(v_old.len() - 1, nl);
                    assert(v@ == u);
                    if i < v_old.len() - 1 {
                        vstd::seq::axiom_seq_update_different(v_old, i, v_old.len() - 1, nl);
                    } else {
                        assert(u[i] == nl);
                    }
                }
                assert forall|i: int| 0 <= i && i + 1 < v@.len() implies !((
                #[trigger] v@[i]).0.0 + v@[i].1 <= usize::MAX && v@[i].0.0 + v@[i].1 == v@[i
                    + 1].0.0) by {
                    let nl = (v_old[v_old.len() - 1].0, (v_old[v_old.len() - 1].1
                        + chunk) as usize);
                    let u = v_old.update(v_old.len() - 1, nl);
                    assert(v@ == u && u.len() == v_old.len());
                    vstd::seq::axiom_seq_update_different(v_old, i, v_old.len() - 1, nl);
                    if i + 1 < v_old.len() - 1 {
                        vstd::seq::axiom_seq_update_different(v_old, i + 1, v_old.len() - 1, nl);
                    } else {
                        assert(u[i + 1] == nl);
                        assert(u[i + 1].0 == v_old[i + 1].0);
                    }
                }
            }
            return ;
        }
        proof {
            assert(!(v@[n - 1].0.0 + v@[n - 1].1 <= usize::MAX && v@[n - 1].0.0 + v@[n - 1].1
                == hva.0));
        }
    }
    let ghost v_old = v@;
    v.push((hva, chunk));
    proof {
        assert(v@ == v_old.push((hva, chunk)));
        lemma_segs_push(v_old, (hva, chunk), 0);
        assert forall|k: int| 0 <= k < segs_total(v_old) implies #[trigger] seg_addr_of(v@, k)
            == seg_addr_of(v_old, k) by {
            lemma_segs_push(v_old, (hva, chunk), k);
        }
        assert forall|k: int|
            segs_total(v_old) <= k < segs_total(v_old) + chunk implies #[trigger] seg_addr_of(
            v@,
            k,
        ) == wadd(hva.0, (k - segs_total(v_old)) as usize) by {
            lemma_segs_push(v_old, (hva, chunk), k);
        }
        assert forall|i: int| 0 <= i < v@.len() implies (#[trigger] v@[i]).1 > 0 by {
            let u = v_old.push((hva, chunk));
            assert(v@ == u);
            if i < v_old.len() {
                vstd::seq::axiom_seq_push_index_different(v_old, (hva, chunk), i);
            } else {
                assert(u[i] == (hva, chunk));
            }
        }
        assert forall|i: int| 0 <= i && i + 1 < v@.len() implies !((#[trigger] v@[i]).0.0
            + v@[i].1 <= usize::MAX && v@[i].0.0 + v@[i].1 == v@[i + 1].0.0) by {
            let u = v_old.push((hva, chunk));
            assert(v@ == u && u.len() == v_old.len() + 1);
            vstd::seq::axiom_seq_push_index_different(v_old, (hva, chunk), i);
            if i + 1 < v_old.len() {
                vstd::seq::axiom_seq_push_index_different(v_old, (hva, chunk), i + 1);
            } else {
                // a fresh segment is started exactly because the new
                // bytes do not continue the previous segment
                assert(u[i + 1] == (hva, chunk));
                assert(i == v_old.len() - 1);
            }
        }
    }
}

/// The virtual memory address space of one guest.
///
/// It is exclusively owned and externally serialized: a single writer
/// at a time, no internal locking. Teardown is explicit: the embedder
/// calls [`Self::clear`] before dropping the space, or the frames
/// behind its allocation-backed areas stay outstanding.
pub struct AddrSpace<H: AxMmHal> {
    /// The guest-physical range the space manages.
    pub va_range: GuestPhysAddrRange,
    /// The tracked, non-overlapping mapped areas.
    pub areas: MemorySet,
    /// The nested page table the hardware walks.
    pub pt: NestedPageTable,
    /// The host abstraction that owns frames and the direct mapping.
    pub hal: H,
}

impl<H: AxMmHal> AddrSpace<H> {
    /// Well-formedness: the bounds are ordered, every area lies within
    /// them, and the area set, page table and allocator are coupled as
    /// [`MemorySet::inv`] prescribes.
    pub open spec fn wf(self) -> bool {
        &&& self.va_range.wf()
        &&& self.areas.inv(self.pt, self.hal.allocated())
        &&& (forall|i: int|
            0 <= i < self.areas.areas_seq().len() ==> self.va_range.start.0 <= (
            #[trigger] self.areas.areas_seq()[i]).start.0 && self.areas.areas_seq()[i].end_spec()
                <= self.va_range.end.0)
    }

    /// Whether `[start, start + size)` lies within the managed range.
    pub open spec fn spec_request_in_range(self, start: usize, size: usize) -> bool {
        self.va_range.start.0 <= start && start + size <= self.va_range.end.0
    }

    /// Whether a mapping or unmapping request passes validation: in
    /// range, page-aligned, and non-empty.
    pub open spec fn spec_valid_request(self, start: usize, size: usize) -> bool {
        self.spec_request_in_range(start, size) && aligned_4k(start) && aligned_4k(size) && size
            > 0
    }

    /// Whether some existing area overlaps `[start, start + size)`.
    pub open spec fn spec_overlaps(self, start: usize, size: usize) -> bool {
        exists|i: int|
            0 <= i < self.areas.areas_seq().len() && area_overlaps_range(
                #[trigger] self.areas.areas_seq()[i],
                start,
                size,
            )
    }

    /// What `translate` returns: the page-table translation of the
    /// address, byte-exact, or `None` outside the managed range or on a
    /// page that does not translate.
    pub open spec fn translate_model(self, vaddr: GuestPhysAddr) -> Option<HostPhysAddr> {
        let vp = align_down_4k_spec(vaddr.0);
        if !self.va_range.spec_contains(vaddr) {
            None
        } else if self.pt.present(vp) {
            Some(HostPhysAddr((self.pt.slots()[vp].pa + (vaddr.0 - vp)) as usize))
        } else {
            None
        }
    }

    /// Returns the address space base.
    pub fn base(&self) -> (r: GuestPhysAddr)
        ensures
            r == self.va_range.start,
    {
        self.va_range.start
    }

    /// Returns the address space end.
    pub fn end(&self) -> (r: GuestPhysAddr)
        ensures
            r == self.va_range.end,
    {
        self.va_range.end
    }

    /// Returns the address space size.
    pub fn size(&self) -> (r: usize)
        requires
            self.va_range.wf(),
        ensures
            r == self.va_range.end.0 - self.va_range.start.0,
    {
        self.va_range.size()
    }

    /// Returns the reference to the inner page table.
    pub fn page_table(&self) -> (r: &NestedPageTable)
        ensures
            *r == self.pt,
    {
        &self.pt
    }

    /// Returns the root physical address of the inner page table, for
    /// installation into a hardware virtualization control structure.
    pub fn page_table_root(&self) -> (r: HostPhysAddr)
        ensures
            r.0 == self.pt.spec_root(),
    {
        self.pt.root_paddr()
    }

    /// Returns the reference to the host abstraction, whose frame
    /// accounting the contracts of this type speak about.
    pub fn hal(&self) -> (r: &H)
        ensures
            *r == self.hal,
    {
        &self.hal
    }

    /// Checks if the address space contains the given address range.
    pub fn contains_range(&self, start: GuestPhysAddr, size: usize) -> (r: bool)
        requires
            start.0 + size <= usize::MAX,
        ensures
            r == self.spec_request_in_range(start.0, size),
    {
        self.va_range.contains_range(GuestPhysAddrRange::from_start_size(start, size))
    }

    /// Creates a new empty address space over `[base, base + size)`,
    /// allocating the root page table through the host abstraction;
    /// fails with out-of-memory if that allocation fails.
    pub fn new_empty(base: GuestPhysAddr, size: usize, hal: H) -> (r: Result<Self, AxError>)
        requires
            base.0 + size <= usize::MAX,
        ensures
            match r {
                Ok(s) => {
                    &&& s.wf()
                    &&& s.va_range.start == base
                    &&& s.va_range.end.0 == base.0 + size
                    &&& s.areas.areas_seq() == Seq::<MemoryArea>::empty()
                    &&& s.pt.slots() == Map::<usize, crate::npt::PtEntry>::empty()
                    &&& s.hal.alloc_total() == hal.alloc_total() + 1
                    &&& s.hal.dealloc_total() == hal.dealloc_total()
                    &&& s.hal.virt_offset() == hal.virt_offset()
                },
                Err(e) => e == AxError::NoMemory,
            },
    {
        let va_range = GuestPhysAddrRange::from_start_size(base, size);
        let mut hal = hal;
        match NestedPageTable::try_new(&mut hal) {
            Ok(pt) => Ok(AddrSpace { va_range, areas: MemorySet::new(), pt, hal }),
            Err(_) => Err(AxError::NoMemory),
        }
    }

    /// Adds a new linear mapping: every page of `[start_vaddr,
    /// start_vaddr + size)` translates to the frame at the constant
    /// (wrapping) offset `start_vaddr - start_paddr` below it. Fails
    /// with invalid-input on a misaligned or out-of-range request, with
    /// a conflict on overlap with an existing area, and with bad-state
    /// when the page table already held a translation in the range.
    #[verifier::rlimit(60)]
    pub fn map_linear(
        &mut self,
        start_vaddr: GuestPhysAddr,
        start_paddr: HostPhysAddr,
        size: usize,
        flags: MappingFlags,
    ) -> (r: Result<(), AxError>)
        requires
            old(self).wf(),
            start_vaddr.0 + size <= usize::MAX,
        ensures
            final(self).wf(),
            final(self).va_range == old(self).va_range,
            final(self).pt.spec_root() == old(self).pt.spec_root(),
            final(self).hal.dealloc_total() == old(self).hal.dealloc_total(),
            pt_same_outside(old(self).pt.slots(), final(self).pt.slots(), start_vaddr.0, size),
            r == Ok::<(), AxError>(()) <==> (old(self).spec_request_in_range(start_vaddr.0, size)
                && aligned_4k(start_vaddr.0) && aligned_4k(start_paddr.0) && aligned_4k(size)
                && size > 0 && !(exists|i: int|
                0 <= i < old(self).areas.areas_seq().len() && area_overlaps_range(
                    #[trigger] old(self).areas.areas_seq()[i],
                    start_vaddr.0,
                    size,
                )) && range_unmapped(old(self).pt.slots(), start_vaddr.0, size)),
            r == Err::<(), AxError>(AxError::InvalidInput) <==> !(old(self).spec_valid_request(
                start_vaddr.0,
                size,
            ) && aligned_4k(start_paddr.0)),
            r == Err::<(), AxError>(AxError::AlreadyExists) <==> (old(self).spec_valid_request(
                start_vaddr.0,
                size,
            ) && aligned_4k(start_paddr.0) && old(self).spec_overlaps(start_vaddr.0, size)),
            r == Err::<(), AxError>(AxError::BadState) <==> (old(self).spec_valid_request(
                start_vaddr.0,
                size,
            ) && aligned_4k(start_paddr.0) && !old(self).spec_overlaps(start_vaddr.0, size)
                && !range_unmapped(old(self).pt.slots(), start_vaddr.0, size)),
            match r {
                Ok(()) => {
                    &&& (exists|i: int|
                        0 <= i <= old(self).areas.areas_seq().len() && final(self).areas.areas_seq() == old(self).areas.areas_seq().insert(
                            i,
                            MemoryArea {
                                start: start_vaddr,
                                size,
                                flags,
                                backend: Backend::Linear {
                                    pa_va_offset: wsub(start_vaddr.0, start_paddr.0),
                                },
                            },
                        ))
                    &&& linear_entries_installed(
                        final(self).pt.slots(),
                        start_vaddr.0,
                        size,
                        wsub(start_vaddr.0, start_paddr.0),
                        flags,
                    )
                    &&& final(self).hal == old(self).hal
                },
                Err(AxError::InvalidInput) => {
                    &&& *final(self) == *old(self)
                    &&& !(old(self).spec_request_in_range(start_vaddr.0, size) && aligned_4k(
                        start_vaddr.0,
                    ) && aligned_4k(start_paddr.0) && aligned_4k(size) && size > 0)
                },
                Err(AxError::AlreadyExists) => {
                    &&& *final(self) == *old(self)
                    &&& (exists|i: int|
                        0 <= i < old(self).areas.areas_seq().len() && area_overlaps_range(
                            #[trigger] old(self).areas.areas_seq()[i],
                            start_vaddr.0,
                            size,
                        ))
                },
                Err(AxError::BadState) => {
                    &&& final(self).areas.areas_seq() == old(self).areas.areas_seq()
                    &&& final(self).hal == old(self).hal
                    &&& !range_unmapped(old(self).pt.slots(), start_vaddr.0, size)
                },
                Err(AxError::NoMemory) => false,
            },
    {
        if !self.contains_range(start_vaddr, size) {
            return Err(AxError::InvalidInput);
        }
        if !start_vaddr.is_aligned_4k() || !start_paddr.is_aligned_4k() || !is_aligned_4k(size) {
            return Err(AxError::InvalidInput);
        }
        let offset = start_vaddr.as_usize().wrapping_sub(start_paddr.as_usize());
        proof {
            lemma_wsub_aligned(start_vaddr.0, start_paddr.0);
        }
        let area = MemoryArea::new(start_vaddr, size, flags, Backend::new_linear(offset));
        let ghost pre = *self;
        match self.areas.map(area, &mut self.pt, &mut self.hal) {
            Ok(()) => {
                proof {
                    assert forall|i: int|
                        0 <= i < self.areas.areas_seq().len() implies self.va_range.start.0 <= (
                    #[trigger] self.areas.areas_seq()[i]).start.0
                        && self.areas.areas_seq()[i].end_spec() <= self.va_range.end.0 by {
                        let j = choose|j: int|
                            0 <= j <= pre.areas.areas_seq().len() && self.areas.areas_seq()
                                == pre.areas.areas_seq().insert(j, area);
                        if i < j {
                            assert(self.areas.areas_seq()[i] == pre.areas.areas_seq()[i]);
                        } else if i > j {
                            assert(self.areas.areas_seq()[i] == pre.areas.areas_seq()[i - 1]);
                        } else {
                            assert(self.areas.areas_seq()[i] == area);
                        }
                    }
                }
                Ok(())
            },
            Err(e) => Err(mapping_err_to_ax_err(e)),
        }
    }

    /// Adds a new allocation mapping over `[start, start + size)`, with
    /// the requested population policy. Fails with invalid-input on a
    /// misaligned or out-of-range request, with a conflict on overlap
    /// with an existing area, and with bad-state when the page table
    /// already held a translation in the range or — for an eagerly
    /// populated mapping — when a frame allocation failed partway, in
    /// which case the pages already populated remain mapped.
    #[verifier::rlimit(100)]
    #[verifier::spinoff_prover]
    pub fn map_alloc(
        &mut self,
        start: GuestPhysAddr,
        size: usize,
        flags: MappingFlags,
        populate: bool,
    ) -> (r: Result<(), AxError>)
        requires
            old(self).wf(),
            start.0 + size <= usize::MAX,
        ensures
            final(self).wf(),
            final(self).va_range == old(self).va_range,
            final(self).pt.spec_root() == old(self).pt.spec_root(),
            final(self).hal.dealloc_total() == old(self).hal.dealloc_total(),
            final(self).hal.virt_offset() == old(self).hal.virt_offset(),
            final(self).hal.alloc_total() <= old(self).hal.alloc_total() + size / 4096,
            pt_same_outside(old(self).pt.slots(), final(self).pt.slots(), start.0, size),
            forall|x: usize| #[trigger]
                old(self).hal.allocated().contains(x) ==> final(self).hal.allocated().contains(x),
            r == Ok::<(), AxError>(()) ==> (old(self).spec_request_in_range(start.0, size)
                && aligned_4k(start.0) && aligned_4k(size) && size > 0 && !(exists|i: int|
                0 <= i < old(self).areas.areas_seq().len() && area_overlaps_range(
                    #[trigger] old(self).areas.areas_seq()[i],
                    start.0,
                    size,
                )) && range_unmapped(old(self).pt.slots(), start.0, size)),
            !populate ==> (r == Ok::<(), AxError>(()) <==> (old(self).spec_request_in_range(
                start.0,
                size,
            ) && aligned_4k(start.0) && aligned_4k(size) && size > 0 && !(exists|i: int|
                0 <= i < old(self).areas.areas_seq().len() && area_overlaps_range(
                    #[trigger] old(self).areas.areas_seq()[i],
                    start.0,
                    size,
                )) && range_unmapped(old(self).pt.slots(), start.0, size))),
            r == Err::<(), AxError>(AxError::InvalidInput) <==> !old(self).spec_valid_request(
                start.0,
                size,
            ),
            r == Err::<(), AxError>(AxError::AlreadyExists) <==> (old(self).spec_valid_request(
                start.0,
                size,
            ) && old(self).spec_overlaps(start.0, size)),
            r == Err::<(), AxError>(AxError::BadState) ==> (old(self).spec_valid_request(
                start.0,
                size,
            ) && !old(self).spec_overlaps(start.0, size)),
            r matches Ok(()) ==> (exists|i: int|
                0 <= i <= old(self).areas.areas_seq().len() && final(self).areas.areas_seq()
                    == old(self).areas.areas_seq().insert(
                    i,
                    (MemoryArea { start, size, flags, backend: Backend::Alloc { populate } }),
                )),
            (r matches Ok(()) && populate) ==> alloc_entries_installed(
                final(self).pt.slots(),
                start.0,
                size,
                flags,
                old(self).hal.allocated(),
                final(self).hal.allocated(),
            ) && final(self).hal.alloc_total() == old(self).hal.alloc_total() + size / 4096,
            (r matches Ok(()) && !populate) ==> placeholder_entries_installed(
                final(self).pt.slots(),
                start.0,
                size,
            ) && final(self).hal == old(self).hal,
            r matches Err(e) ==> e != AxError::NoMemory,
            r == Err::<(), AxError>(AxError::InvalidInput) ==> *final(self) == *old(self) && !(old(self).spec_request_in_range(start.0, size) && aligned_4k(start.0) && aligned_4k(size)
                && size > 0),
            r == Err::<(), AxError>(AxError::AlreadyExists) ==> *final(self) == *old(self) && (
            exists|i: int|
                0 <= i < old(self).areas.areas_seq().len() && area_overlaps_range(
                    #[trigger] old(self).areas.areas_seq()[i],
                    start.0,
                    size,
                )),
            r == Err::<(), AxError>(AxError::BadState) ==> final(self).areas.areas_seq() == old(self).areas.areas_seq() && (!populate ==> !range_unmapped(
                old(self).pt.slots(),
                start.0,
                size,
            )),
    {
        if !self.contains_range(start, size) {
            return Err(AxError::InvalidInput);
        }
        if !start.is_aligned_4k() || !is_aligned_4k(size) {
            return Err(AxError::InvalidInput);
        }
        let area = MemoryArea::new(start, size, flags, Backend::new_alloc(populate));
        let ghost pre = *self;
        match self.areas.map(area, &mut self.pt, &mut self.hal) {
            Ok(()) => {
                proof {
                    let j = choose|j: int|
                        0 <= j <= pre.areas.areas_seq().len() && self.areas.areas_seq()
                            == pre.areas.areas_seq().insert(j, area);
                    assert(self.areas.areas_seq() == pre.areas.areas_seq().insert(
                        j,
                        MemoryArea { start, size, flags, backend: Backend::Alloc { populate } },
                    ));
                    if populate {
                        assert(area.backend == (Backend::Alloc { populate: true }));
                        assert(alloc_entries_installed(
                            self.pt.slots(),
                            start.0,
                            size,
                            flags,
                            pre.hal.allocated(),
                            self.hal.allocated(),
                        ));
                        assert(self.hal.alloc_total() == pre.hal.alloc_total() + size / 4096);
                    } else {
                        assert(area.backend == (Backend::Alloc { populate: false }));
                        assert(placeholder_entries_installed(self.pt.slots(), start.0, size));
                        assert(self.hal == pre.hal);
                    }
                    assert forall|i: int|
                        0 <= i < self.areas.areas_seq().len() implies self.va_range.start.0 <= (
                    #[trigger] self.areas.areas_seq()[i]).start.0
                        && self.areas.areas_seq()[i].end_spec() <= self.va_range.end.0 by {
                        let j = choose|j: int|
                            0 <= j <= pre.areas.areas_seq().len() && self.areas.areas_seq()
                                == pre.areas.areas_seq().insert(j, area);
                        if i < j {
                            assert(self.areas.areas_seq()[i] == pre.areas.areas_seq()[i]);
                        } else if i > j {
                            assert(self.areas.areas_seq()[i] == pre.areas.areas_seq()[i - 1]);
                        } else {
                            assert(self.areas.areas_seq()[i] == area);
                        }
                    }
                }
                Ok(())
            },
            Err(e) => Err(mapping_err_to_ax_err(e)),
        }
    }

    /// Removes the mappings within the given range: areas fully inside
    /// are removed, boundary areas are shrunk, and an area containing
    /// the whole range is split, the survivors keeping their flags and
    /// backend. Frames behind allocation-backed pages of the range are
    /// handed back to the allocator. Fails with invalid-input on a
    /// misaligned or out-of-range request, leaving everything
    /// unchanged.
    pub fn unmap(&mut self, start: GuestPhysAddr, size: usize) -> (r: Result<(), AxError>)
        requires
            old(self).wf(),
            start.0 + size <= usize::MAX,
        ensures
            final(self).va_range == old(self).va_range,
            final(self).pt.spec_root() == old(self).pt.spec_root(),
            final(self).hal.alloc_total() == old(self).hal.alloc_total(),
            final(self).hal.virt_offset() == old(self).hal.virt_offset(),
            pt_same_outside(old(self).pt.slots(), final(self).pt.slots(), start.0, size),
            r != Err::<(), AxError>(AxError::BadState) ==> final(self).wf(),
            r == Err::<(), AxError>(AxError::InvalidInput) <==> !(old(self).spec_request_in_range(
                start.0,
                size,
            ) && aligned_4k(start.0) && aligned_4k(size)),
            r == Err::<(), AxError>(AxError::InvalidInput) ==> *final(self) == *old(self),
            r matches Err(e) ==> (e == AxError::InvalidInput || e == AxError::BadState),
            (r matches Ok(()) && size == 0) ==> *final(self) == *old(self),
            (r matches Ok(()) && size > 0) ==> {
                &&& (forall|addr: usize|
                    start.0 <= addr && addr < start.0 + size ==> !covered(
                        final(self).areas.areas_seq(),
                        addr,
                    ))
                &&& (forall|addr: usize, fl: MappingFlags, be: Backend|
                    #![trigger covers(final(self).areas.areas_seq(), addr, fl, be)]
                    #![trigger covers(old(self).areas.areas_seq(), addr, fl, be)]
                    !(start.0 <= addr && addr < start.0 + size) ==> covers(
                        final(self).areas.areas_seq(),
                        addr,
                        fl,
                        be,
                    ) == covers(old(self).areas.areas_seq(), addr, fl, be))
                &&& (forall|vp: usize| #[trigger]
                    page_in_range(vp, start.0, size) && covered(old(self).areas.areas_seq(), vp)
                        ==> !map_present(final(self).pt.slots(), vp))
                &&& final(self).hal.dealloc_total() == old(self).hal.dealloc_total()
                    + freed_pages_upto(
                    old(self).areas.areas_seq(),
                    old(self).pt.slots(),
                    start.0,
                    (start.0 + size) as usize,
                    old(self).areas.areas_seq().len() as nat,
                )
                &&& (forall|x: usize|
                    #![trigger final(self).hal.allocated().contains(x)]
                    #![trigger old(self).hal.allocated().contains(x)]
                    final(self).hal.allocated().contains(x) == (old(self).hal.allocated().contains(x) && !frees_owned_pa(
                        old(self).areas.areas_seq(),
                        old(self).pt.slots(),
                        start.0,
                        size,
                        x,
                    )))
            },
            r == Err::<(), AxError>(AxError::BadState) ==> final(self).areas.areas_seq() == old(self).areas.areas_seq() && (exists|j: int|
                0 <= j < old(self).areas.areas_seq().len() && area_overlaps_range(
                    #[trigger] old(self).areas.areas_seq()[j],
                    start.0,
                    size,
                ) && (old(self).areas.areas_seq()[j].backend matches Backend::Linear { .. })
                    && old(self).areas.areas_seq()[j].flags.spec_is_empty()),
    {
        if !self.contains_range(start, size) {
            return Err(AxError::InvalidInput);
        }
        if !start.is_aligned_4k() || !is_aligned_4k(size) {
            return Err(AxError::InvalidInput);
        }
        if size == 0 {
            return Ok(());
        }
        let ghost pre = *self;
        match self.areas.unmap(start, size, &mut self.pt, &mut self.hal) {
            Ok(()) => {
                proof {
                    assert forall|i: int|
                        0 <= i < self.areas.areas_seq().len() implies self.va_range.start.0 <= (
                    #[trigger] self.areas.areas_seq()[i]).start.0
                        && self.areas.areas_seq()[i].end_spec() <= self.va_range.end.0 by {
                        let s_new = self.areas.areas_seq();
                        let a = s_new[i];
                        assert(a.wf());
                        let first: usize = a.start.0;
                        let last = (a.end_spec() - 1) as usize;
                        assert(covered(s_new, first));
                        assert(covered(s_new, last));
                        assert(!(start.0 <= first && first < start.0 + size));
                        assert(!(start.0 <= last && last < start.0 + size));
                        assert(covers(s_new, first, a.flags, a.backend));
                        assert(covers(pre.areas.areas_seq(), first, a.flags, a.backend));
                        assert(covers(s_new, last, a.flags, a.backend));
                        assert(covers(pre.areas.areas_seq(), last, a.flags, a.backend));
                        let j1 = choose|j: int|
                            0 <= j < pre.areas.areas_seq().len() && (#[trigger] pre.areas.areas_seq()[j]).spec_contains(first) && pre.areas.areas_seq()[j].flags
                                == a.flags && pre.areas.areas_seq()[j].backend == a.backend;
                        let j2 = choose|j: int|
                            0 <= j < pre.areas.areas_seq().len() && (#[trigger] pre.areas.areas_seq()[j]).spec_contains(last) && pre.areas.areas_seq()[j].flags
                                == a.flags && pre.areas.areas_seq()[j].backend == a.backend;
                        assert(pre.va_range.start.0 <= first);
                        assert(last < pre.va_range.end.0);
                    }
                }
                Ok(())
            },
            Err(e) => Err(mapping_err_to_ax_err(e)),
        }
    }

    /// Removes all mappings and areas in the address space, handing
    /// every frame behind an allocation-backed page back to the
    /// allocator; used at teardown. The degenerate linear area with
    /// empty flags, whose teardown the original design treats as an
    /// unrecoverable inconsistency, is excluded up front.
    pub fn clear(&mut self)
        requires
            old(self).wf(),
            forall|i: int|
                0 <= i < old(self).areas.areas_seq().len() && ((#[trigger] old(self).areas.areas_seq()[i].backend) matches Backend::Linear { .. }) ==> !old(self).areas.areas_seq()[i].flags.spec_is_empty(),
        ensures
            final(self).wf(),
            final(self).va_range == old(self).va_range,
            final(self).pt.spec_root() == old(self).pt.spec_root(),
            final(self).areas.areas_seq() == Seq::<MemoryArea>::empty(),
            final(self).hal.alloc_total() == old(self).hal.alloc_total(),
            final(self).hal.virt_offset() == old(self).hal.virt_offset(),
            forall|vp: usize| #[trigger]
                covered(old(self).areas.areas_seq(), vp) ==> !map_present(
                    final(self).pt.slots(),
                    vp,
                ),
            final(self).hal.dealloc_total() == old(self).hal.dealloc_total() + freed_pages_upto(
                old(self).areas.areas_seq(),
                old(self).pt.slots(),
                0,
                usize::MAX,
                old(self).areas.areas_seq().len() as nat,
            ),
            forall|x: usize|
                #![trigger final(self).hal.allocated().contains(x)]
                #![trigger old(self).hal.allocated().contains(x)]
                final(self).hal.allocated().contains(x) == (old(self).hal.allocated().contains(x)
                    && !frees_owned_pa(
                    old(self).areas.areas_seq(),
                    old(self).pt.slots(),
                    0,
                    usize::MAX,
                    x,
                )),
    {
        match self.areas.clear(&mut self.pt, &mut self.hal) {
            Ok(()) => {},
            Err(_) => {
                proof {
                    assert(false);
                }
            },
        }
    }

    /// Handles a page fault at the given address: returns `false` if
    /// the address is outside the managed range, matches no area, or
    /// the access exceeds the area's declared flags — mutating nothing
    /// in those cases — and otherwise lets the area's backend repair
    /// the translation with the area's original flags. Returns `true`
    /// only when a translation was actually installed.
    pub fn handle_page_fault(&mut self, vaddr: GuestPhysAddr, access_flags: MappingFlags) -> (r:
        bool)
        requires
            old(self).wf(),
        ensures
            final(self).wf(),
            final(self).va_range == old(self).va_range,
            final(self).pt.spec_root() == old(self).pt.spec_root(),
            final(self).areas == old(self).areas,
            final(self).hal.dealloc_total() == old(self).hal.dealloc_total(),
            final(self).hal.virt_offset() == old(self).hal.virt_offset(),
            !r ==> *final(self) == *old(self),
            r ==> old(self).va_range.spec_contains(vaddr) && (exists|i: int|
                0 <= i < old(self).areas.areas_seq().len() && (#[trigger] old(self).areas.areas_seq()[i]).spec_contains(vaddr.0) && old(self).areas.areas_seq()[i].flags.spec_contains(access_flags) && old(self).areas.areas_seq()[i].backend == (Backend::Alloc { populate: false }) && final(self).pt.slots()[align_down_4k_spec(vaddr.0)].flags == old(self).areas.areas_seq()[i].flags),
            r ==> ({
                let vp = align_down_4k_spec(vaddr.0);
                &&& final(self).pt.slots() == old(self).pt.slots().insert(
                    vp,
                    final(self).pt.slots()[vp],
                )
                &&& final(self).pt.slots()[vp].flags.spec_contains(access_flags)
                &&& (!access_flags.spec_is_empty() ==> final(self).pt.present(vp))
                &&& !old(self).hal.allocated().contains(final(self).pt.slots()[vp].pa)
                &&& final(self).hal.allocated() == old(self).hal.allocated().insert(
                    final(self).pt.slots()[vp].pa,
                )
                &&& final(self).hal.alloc_total() == old(self).hal.alloc_total() + 1
                &&& (!access_flags.spec_is_empty() ==> final(self).translate_model(vaddr) matches
                    Some(_))
            }),
    {
        if !self.va_range.contains(vaddr) {
            return false;
        }
        match self.areas.find_index(vaddr) {
            Some(i) => {
                let a = *self.areas.get(i);
                if !a.flags().contains(access_flags) {
                    return false;
                }
                let backend = *a.backend();
                let ghost pre = *self;
                let ghost ii = i as int;
                proof {
                    assert(a == pre.areas.areas_seq()[ii] && a.wf());
                    lemma_align_down_mono(a.start.0, vaddr.0);
                    lemma_aligned_step(align_down_4k_spec(vaddr.0) as usize, (a.end_spec()) as usize);
                }
                let r = backend.handle_page_fault(vaddr, a.flags(), &mut self.pt, &mut self.hal);
                proof {
                    let vp = align_down_4k_spec(vaddr.0);
                    assert(page_in_range(vp as usize, a.start.0, a.size));
                    if r {
                        assert(backend == (Backend::Alloc { populate: false }));
                        let e = self.pt.slots()[vp as usize];
                        assert(e.flags == a.flags && e.size == pre.pt.slots()[vp as usize].size);
                        assert(pre.pt.slots()[vp as usize].size == PageSize::Size4K);
                        assert(pt_same_outside(pre.pt.slots(), self.pt.slots(), vp as usize, 4096))
                            by {
                            assert forall|k: usize|
                                #![trigger self.pt.slots().dom().contains(k)]
                                #![trigger pre.pt.slots().dom().contains(k)]
                                !(vp <= k && k < vp + 4096) implies (self.pt.slots().dom(
                                ).contains(k) == pre.pt.slots().dom().contains(k) && (pre.pt.slots(
                                ).dom().contains(k) ==> self.pt.slots()[k] == pre.pt.slots()[k])) by {}
                        }
                        assert forall|j: int|
                            0 <= j < self.areas.areas_seq().len() implies area_backed(
                            #[trigger] self.areas.areas_seq()[j],
                            self.pt.slots(),
                        ) by {
                            if j != ii {
                                assert(pre.areas.areas_seq()[j].wf());
                                assert(!area_overlaps_range(
                                    pre.areas.areas_seq()[j],
                                    vp as usize,
                                    4096,
                                )) by {
                                    if j < ii {
                                        assert(pre.areas.areas_seq()[j].end_spec()
                                            <= pre.areas.areas_seq()[ii].start.0);
                                    } else {
                                        assert(pre.areas.areas_seq()[ii].end_spec()
                                            <= pre.areas.areas_seq()[j].start.0);
                                    }
                                }
                                crate::area::lemma_area_backed_frame(
                                    pre.areas.areas_seq()[j],
                                    pre.pt.slots(),
                                    self.pt.slots(),
                                    vp as usize,
                                    4096,
                                );
                            } else {
                                assert(area_backed(pre.areas.areas_seq()[ii], pre.pt.slots()));
                                assert forall|vq: usize| #[trigger]
                                    page_in_range(vq, a.start.0, a.size) implies self.pt.slots(
                                ).dom().contains(vq) && (self.pt.slots()[vq] == crate::npt::placeholder_entry()
                                    || (self.pt.slots()[vq].flags == a.flags && self.pt.slots()[vq].size
                                    == PageSize::Size4K && self.pt.slots()[vq].pa != 0
                                    && aligned_4k(self.pt.slots()[vq].pa))) by {
                                    if vq != vp as usize {
                                        assert(self.pt.slots()[vq] == pre.pt.slots()[vq]);
                                    }
                                }
                            }
                        }
                        assert forall|vq: usize|
                            #![trigger alloc_covered(self.areas.areas_seq(), vq)]
                            alloc_covered(self.areas.areas_seq(), vq) && map_present(
                                self.pt.slots(),
                                vq,
                            ) implies self.hal.allocated().contains(self.pt.slots()[vq].pa) by {
                            if vq != vp as usize {
                                assert(self.pt.slots()[vq] == pre.pt.slots()[vq]);
                                assert(pre.hal.allocated().contains(pre.pt.slots()[vq].pa));
                            }
                        }
                        assert forall|vq1: usize, vq2: usize|
                            #![trigger alloc_covered(self.areas.areas_seq(), vq1), alloc_covered(self.areas.areas_seq(), vq2)]
                            alloc_covered(self.areas.areas_seq(), vq1) && alloc_covered(
                                self.areas.areas_seq(),
                                vq2,
                            ) && vq1 != vq2 && map_present(self.pt.slots(), vq1) && map_present(
                                self.pt.slots(),
                                vq2,
                            ) implies self.pt.slots()[vq1].pa != self.pt.slots()[vq2].pa by {
                            if vq1 != vp as usize && vq2 != vp as usize {
                                assert(self.pt.slots()[vq1] == pre.pt.slots()[vq1]);
                                assert(self.pt.slots()[vq2] == pre.pt.slots()[vq2]);
                                assert(map_present(pre.pt.slots(), vq1) && map_present(
                                    pre.pt.slots(),
                                    vq2,
                                ));
                            } else if vq1 == vp as usize {
                                assert(self.pt.slots()[vq2] == pre.pt.slots()[vq2]);
                                assert(pre.hal.allocated().contains(pre.pt.slots()[vq2].pa));
                            } else {
                                assert(self.pt.slots()[vq1] == pre.pt.slots()[vq1]);
                                assert(pre.hal.allocated().contains(pre.pt.slots()[vq1].pa));
                            }
                        }
                        assert(self.va_range.spec_contains(vaddr));
                        assert(e.flags.spec_contains(access_flags));
                        if !access_flags.spec_is_empty() {
                            assert(!e.flags.spec_is_empty()) by {
                                if e.flags.0 == 0 {
                                    assert(0usize & access_flags.0 == access_flags.0);
                                    assert(0usize & access_flags.0 == 0usize) by (bit_vector);
                                }
                            }
                            assert(self.pt.present(vp as usize));
                        }
                    }
                }
                r
            },
            None => false,
        }
    }

    /// Translates the given guest physical address through the page
    /// table: the byte-exact host physical address, or `None` if the
    /// address is out of range or its page does not currently
    /// translate.
    pub fn translate(&self, vaddr: GuestPhysAddr) -> (r: Option<HostPhysAddr>)
        requires
            self.wf(),
        ensures
            r == self.translate_model(vaddr),
    {
        if !self.va_range.contains(vaddr) {
            return None;
        }
        match self.pt.query(vaddr) {
            Ok((paddr, _, _)) => Some(paddr),
            Err(_) => None,
        }
    }

    /// Walks the page table across `len` bytes from `vaddr` and
    /// returns the backing as host-virtual views, one `(address,
    /// length)` pair per maximal physically contiguous run — every view
    /// is non-empty and no two consecutive views continue each other —
    /// since consecutive guest pages need not be host-physically
    /// contiguous. Returns `None` if
    /// the address is out of range, no area contains it, `len` exceeds
    /// the containing area's size (a logical buffer may not span
    /// multiple areas), or some page of the span does not currently
    /// translate.
    #[verifier::rlimit(100)]
    #[verifier::spinoff_prover]
    pub fn translated_byte_buffer(&self, vaddr: GuestPhysAddr, len: usize) -> (r: Option<
        Vec<(HostVirtAddr, usize)>,
    >)
        requires
            self.wf(),
            vaddr.0 + len <= usize::MAX,
        ensures
            match r {
                Some(v) => {
                    &&& self.va_range.spec_contains(vaddr)
                    &&& (exists|i: int|
                        0 <= i < self.areas.areas_seq().len() && (
                        #[trigger] self.areas.areas_seq()[i]).spec_contains(vaddr.0) && len
                            <= self.areas.areas_seq()[i].size)
                    &&& segs_total(v@) == len
                    &&& segs_nonempty(v@)
                    &&& segs_maximal(v@)
                    &&& (forall|k: int|
                        0 <= k < len ==> self.pt.present(
                            #[trigger] align_down_4k_spec((vaddr.0 + k) as usize),
                        ))
                    &&& (forall|k: int|
                        0 <= k < len ==> #[trigger] seg_addr_of(v@, k) == wadd(
                            ((self.pt.slots()[align_down_4k_spec((vaddr.0 + k) as usize)].pa + (
                            vaddr.0 + k - align_down_4k_spec((vaddr.0 + k) as usize))) as usize),
                            self.hal.virt_offset(),
                        ))
                },
                None => !(self.va_range.spec_contains(vaddr) && (exists|i: int|
                    0 <= i < self.areas.areas_seq().len() && (
                    #[trigger] self.areas.areas_seq()[i]).spec_contains(vaddr.0) && len
                        <= self.areas.areas_seq()[i].size) && (forall|k: int|
                    0 <= k < len ==> self.pt.present(
                        #[trigger] align_down_4k_spec((vaddr.0 + k) as usize),
                    ))),
            },
    {
        if !self.va_range.contains(vaddr) {
            return None;
        }
        let idx = match self.areas.find_index(vaddr) {
            Some(i) => i,
            None => {
                return None;
            },
        };
        let a = *self.areas.get(idx);
        proof {
            assert(self.areas.areas_seq()[idx as int] == a && a.wf());
        }
        if len > a.size() {
            proof {
                if exists|i: int|
                    0 <= i < self.areas.areas_seq().len() && (
                    #[trigger] self.areas.areas_seq()[i]).spec_contains(vaddr.0) && len
                        <= self.areas.areas_seq()[i].size {
                    let j = choose|j: int|
                        0 <= j < self.areas.areas_seq().len() && (
                        #[trigger] self.areas.areas_seq()[j]).spec_contains(vaddr.0) && len
                            <= self.areas.areas_seq()[j].size;
                    if j < idx as int {
                        assert(self.areas.areas_seq()[j].end_spec()
                            <= self.areas.areas_seq()[idx as int].start.0);
                    } else if j > idx as int {
                        assert(self.areas.areas_seq()[idx as int].end_spec()
                            <= self.areas.areas_seq()[j].start.0);
                    }
                    assert(false);
                }
            }
            return None;
        }
        let mut v: Vec<(HostVirtAddr, usize)> = Vec::new();
        let mut start = vaddr.0;
        let end = vaddr.0 + len;
        while start < end
            invariant
                self.wf(),
                a == self.areas.areas_seq()[idx as int],
                idx < self.areas.areas_seq().len(),
                a.wf(),
                a.spec_contains(vaddr.0),
                len <= a.size,
                end == vaddr.0 + len,
                vaddr.0 <= start <= end,
                segs_nonempty(v@),
                segs_maximal(v@),
                segs_total(v@) == start - vaddr.0,
                forall|k: int|
                    0 <= k < start - vaddr.0 ==> self.pt.present(
                        #[trigger] align_down_4k_spec((vaddr.0 + k) as usize),
                    ),
                forall|k: int|
                    0 <= k < start - vaddr.0 ==> #[trigger] seg_addr_of(v@, k) == wadd(
                        ((self.pt.slots()[align_down_4k_spec((vaddr.0 + k) as usize)].pa + (vaddr.0
                            + k - align_down_4k_spec((vaddr.0 + k) as usize))) as usize),
                        self.hal.virt_offset(),
                    ),
            decreases end - start,
        {
            let ghost processed = start - vaddr.0;
            match self.pt.query(GuestPhysAddr(start)) {
                Ok((paddr, _, _)) => {
                    let to_page_end = 4096 - (start % 4096);
                    let end_va = if end - start > to_page_end {
                        start + to_page_end
                    } else {
                        end
                    };
                    let chunk = end_va - start;
                    let hva = self.hal.phys_to_virt(paddr);
                    proof {
                        lemma_segs_total_nonneg(v@);
                        assert(chunk > 0);
                        assert forall|k: int|
                            #![trigger align_down_4k_spec((vaddr.0 + k) as usize)]
                            processed <= k < processed + chunk implies align_down_4k_spec(
                            (vaddr.0 + k) as usize,
                        ) == align_down_4k_spec(start) && self.pt.present(
                            align_down_4k_spec((vaddr.0 + k) as usize),
                        ) && (self.pt.slots()[align_down_4k_spec((vaddr.0 + k) as usize)].pa + (
                        vaddr.0 + k - align_down_4k_spec((vaddr.0 + k) as usize))) == paddr.0 + (k
                            - processed) by {
                            let x = (vaddr.0 + k) as usize;
                            assert(start <= x < end_va);
                            assert(end_va <= align_down_4k_spec(start) + 4096);
                            assert(align_down_4k_spec(x) == align_down_4k_spec(start)) by (nonlinear_arith)
                                requires
                                    align_down_4k_spec(start) <= x,
                                    x < align_down_4k_spec(start) + 4096,
                                    align_down_4k_spec(x) == x - x % 4096,
                                    align_down_4k_spec(start) == start - start % 4096,
                                    aligned_4k(align_down_4k_spec(start) as usize),
                            ;
                        }
                    }
                    let ghost v_pre = v@;
                    append_chunk(&mut v, hva, chunk);
                    proof {
                        assert forall|k: int|
                            0 <= k < processed + chunk implies #[trigger] seg_addr_of(v@, k)
                            == wadd(
                            ((self.pt.slots()[align_down_4k_spec((vaddr.0 + k) as usize)].pa + (
                            vaddr.0 + k - align_down_4k_spec((vaddr.0 + k) as usize))) as usize),
                            self.hal.virt_offset(),
                        ) by {
                            if k < processed {
                                assert(seg_addr_of(v@, k) == seg_addr_of(v_pre, k));
                            } else {
                                let d = (k - processed) as usize;
                                assert(seg_addr_of(v@, k) == wadd(hva.0, d));
                                assert(hva.0 == wadd(paddr.0, self.hal.virt_offset()));
                                lemma_wadd_shift(paddr.0, self.hal.virt_offset(), d);
                            }
                        }
                        assert(segs_total(v@) == processed + chunk);
                    }
                    start = end_va;
                },
                Err(_) => {
                    proof {
                        assert(!self.pt.present(align_down_4k_spec(start)));
                        assert(align_down_4k_spec((vaddr.0 + processed) as usize)
                            == align_down_4k_spec(start));
                    }
                    return None;
                },
            }
        }
        Some(v)
    }

    /// Translates the given address and pairs it with the containing
    /// area's total size — not the remaining bytes to the area's end;
    /// callers must not mistake it for a remaining-length bound.
    pub fn translate_and_get_limit(&self, vaddr: GuestPhysAddr) -> (r: Option<
        (HostPhysAddr, usize),
    >)
        requires
            self.wf(),
        ensures
            match r {
                Some(t) => self.translate_model(vaddr) == Some(t.0) && (exists|i: int|
                    0 <= i < self.areas.areas_seq().len() && (
                    #[trigger] self.areas.areas_seq()[i]).spec_contains(vaddr.0)
                        && self.areas.areas_seq()[i].size == t.1),
                None => self.translate_model(vaddr) is None || !covered(
                    self.areas.areas_seq(),
                    vaddr.0,
                ),
            },
    {
        if !self.va_range.contains(vaddr) {
            return None;
        }
        match self.areas.find_index(vaddr) {
            Some(i) => {
                let limit = self.areas.get(i).size();
                proof {
                    assert(self.areas.areas_seq()[i as int].spec_contains(vaddr.0));
                }
                match self.pt.query(vaddr) {
                    Ok((paddr, _, _)) => Some((paddr, limit)),
                    Err(_) => None,
                }
            },
            None => None,
        }
    }
}

} // verus!
