//! The cross-operation guarantees of the address space, proved once
//! and for all: what an eagerly populated mapping translates, what a
//! lazily populated one translates before and after its first fault,
//! and how many frames an unmap or a teardown hands back.

use vstd::prelude::*;

use crate::addr::{align_down_4k_spec, aligned_4k, lemma_align_down_mono, GuestPhysAddr};
use crate::area::{area_freed_pages, freed_pages_upto, MemoryArea};
use crate::backend::{
    lemma_present_pages_full, map_present, page_in_range, placeholder_entries_installed,
    present_pages, Backend,
};
use crate::address_space::AddrSpace;
use crate::hal::AxMmHal;
use crate::npt::{placeholder_entry, PtEntry};

verus! {

broadcast use
    vstd::map::group_map_axioms,
    vstd::set::group_set_axioms,
    vstd::seq::group_seq_axioms,
;

/// Eager population translates at once: in a space whose page table
/// holds a translation for every page of `[start, start + size)` — as
/// a successful `map_alloc` with `populate` or a successful
/// `map_linear` leaves it — any address of the range translates to
/// `Some`.
pub proof fn lemma_mapped_range_translates<H: AxMmHal>(
    s: AddrSpace<H>,
    start: GuestPhysAddr,
    size: usize,
    addr: GuestPhysAddr,
)
    requires
        s.wf(),
        aligned_4k(start.0),
        aligned_4k(size),
        s.va_range.spec_contains(addr),
        start.0 <= addr.0 < start.0 + size,
        forall|vp: usize| #[trigger]
            page_in_range(vp, start.0, size) ==> map_present(s.pt.slots(), vp),
    ensures
        s.translate_model(addr) matches Some(_),
{
    let vp = align_down_4k_spec(addr.0);
    lemma_align_down_mono(start.0, addr.0);
    assert(page_in_range(vp as usize, start.0, size));
    assert(map_present(s.pt.slots(), vp));
}

/// Lazy population translates nothing until the first fault: in a
/// space whose page table holds only placeholders over
/// `[start, start + size)` — as a successful `map_alloc` without
/// `populate` leaves it — any address of the range translates to
/// `None`.
pub proof fn lemma_lazy_range_translates_none<H: AxMmHal>(
    s: AddrSpace<H>,
    start: GuestPhysAddr,
    size: usize,
    addr: GuestPhysAddr,
)
    requires
        s.wf(),
        aligned_4k(start.0),
        aligned_4k(size),
        start.0 <= addr.0 < start.0 + size,
        placeholder_entries_installed(s.pt.slots(), start.0, size),
    ensures
        s.translate_model(addr) is None,
{
    let vp = align_down_4k_spec(addr.0);
    lemma_align_down_mono(start.0, addr.0);
    assert(page_in_range(vp as usize, start.0, size));
    assert(s.pt.slots()[vp as usize] == placeholder_entry());
}

/// In a well-formed set, unmapping exactly one area's range frees
/// exactly what that area holds: every other area lies outside the
/// range and contributes nothing to the count.
pub proof fn lemma_freed_pages_single(
    s: Seq<MemoryArea>,
    m: Map<usize, PtEntry>,
    i: int,
    n: nat,
)
    requires
        forall|p: int, q: int|
            0 <= p < q < s.len() ==> (#[trigger] s[p]).end_spec() <= (#[trigger] s[q]).start.0,
        forall|p: int| 0 <= p < s.len() ==> (#[trigger] s[p]).wf(),
        0 <= i < s.len(),
        n <= s.len(),
        s[i].start.0 + s[i].size <= usize::MAX,
    ensures
        freed_pages_upto(s, m, s[i].start.0, (s[i].start.0 + s[i].size) as usize, n) == (
        if i < n {
            area_freed_pages(s[i], m, s[i].start.0, (s[i].start.0 + s[i].size) as usize)
        } else {
            0
        }),
    decreases n,
{
    let start = s[i].start.0;
    let end = (s[i].start.0 + s[i].size) as usize;
    if n > 0 {
        lemma_freed_pages_single(s, m, i, (n - 1) as nat);
        let j = n - 1;
        if j != i {
            assert(s[j].wf());
            if j < i {
                assert(s[j].end_spec() <= s[i].start.0);
            } else {
                assert(s[i].end_spec() <= s[j].start.0);
            }
            assert(area_freed_pages(s[j], m, start, end) == 0);
        }
    }
}

/// Unmapping a fully populated allocation area frees one frame per
/// page: with every page of the area translating — as eager population
/// guarantees — the freed count of `unmap` over exactly that area's
/// range is the area's page count.
pub proof fn lemma_unmap_frees_populated(
    s: Seq<MemoryArea>,
    m: Map<usize, PtEntry>,
    i: int,
)
    requires
        forall|p: int, q: int|
            0 <= p < q < s.len() ==> (#[trigger] s[p]).end_spec() <= (#[trigger] s[q]).start.0,
        forall|p: int| 0 <= p < s.len() ==> (#[trigger] s[p]).wf(),
        0 <= i < s.len(),
        s[i].backend matches Backend::Alloc { .. },
        forall|vp: usize| #[trigger]
            page_in_range(vp, s[i].start.0, s[i].size) ==> map_present(m, vp),
    ensures
        freed_pages_upto(s, m, s[i].start.0, (s[i].start.0 + s[i].size) as usize, s.len() as nat)
            == s[i].size / 4096,
{
    let a = s[i];
    lemma_freed_pages_single(s, m, i, s.len() as nat);
    assert((a.size / 4096) * 4096 == a.size) by (nonlinear_arith)
        requires
            a.size % 4096 == 0,
    ;
    lemma_present_pages_full(m, a.start.0, a.size, (a.size / 4096) as nat);
    assert(area_freed_pages(a, m, a.start.0, (a.start.0 + a.size) as usize) == present_pages(
        m,
        a.start.0 as int,
        (a.size / 4096) as nat,
    ));
}

/// Unmapping a linear area frees nothing: the linear backend never
/// owned a frame, so the freed count of `unmap` over exactly that
/// area's range is zero.
pub proof fn lemma_unmap_frees_nothing_linear(
    s: Seq<MemoryArea>,
    m: Map<usize, PtEntry>,
    i: int,
)
    requires
        forall|p: int, q: int|
            0 <= p < q < s.len() ==> (#[trigger] s[p]).end_spec() <= (#[trigger] s[q]).start.0,
        forall|p: int| 0 <= p < s.len() ==> (#[trigger] s[p]).wf(),
        0 <= i < s.len(),
        s[i].backend matches Backend::Linear { .. },
    ensures
        freed_pages_upto(s, m, s[i].start.0, (s[i].start.0 + s[i].size) as usize, s.len() as nat)
            == 0,
{
    lemma_freed_pages_single(s, m, i, s.len() as nat);
}

/// Teardown frees every frame the space's areas hold: the freed count
/// of `clear` sums, over every area, the frames behind that area's
/// translating pages — for a fully populated allocation area, one per
/// page.
pub proof fn lemma_clear_frees_populated(s: Seq<MemoryArea>, m: Map<usize, PtEntry>, n: nat)
    requires
        forall|p: int| 0 <= p < s.len() ==> (#[trigger] s[p]).wf(),
        n <= s.len(),
        forall|p: int|
            0 <= p < s.len() && ((#[trigger] s[p]).backend matches Backend::Alloc { .. })
                ==> forall|vp: usize| #[trigger]
                page_in_range(vp, s[p].start.0, s[p].size) ==> map_present(m, vp),
    ensures
        freed_pages_upto(s, m, 0, usize::MAX, n) == area_page_sum(s, n),
    decreases n,
{
    if n > 0 {
        lemma_clear_frees_populated(s, m, (n - 1) as nat);
        let j = n - 1;
        let a = s[j];
        assert(a.wf());
        if a.backend matches Backend::Alloc { .. } {
            assert((a.size / 4096) * 4096 == a.size) by (nonlinear_arith)
                requires
                    a.size % 4096 == 0,
            ;
            lemma_present_pages_full(m, a.start.0, a.size, (a.size / 4096) as nat);
            assert(area_freed_pages(a, m, 0, usize::MAX) == present_pages(
                m,
                a.start.0 as int,
                (a.size / 4096) as nat,
            ));
        } else {
            assert(area_freed_pages(a, m, 0, usize::MAX) == 0);
        }
    }
}

/// The page count of the first `n` allocation-backed areas: what a
/// leak-free teardown must hand back when they are fully populated.
pub open spec fn area_page_sum(s: Seq<MemoryArea>, n: nat) -> nat
    decreases n,
{
    if n == 0 || n > s.len() {
        0
    } else {
        area_page_sum(s, (n - 1) as nat) + (if s[n - 1].backend matches Backend::Alloc { .. } {
            (s[n - 1].size / 4096) as nat
        } else {
            0nat
        })
    }
}

} // verus!
