//! Behavioural tests of the address space: mapping, unmapping,
//! translation, fault handling and frame accounting, run against the
//! watermark frame allocator.

use axaddrspace::flags::{MF_EXECUTE, MF_READ, MF_WRITE};
use axaddrspace::{AddrSpace, BumpFrameAllocator, GuestPhysAddr, HostPhysAddr, MappingFlags};

fn hal() -> BumpFrameAllocator {
    BumpFrameAllocator::new(0x1000, 0x100_0000)
}

fn space(base: usize, size: usize) -> AddrSpace<BumpFrameAllocator> {
    AddrSpace::new_empty(GuestPhysAddr::from_usize(base), size, hal()).unwrap()
}

fn rw() -> MappingFlags {
    MappingFlags::from_bits(MF_READ | MF_WRITE)
}

fn rwx() -> MappingFlags {
    MappingFlags::from_bits(MF_READ | MF_WRITE | MF_EXECUTE)
}

fn r() -> MappingFlags {
    MappingFlags::from_bits(MF_READ)
}

#[test]
fn linear_mapping_translates_with_offset() {
    let mut s = space(0x1000_0000, 0x10_0000);
    s.map_linear(
        GuestPhysAddr::from_usize(0x1000_0000),
        HostPhysAddr::from_usize(0x8000_0000),
        0x1000,
        rw(),
    )
    .unwrap();
    assert_eq!(
        s.translate(GuestPhysAddr::from_usize(0x1000_0000)),
        Some(HostPhysAddr::from_usize(0x8000_0000))
    );
    assert_eq!(
        s.translate(GuestPhysAddr::from_usize(0x1000_0fff)),
        Some(HostPhysAddr::from_usize(0x8000_0fff))
    );
    assert_eq!(s.translate(GuestPhysAddr::from_usize(0x1000_1000)), None);
}

#[test]
fn populated_alloc_translates_at_once() {
    let mut s = space(0x2000_0000, 0x10_0000);
    s.map_alloc(GuestPhysAddr::from_usize(0x2000_0000), 0x3000, rw(), true).unwrap();
    for page in 0..3usize {
        let addr = GuestPhysAddr::from_usize(0x2000_0000 + page * 0x1000);
        assert!(s.translate(addr).is_some());
    }
}

#[test]
fn lazy_alloc_translates_none_until_fault() {
    let mut s = space(0x2000_0000, 0x10_0000);
    s.map_alloc(GuestPhysAddr::from_usize(0x2000_0000), 0x2000, rwx(), false).unwrap();
    let addr = GuestPhysAddr::from_usize(0x2000_0000);
    assert_eq!(s.translate(addr), None);
    assert!(s.handle_page_fault(addr, r()));
    assert!(s.translate(addr).is_some());
}

#[test]
fn independent_faults_get_distinct_frames() {
    let mut s = space(0x2000_0000, 0x10_0000);
    s.map_alloc(GuestPhysAddr::from_usize(0x2000_0000), 0x2000, rwx(), false).unwrap();
    assert!(s.handle_page_fault(GuestPhysAddr::from_usize(0x2000_0000), r()));
    assert!(s.handle_page_fault(GuestPhysAddr::from_usize(0x2000_1000), r()));
    let pa0 = s.translate(GuestPhysAddr::from_usize(0x2000_0000)).unwrap();
    let pa1 = s.translate(GuestPhysAddr::from_usize(0x2000_1000)).unwrap();
    assert_ne!(pa0, pa1);
}

#[test]
fn unmap_after_populate_frees_every_frame() {
    let mut s = space(0x3000_0000, 0x10_0000);
    let before_alloc = s.hal().alloc_count();
    s.map_alloc(GuestPhysAddr::from_usize(0x3000_0000), 0x3000, rw(), true).unwrap();
    assert_eq!(s.hal().alloc_count(), before_alloc + 3);
    assert_eq!(s.hal().dealloc_count(), 0);
    s.unmap(GuestPhysAddr::from_usize(0x3000_0000), 0x3000).unwrap();
    assert_eq!(s.hal().dealloc_count(), 3);
}

#[test]
fn unmap_after_linear_never_frees() {
    let mut s = space(0x1000_0000, 0x10_0000);
    s.map_linear(
        GuestPhysAddr::from_usize(0x1000_0000),
        HostPhysAddr::from_usize(0x8000_0000),
        0x2000,
        rw(),
    )
    .unwrap();
    s.unmap(GuestPhysAddr::from_usize(0x1000_0000), 0x2000).unwrap();
    assert_eq!(s.hal().dealloc_count(), 0);
    assert_eq!(s.translate(GuestPhysAddr::from_usize(0x1000_0000)), None);
}

#[test]
fn overlapping_map_fails_with_conflict_and_changes_nothing() {
    let mut s = space(0x2000_0000, 0x10_0000);
    s.map_alloc(GuestPhysAddr::from_usize(0x2000_0000), 0x2000, rw(), true).unwrap();
    let pa_before = s.translate(GuestPhysAddr::from_usize(0x2000_0000));
    let err = s.map_alloc(GuestPhysAddr::from_usize(0x2000_1000), 0x2000, rwx(), true);
    assert_eq!(err, Err(axaddrspace::AxError::AlreadyExists));
    let err2 = s.map_linear(
        GuestPhysAddr::from_usize(0x2000_0000),
        HostPhysAddr::from_usize(0x8000_0000),
        0x1000,
        rw(),
    );
    assert_eq!(err2, Err(axaddrspace::AxError::AlreadyExists));
    assert_eq!(s.translate(GuestPhysAddr::from_usize(0x2000_0000)), pa_before);
    assert_eq!(s.translate(GuestPhysAddr::from_usize(0x2000_2000)), None);
}

#[test]
fn misaligned_requests_fail_with_invalid_input() {
    let mut s = space(0x2000_0000, 0x10_0000);
    assert_eq!(
        s.map_alloc(GuestPhysAddr::from_usize(0x2000_0100), 0x1000, rw(), true),
        Err(axaddrspace::AxError::InvalidInput)
    );
    assert_eq!(
        s.map_alloc(GuestPhysAddr::from_usize(0x2000_0000), 0x800, rw(), true),
        Err(axaddrspace::AxError::InvalidInput)
    );
    assert_eq!(
        s.map_linear(
            GuestPhysAddr::from_usize(0x2000_0000),
            HostPhysAddr::from_usize(0x8000_0800),
            0x1000,
            rw()
        ),
        Err(axaddrspace::AxError::InvalidInput)
    );
    assert_eq!(
        s.unmap(GuestPhysAddr::from_usize(0x2000_0001), 0x1000),
        Err(axaddrspace::AxError::InvalidInput)
    );
    assert_eq!(
        s.map_alloc(GuestPhysAddr::from_usize(0x4000_0000), 0x1000, rw(), true),
        Err(axaddrspace::AxError::InvalidInput)
    );
    assert_eq!(s.hal().alloc_count(), 1);
    assert_eq!(s.translate(GuestPhysAddr::from_usize(0x2000_0000)), None);
}

#[test]
fn fault_outside_any_area_is_rejected() {
    let mut s = space(0x2000_0000, 0x10_0000);
    assert!(!s.handle_page_fault(GuestPhysAddr::from_usize(0x1000_0000), r()));
    assert!(!s.handle_page_fault(GuestPhysAddr::from_usize(0x2000_0000), r()));
    assert_eq!(s.hal().alloc_count(), 1);
}

#[test]
fn fault_exceeding_declared_flags_is_rejected() {
    let mut s = space(0x2000_0000, 0x10_0000);
    s.map_alloc(GuestPhysAddr::from_usize(0x2000_0000), 0x1000, r(), false).unwrap();
    let w = MappingFlags::from_bits(MF_WRITE);
    assert!(!s.handle_page_fault(GuestPhysAddr::from_usize(0x2000_0000), w));
    assert_eq!(s.translate(GuestPhysAddr::from_usize(0x2000_0000)), None);
    assert_eq!(s.hal().alloc_count(), 1);
}

#[test]
fn fault_on_populated_area_is_an_anomaly() {
    let mut s = space(0x2000_0000, 0x10_0000);
    s.map_alloc(GuestPhysAddr::from_usize(0x2000_0000), 0x1000, rw(), true).unwrap();
    assert!(!s.handle_page_fault(GuestPhysAddr::from_usize(0x2000_0000), r()));
}

#[test]
fn fault_on_linear_area_is_never_resolved() {
    let mut s = space(0x1000_0000, 0x10_0000);
    s.map_linear(
        GuestPhysAddr::from_usize(0x1000_0000),
        HostPhysAddr::from_usize(0x8000_0000),
        0x1000,
        rw(),
    )
    .unwrap();
    assert!(!s.handle_page_fault(GuestPhysAddr::from_usize(0x1000_0000), r()));
}

#[test]
fn byte_buffer_rejects_length_beyond_area() {
    let mut s = space(0x2000_0000, 0x10_0000);
    s.map_alloc(GuestPhysAddr::from_usize(0x2000_0000), 0x2000, rw(), true).unwrap();
    assert!(s.translated_byte_buffer(GuestPhysAddr::from_usize(0x2000_0000), 0x3000).is_none());
    assert!(s.translated_byte_buffer(GuestPhysAddr::from_usize(0x2000_0000), 0x2000).is_some());
}

#[test]
fn byte_buffer_segments_sum_to_len_and_match_translate() {
    let mut s = space(0x2000_0000, 0x10_0000);
    s.map_alloc(GuestPhysAddr::from_usize(0x2000_0000), 0x3000, rw(), true).unwrap();
    let len = 0x2800;
    let v = s.translated_byte_buffer(GuestPhysAddr::from_usize(0x2000_0400), len).unwrap();
    let total: usize = v.iter().map(|seg| seg.1).sum();
    assert_eq!(total, len);
    // with the identity direct mapping, each byte's view address is the
    // byte's physical address as translate reports it
    let mut offset = 0usize;
    for seg in v.iter() {
        for b in 0..seg.1 {
            let guest = GuestPhysAddr::from_usize(0x2000_0400 + offset + b);
            let pa = s.translate(guest).unwrap();
            assert_eq!(seg.0.as_usize() + b, pa.as_usize());
        }
        offset += seg.1;
    }
}

#[test]
fn byte_buffer_merges_contiguous_runs() {
    let mut s = space(0x2000_0000, 0x10_0000);
    // eager population draws consecutive frames from the watermark
    // allocator, so the whole buffer is one physically contiguous run
    s.map_alloc(GuestPhysAddr::from_usize(0x2000_0000), 0x3000, rw(), true).unwrap();
    let v = s.translated_byte_buffer(GuestPhysAddr::from_usize(0x2000_0000), 0x3000).unwrap();
    assert_eq!(v.len(), 1);
    assert_eq!(v[0].1, 0x3000);
}

#[test]
fn byte_buffer_splits_discontiguous_runs() {
    let mut s = space(0x2000_0000, 0x10_0000);
    s.map_alloc(GuestPhysAddr::from_usize(0x2000_0000), 0x2000, rwx(), false).unwrap();
    // faulting the pages in reverse order makes their frames descend,
    // so the two pages form two distinct host-physical runs
    assert!(s.handle_page_fault(GuestPhysAddr::from_usize(0x2000_1000), r()));
    assert!(s.handle_page_fault(GuestPhysAddr::from_usize(0x2000_0000), r()));
    let v = s.translated_byte_buffer(GuestPhysAddr::from_usize(0x2000_0000), 0x2000).unwrap();
    assert_eq!(v.len(), 2);
    assert_eq!(v[0].1 + v[1].1, 0x2000);
}

#[test]
fn byte_buffer_rejects_unfaulted_lazy_pages() {
    let mut s = space(0x2000_0000, 0x10_0000);
    s.map_alloc(GuestPhysAddr::from_usize(0x2000_0000), 0x2000, rw(), false).unwrap();
    assert!(s.translated_byte_buffer(GuestPhysAddr::from_usize(0x2000_0000), 0x2000).is_none());
}

#[test]
fn clear_frees_every_frame_of_every_area() {
    let mut s = space(0x2000_0000, 0x10_0000);
    s.map_alloc(GuestPhysAddr::from_usize(0x2000_0000), 0x3000, rw(), true).unwrap();
    s.map_alloc(GuestPhysAddr::from_usize(0x2001_0000), 0x2000, rwx(), false).unwrap();
    assert!(s.handle_page_fault(GuestPhysAddr::from_usize(0x2001_0000), r()));
    s.map_linear(
        GuestPhysAddr::from_usize(0x2002_0000),
        HostPhysAddr::from_usize(0x8000_0000),
        0x1000,
        rw(),
    )
    .unwrap();
    // three eagerly populated frames plus one faulted-in frame
    s.clear();
    assert_eq!(s.hal().dealloc_count(), 4);
    assert_eq!(s.translate(GuestPhysAddr::from_usize(0x2000_0000)), None);
    assert_eq!(s.translate(GuestPhysAddr::from_usize(0x2001_0000)), None);
    assert_eq!(s.translate(GuestPhysAddr::from_usize(0x2002_0000)), None);
}

#[test]
fn partial_unmap_splits_the_area() {
    let mut s = space(0x2000_0000, 0x10_0000);
    s.map_alloc(GuestPhysAddr::from_usize(0x2000_0000), 0x4000, rw(), true).unwrap();
    s.unmap(GuestPhysAddr::from_usize(0x2000_1000), 0x2000).unwrap();
    assert_eq!(s.hal().dealloc_count(), 2);
    assert!(s.translate(GuestPhysAddr::from_usize(0x2000_0000)).is_some());
    assert_eq!(s.translate(GuestPhysAddr::from_usize(0x2000_1000)), None);
    assert_eq!(s.translate(GuestPhysAddr::from_usize(0x2000_2000)), None);
    assert!(s.translate(GuestPhysAddr::from_usize(0x2000_3000)).is_some());
    // the surviving fragments still answer faults per their old policy
    assert_eq!(
        s.translate_and_get_limit(GuestPhysAddr::from_usize(0x2000_0000)).map(|t| t.1),
        Some(0x1000)
    );
}

#[test]
fn translate_and_get_limit_reports_area_size_not_remaining() {
    let mut s = space(0x2000_0000, 0x10_0000);
    s.map_alloc(GuestPhysAddr::from_usize(0x2000_0000), 0x3000, rw(), true).unwrap();
    let (pa, limit) = s.translate_and_get_limit(GuestPhysAddr::from_usize(0x2000_2000)).unwrap();
    assert_eq!(limit, 0x3000);
    assert_eq!(Some(pa), s.translate(GuestPhysAddr::from_usize(0x2000_2000)));
    assert!(s.translate_and_get_limit(GuestPhysAddr::from_usize(0x2000_3000)).is_none());
}

#[test]
fn empty_unmap_is_a_no_op() {
    let mut s = space(0x2000_0000, 0x10_0000);
    s.map_alloc(GuestPhysAddr::from_usize(0x2000_0000), 0x1000, rw(), true).unwrap();
    s.unmap(GuestPhysAddr::from_usize(0x2000_0000), 0).unwrap();
    assert!(s.translate(GuestPhysAddr::from_usize(0x2000_0000)).is_some());
}

#[test]
fn exhausted_allocator_reports_out_of_memory() {
    let empty = BumpFrameAllocator::new(0x1000, 0);
    let r = AddrSpace::new_empty(GuestPhysAddr::from_usize(0x2000_0000), 0x1000, empty);
    assert!(matches!(r, Err(axaddrspace::AxError::NoMemory)));
}

#[test]
fn populate_failure_midway_reports_bad_state() {
    // room for the root table and one data frame only
    let small = BumpFrameAllocator::new(0x1000, 0x2000);
    let mut s = AddrSpace::new_empty(GuestPhysAddr::from_usize(0x2000_0000), 0x10_0000, small)
        .unwrap();
    let outcome = s.map_alloc(GuestPhysAddr::from_usize(0x2000_0000), 0x2000, rw(), true);
    assert_eq!(outcome, Err(axaddrspace::AxError::BadState));
    // the failed range was never inserted as an area, so a fault on it
    // still misses
    assert!(!s.handle_page_fault(GuestPhysAddr::from_usize(0x2000_1000), r()));
}

#[test]
fn page_table_root_is_stable() {
    let mut s = space(0x2000_0000, 0x10_0000);
    let root = s.page_table_root();
    s.map_alloc(GuestPhysAddr::from_usize(0x2000_0000), 0x1000, rw(), true).unwrap();
    assert_eq!(s.page_table_root(), root);
    assert_eq!(s.base().as_usize(), 0x2000_0000);
    assert_eq!(s.end().as_usize(), 0x2010_0000);
    assert_eq!(s.size(), 0x10_0000);
}
