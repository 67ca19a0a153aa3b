//! Tests of the device-access value types: access widths, ports,
//! system-register addresses and their inclusive ranges.

use axaddrspace::device::{
    AccessWidth, DeviceAddrRange, Port, PortRange, SysRegAddr, SysRegAddrRange,
};
use axaddrspace::{GuestPhysAddr, GuestPhysAddrRange};

#[test]
fn access_width_round_trips_through_sizes() {
    assert_eq!(AccessWidth::try_from(1), Ok(AccessWidth::Byte));
    assert_eq!(AccessWidth::try_from(2), Ok(AccessWidth::Word));
    assert_eq!(AccessWidth::try_from(4), Ok(AccessWidth::Dword));
    assert_eq!(AccessWidth::try_from(8), Ok(AccessWidth::Qword));
    assert_eq!(AccessWidth::try_from(3), Err(()));
    assert_eq!(AccessWidth::try_from(0), Err(()));
    assert_eq!(AccessWidth::Byte.size(), 1);
    assert_eq!(AccessWidth::Word.size(), 2);
    assert_eq!(AccessWidth::Dword.size(), 4);
    assert_eq!(AccessWidth::Qword.size(), 8);
    for w in [AccessWidth::Byte, AccessWidth::Word, AccessWidth::Dword, AccessWidth::Qword] {
        assert_eq!(AccessWidth::try_from(usize::from(w)), Ok(w));
    }
}

#[test]
fn access_width_bit_ranges_cover_the_access() {
    assert_eq!(AccessWidth::Byte.bits_range(), (0, 8));
    assert_eq!(AccessWidth::Word.bits_range(), (0, 16));
    assert_eq!(AccessWidth::Dword.bits_range(), (0, 32));
    assert_eq!(AccessWidth::Qword.bits_range(), (0, 64));
}

#[test]
fn port_range_is_inclusive_on_both_ends() {
    let r = PortRange::new(Port::new(0x60), Port::new(0x64));
    assert!(r.contains(Port::new(0x60)));
    assert!(r.contains(Port::new(0x62)));
    assert!(r.contains(Port::new(0x64)));
    assert!(!r.contains(Port::new(0x65)));
    assert!(!r.contains(Port::new(0x5f)));
    assert_eq!(Port::new(0x60).number(), 0x60);
}

#[test]
fn sysreg_range_is_inclusive_on_both_ends() {
    let r = SysRegAddrRange::new(SysRegAddr::new(0x100), SysRegAddr::new(0x1ff));
    assert!(r.contains(SysRegAddr::new(0x100)));
    assert!(r.contains(SysRegAddr::new(0x1ff)));
    assert!(!r.contains(SysRegAddr::new(0x200)));
    assert!(!r.contains(SysRegAddr::new(0xff)));
    assert_eq!(SysRegAddr::new(0x123).addr(), 0x123);
}

#[test]
fn guest_phys_range_is_half_open() {
    let r = GuestPhysAddrRange {
        start: GuestPhysAddr::from_usize(0x1000),
        end: GuestPhysAddr::from_usize(0x2000),
    };
    assert!(DeviceAddrRange::contains(&r, GuestPhysAddr::from_usize(0x1000)));
    assert!(DeviceAddrRange::contains(&r, GuestPhysAddr::from_usize(0x1fff)));
    assert!(!DeviceAddrRange::contains(&r, GuestPhysAddr::from_usize(0x2000)));
}
