use andy_mm::heap_alloc::AndyAllocator;
use andy_mm::mmu::assert_identity_map;
use andy_mm::mmu::identity_map_region;
use andy_mm::mmu::VirtualAddr;
use andy_mm::sv39_paging::get_vpn_index;
use andy_mm::sv39_paging::sv39_setup_identity_mapping;
use andy_mm::sv39_paging::MemoryRegion;
use andy_mm::sv39_paging::PageTableEntry;
use andy_mm::sv39_paging::ProtectionBits;
use andy_mm::sv39_paging::RiscvPagingError;
use andy_mm::sv39_paging::Sv39;

const HEAP_START: usize = 0x20_0000;

fn heap(pages: usize) -> AndyAllocator<4096> {
    AndyAllocator::<4096>::new(HEAP_START, HEAP_START + pages * 4096)
}

#[test]
fn vpn_index_slices() {
    let vpn: u64 = (3 << 18) | (5 << 9) | 7;
    assert_eq!(get_vpn_index(vpn, 0), 7);
    assert_eq!(get_vpn_index(vpn, 1), 5);
    assert_eq!(get_vpn_index(vpn, 2), 3);
}

#[test]
fn protection_bits_encode() {
    assert_eq!(ProtectionBits::TablePtr.bits(), 0b0000);
    assert_eq!(ProtectionBits::Read.bits(), 0b0010);
    assert_eq!(ProtectionBits::ReadWrite.bits(), 0b0110);
    assert_eq!(ProtectionBits::Execute.bits(), 0b1000);
    assert_eq!(ProtectionBits::ReadExecute.bits(), 0b1010);
    assert_eq!(ProtectionBits::ReadWriteExecute.bits(), 0b1110);
}

#[test]
fn protection_bits_decode_rejects_reserved() {
    // valid bit set, write-only pattern in the protection field
    let entry = PageTableEntry { bits: 0b0100 | 1 };
    assert_eq!(
        ProtectionBits::from_entry(entry),
        Err(RiscvPagingError::ReadReservedProtection(0b0100))
    );
    // write-execute is reserved as well
    let entry = PageTableEntry { bits: 0b1100 | 1 };
    assert_eq!(
        ProtectionBits::from_entry(entry),
        Err(RiscvPagingError::ReadReservedProtection(0b1100))
    );
    // an invalid entry is refused before its protection field is read
    let entry = PageTableEntry { bits: 0b0110 };
    assert_eq!(ProtectionBits::from_entry(entry), Err(RiscvPagingError::ReadInvalidPage));
}

#[test]
fn protection_bits_decode_roundtrip() {
    for p in [
        ProtectionBits::Read,
        ProtectionBits::ReadWrite,
        ProtectionBits::Execute,
        ProtectionBits::ReadExecute,
        ProtectionBits::ReadWriteExecute,
    ] {
        let entry = PageTableEntry { bits: p.bits() | 1 };
        assert_eq!(ProtectionBits::from_entry(entry), Ok(p));
    }
}

#[test]
fn map_then_resolve_both_page_ends() {
    let mut allocator = heap(64);
    let mut table = Sv39::new(&mut allocator).unwrap();
    let vpn: u64 = 0x12345;
    let ppn: u64 = 0x678;
    table.create_mapping(&mut allocator, vpn, ppn, ProtectionBits::ReadWrite).unwrap();
    let low = table.find_map(VirtualAddr(vpn * 4096)).unwrap();
    assert_eq!(low.0, ppn * 4096);
    let high = table.find_map(VirtualAddr(vpn * 4096 + 4095)).unwrap();
    assert_eq!(high.0, ppn * 4096 + 4095);
}

#[test]
fn resolving_unmapped_page_fails() {
    let mut allocator = heap(64);
    let mut table = Sv39::new(&mut allocator).unwrap();
    assert_eq!(
        table.find_map(VirtualAddr(0x4000)),
        Err(RiscvPagingError::WalkingHitInvalidPage)
    );
    table.create_mapping(&mut allocator, 1, 2, ProtectionBits::Read).unwrap();
    // a neighbouring page in the same bottom-level table is still unmapped
    assert_eq!(
        table.find_map(VirtualAddr(2 * 4096)),
        Err(RiscvPagingError::WalkingHitInvalidPage)
    );
}

#[test]
fn conflicting_mapping_reports_both_frames_and_changes_nothing() {
    let mut allocator = heap(64);
    let mut table = Sv39::new(&mut allocator).unwrap();
    let vpn: u64 = 0x00c0de;
    table.create_mapping(&mut allocator, vpn, 0x1111, ProtectionBits::Read).unwrap();
    let r = table.create_mapping(&mut allocator, vpn, 0x2222, ProtectionBits::Read);
    assert_eq!(
        r,
        Err(RiscvPagingError::AlreadyMapped {
            attempted_ppn: 0x2222,
            already_there_ppn: 0x1111,
            vpn,
        })
    );
    // the existing mapping is untouched
    let got = table.find_map(VirtualAddr(vpn * 4096)).unwrap();
    assert_eq!(got.0, 0x1111 * 4096);
}

#[test]
fn identical_remapping_is_a_noop_success() {
    let mut allocator = heap(64);
    let mut table = Sv39::new(&mut allocator).unwrap();
    let vpn: u64 = 0x00c0de;
    table.create_mapping(&mut allocator, vpn, 0x1111, ProtectionBits::Read).unwrap();
    let r = table.create_mapping(&mut allocator, vpn, 0x1111, ProtectionBits::Read);
    assert_eq!(r, Ok(()));
    let got = table.find_map(VirtualAddr(vpn * 4096)).unwrap();
    assert_eq!(got.0, 0x1111 * 4096);
}

#[test]
fn satp_value_carries_mode_and_root() {
    let mut allocator = heap(64);
    let table = Sv39::new(&mut allocator).unwrap();
    let satp = table.satp_value();
    assert_eq!(satp >> 60, 8);
    assert_eq!(satp & 0xfff_ffff_ffff, (HEAP_START as u64 + 4096) / 4096);
}

#[test]
fn identity_map_region_resolves_identically() {
    let mut allocator = heap(128);
    let mut table = Sv39::new(&mut allocator).unwrap();
    identity_map_region(
        &mut allocator,
        &mut table,
        0x8000_0000,
        0x8000_4000,
        ProtectionBits::Execute,
    )
    .unwrap();
    for page in (0x8000_0000u64 / 4096)..(0x8000_4000u64 / 4096) {
        let pa = table.find_map(VirtualAddr(page * 4096)).unwrap();
        assert_eq!(pa.0, page * 4096);
    }
}

#[test]
fn identity_setup_covers_regions_and_devices() {
    let mut allocator = heap(512);
    let mut table = Sv39::new(&mut allocator).unwrap();
    let regions = vec![
        MemoryRegion { start: 0x8000_0000, end: 0x8000_4000, protection: ProtectionBits::Execute },
        MemoryRegion { start: 0x8000_4000, end: 0x8000_6000, protection: ProtectionBits::Read },
        MemoryRegion {
            start: 0x8000_6000,
            end: 0x8001_0000,
            protection: ProtectionBits::ReadWrite,
        },
    ];
    let devices = vec![0x1000_0000u64, 0x10_0000];
    sv39_setup_identity_mapping(&mut allocator, &mut table, &regions, &devices).unwrap();

    // the one-time startup safety net agrees
    let checked: Vec<(u64, u64)> = regions.iter().map(|r| (r.start, r.end)).collect();
    assert!(assert_identity_map(&table, &checked));

    for device in devices {
        let pa = table.find_map(VirtualAddr(device)).unwrap();
        assert_eq!(pa.0, device);
    }
}

#[test]
fn assert_identity_map_detects_a_missing_page() {
    let mut allocator = heap(128);
    let mut table = Sv39::new(&mut allocator).unwrap();
    identity_map_region(&mut allocator, &mut table, 0x8000_0000, 0x8000_2000, ProtectionBits::Read)
        .unwrap();
    // the checked range reaches one page past what was mapped
    assert!(!assert_identity_map(&table, &vec![(0x8000_0000u64, 0x8000_3000u64)]));
}

#[test]
fn assert_identity_map_detects_a_non_identity_mapping() {
    let mut allocator = heap(128);
    let mut table = Sv39::new(&mut allocator).unwrap();
    let page: u64 = 0x8000_0000 / 4096;
    table.create_mapping(&mut allocator, page, page + 1, ProtectionBits::Read).unwrap();
    assert!(!assert_identity_map(&table, &vec![(0x8000_0000u64, 0x8000_1000u64)]));
}
