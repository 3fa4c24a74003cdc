use boot_memory_map::descriptor::RegionDescriptor;
use boot_memory_map::order::may_precede;
use boot_memory_map::region_map::MemoryMap;
use uefi::mem::memory_map::{MemoryAttribute, MemoryDescriptor, MemoryType};

fn region(start: u64, pages: u64) -> RegionDescriptor {
    RegionDescriptor { ty: 7, phys_start: start, virt_start: 0, page_count: pages, att: 0 }
}

fn firmware(d: &RegionDescriptor) -> MemoryDescriptor {
    MemoryDescriptor {
        ty: MemoryType(d.ty),
        padding: 0,
        phys_start: d.phys_start,
        virt_start: d.virt_start,
        page_count: d.page_count,
        att: MemoryAttribute::from_bits_retain(d.att),
    }
}

#[test]
fn default_descriptor_is_all_zero() {
    let d = RegionDescriptor::default();
    assert_eq!(d, RegionDescriptor { ty: 0, phys_start: 0, virt_start: 0, page_count: 0, att: 0 });
    assert_eq!(firmware(&d), MemoryDescriptor::default());
}

#[test]
fn text_is_the_firmware_debug_text() {
    let d = RegionDescriptor {
        ty: 7,
        phys_start: 0x10_0000,
        virt_start: 0,
        page_count: 256,
        att: 0xf,
    };
    let text = d.to_text();
    assert_eq!(text, format!("{:?}", firmware(&d)));
    assert!(text.contains("CONVENTIONAL"));
    assert!(text.contains("page_count: 256"));
    assert_ne!(text, RegionDescriptor::default().to_text());
}

#[test]
fn listing_holds_the_visible_regions_only() {
    let mut map = MemoryMap::new();
    assert!(map.listing().is_empty());
    map.add_region(region(8192, 2));
    map.add_region(region(4096, 0));
    map.add_region(region(0, 4));
    let lines = map.listing();
    assert_eq!(lines.len(), 2);
    assert_eq!(lines[0], format!("{:?}", firmware(&region(0, 4))));
    assert_eq!(lines[1], format!("{:?}", firmware(&region(8192, 2))));
}

#[test]
fn listing_follows_the_stored_order() {
    let mut map = MemoryMap::new();
    map.add_region(region(0, 1));
    map.add_region(region(4096, 1));
    map.as_mut_slice()[0].phys_start = 8192;
    let lines = map.listing();
    let expected: Vec<String> = map.as_slice().iter().map(|d| format!("{:?}", firmware(d))).collect();
    assert_eq!(lines, expected);
    assert_eq!(lines[0], format!("{:?}", firmware(&region(8192, 1))));
}

#[test]
fn real_regions_go_by_start_then_pages() {
    assert!(may_precede(&region(0, 9), &region(4096, 1)));
    assert!(!may_precede(&region(4096, 1), &region(0, 9)));
    assert!(may_precede(&region(4096, 1), &region(4096, 2)));
    assert!(!may_precede(&region(4096, 2), &region(4096, 1)));
    assert!(may_precede(&region(4096, 2), &region(4096, 2)));
}

#[test]
fn unused_slots_go_last() {
    assert!(may_precede(&region(u64::MAX, u64::MAX), &region(0, 0)));
    assert!(!may_precede(&region(0, 0), &region(u64::MAX, u64::MAX)));
    assert!(may_precede(&region(0, 0), &region(4096, 0)));
    assert!(may_precede(&region(4096, 0), &region(0, 0)));
}
