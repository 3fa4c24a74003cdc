use boot_memory_map::descriptor::RegionDescriptor;
use boot_memory_map::region_map::{MemoryMap, CAPACITY};

fn region(start: u64, pages: u64) -> RegionDescriptor {
    RegionDescriptor { ty: 7, phys_start: start, virt_start: 0, page_count: pages, att: 0 }
}

fn keys(map: &MemoryMap) -> Vec<(u64, u64)> {
    map.as_slice().iter().map(|d| (d.phys_start, d.page_count)).collect()
}

#[test]
fn new_map_is_empty() {
    let map = MemoryMap::new();
    assert_eq!(map.len(), 0);
    assert!(map.as_slice().is_empty());
    assert!(!map.is_full());
    for slot in map.raw_entries().iter() {
        assert_eq!(*slot, RegionDescriptor::default());
    }
}

#[test]
fn zero_page_region_sorts_to_the_tail() {
    let mut map = MemoryMap::new();
    map.add_region(region(0, 1));
    map.add_region(region(4096, 0));
    assert_eq!(keys(&map), vec![(0, 1)]);
    let stored = map.raw_entries().iter().position(|d| *d == region(4096, 0));
    assert!(stored.is_some_and(|at| at >= map.len()));
    map.add_region(region(2048, 1));
    assert_eq!(keys(&map), vec![(0, 1), (2048, 1)]);
    assert_eq!(map.len(), 2);
    assert!(map.raw_entries()[2..].iter().all(|d| d.page_count == 0));
}

#[test]
fn equal_starts_go_by_page_count() {
    let mut map = MemoryMap::new();
    map.add_region(region(8192, 2));
    map.add_region(region(0, 4));
    map.add_region(region(8192, 1));
    assert_eq!(keys(&map), vec![(0, 4), (8192, 1), (8192, 2)]);
    assert_eq!(map.len(), 3);
}

#[test]
fn sixty_four_regions_fill_the_map() {
    let mut map = MemoryMap::new();
    let mut expected = Vec::new();
    for i in 0..CAPACITY as u64 {
        assert!(!map.is_full());
        map.add_region(region(i * 4096, 1));
        expected.push((i * 4096, 1));
        assert_eq!(map.len() as u64, i + 1);
    }
    assert_eq!(map.len(), 64);
    assert_eq!(keys(&map), expected);
    assert!(map.is_full());
}

#[test]
fn descending_input_comes_out_ascending() {
    let mut map = MemoryMap::new();
    for i in (0..CAPACITY as u64).rev() {
        map.add_region(region(i * 4096, i + 1));
    }
    let expected: Vec<(u64, u64)> = (0..CAPACITY as u64).map(|i| (i * 4096, i + 1)).collect();
    assert_eq!(keys(&map), expected);
    assert!(map.is_full());
}

#[test]
fn zero_page_region_never_becomes_visible() {
    let mut map = MemoryMap::new();
    map.add_region(region(4096, 3));
    map.add_region(region(0, 2));
    let before = keys(&map);
    for start in [0u64, 1, 4096, 5000, u64::MAX] {
        map.add_region(RegionDescriptor {
            ty: 11,
            phys_start: start,
            virt_start: 9,
            page_count: 0,
            att: 0x8000_0000_0000_0000,
        });
        assert_eq!(keys(&map), before);
        assert_eq!(map.len(), 2);
    }
}

#[test]
fn zero_page_appends_never_fill_the_map() {
    let mut map = MemoryMap::new();
    for i in 0..200u64 {
        map.add_region(region(i, 0));
        assert_eq!(map.len(), 0);
        assert!(!map.is_full());
    }
}

#[test]
fn sorting_twice_changes_nothing() {
    let mut map = MemoryMap::new();
    map.add_region(region(12288, 1));
    map.add_region(region(0, 8));
    map.add_region(region(4096, 2));
    map.sort();
    let once: Vec<RegionDescriptor> = map.as_slice().to_vec();
    let once_slots = *map.raw_entries();
    map.sort();
    assert_eq!(map.as_slice(), &once[..]);
    assert_eq!(*map.raw_entries(), once_slots);
    assert_eq!(map.len(), 3);
}

#[test]
fn regions_of_one_rank_keep_their_order() {
    let mut map = MemoryMap::new();
    let first = RegionDescriptor { ty: 1, phys_start: 4096, virt_start: 0, page_count: 2, att: 1 };
    let second = RegionDescriptor { ty: 2, phys_start: 4096, virt_start: 0, page_count: 2, att: 2 };
    let third = RegionDescriptor { ty: 3, phys_start: 4096, virt_start: 0, page_count: 2, att: 3 };
    map.add_region(first);
    map.add_region(region(8192, 1));
    map.add_region(second);
    map.add_region(region(0, 1));
    map.add_region(third);
    assert_eq!(
        map.as_slice(),
        &[region(0, 1), first, second, third, region(8192, 1)][..]
    );
}

#[test]
fn other_fields_pass_through_unchanged() {
    let mut map = MemoryMap::new();
    let odd = RegionDescriptor {
        ty: 0x8000_0001,
        phys_start: u64::MAX,
        virt_start: 0xdead_beef,
        page_count: u64::MAX,
        att: 0x8000_0000_0000_000f,
    };
    map.add_region(odd);
    map.add_region(region(0, 1));
    assert_eq!(map.as_slice(), &[region(0, 1), odd][..]);
}

#[test]
fn edit_through_the_view_then_sort_closes_the_hole() {
    let mut map = MemoryMap::new();
    map.add_region(region(0, 1));
    map.add_region(region(4096, 1));
    map.add_region(region(8192, 1));
    map.as_mut_slice()[1].page_count = 0;
    assert_eq!(map.len(), 3);
    assert_eq!(keys(&map), vec![(0, 1), (4096, 0), (8192, 1)]);
    map.sort();
    assert_eq!(map.len(), 2);
    assert_eq!(keys(&map), vec![(0, 1), (8192, 1)]);
}

#[test]
fn edit_through_the_view_then_sort_restores_order() {
    let mut map = MemoryMap::new();
    map.add_region(region(0, 1));
    map.add_region(region(4096, 1));
    {
        let view = map.as_mut_slice();
        assert_eq!(view.len(), 2);
        view[0].phys_start = 65536;
        view[1].att = 8;
    }
    map.sort();
    assert_eq!(keys(&map), vec![(4096, 1), (65536, 1)]);
    assert_eq!(map.as_slice()[0].att, 8);
}

#[test]
fn append_after_an_edit_drops_the_hole_too() {
    let mut map = MemoryMap::new();
    map.add_region(region(0, 1));
    map.add_region(region(4096, 1));
    map.as_mut_slice()[0].page_count = 0;
    map.add_region(region(2048, 5));
    assert_eq!(keys(&map), vec![(2048, 5), (4096, 1)]);
}

#[test]
fn raw_parts_round_trip() {
    let mut map = MemoryMap::new();
    map.add_region(region(4096, 1));
    map.add_region(region(0, 1));
    let slots = *map.raw_entries();
    let copy = MemoryMap::from_raw_parts(slots, map.len() as u64).expect("valid parts");
    assert_eq!(copy.as_slice(), map.as_slice());
    assert_eq!(copy.raw_entries(), map.raw_entries());
}

#[test]
fn raw_parts_with_a_count_beyond_capacity_are_refused() {
    let slots = [RegionDescriptor::default(); CAPACITY];
    assert!(MemoryMap::from_raw_parts(slots, 65).is_none());
    assert!(MemoryMap::from_raw_parts(slots, u64::MAX).is_none());
    assert!(MemoryMap::from_raw_parts(slots, 0).is_some());
}

#[test]
fn raw_parts_with_a_region_behind_the_count_are_refused() {
    let mut slots = [RegionDescriptor::default(); CAPACITY];
    slots[0] = region(0, 1);
    slots[63] = region(4096, 1);
    assert!(MemoryMap::from_raw_parts(slots, 1).is_none());
    assert!(MemoryMap::from_raw_parts(slots, 63).is_none());
    let full = [region(0, 1); CAPACITY];
    let map = MemoryMap::from_raw_parts(full, 64).expect("a full map is valid");
    assert!(map.is_full());
    assert_eq!(map.len(), 64);
}

#[test]
fn raw_parts_may_hold_a_hole_until_sorted() {
    let mut slots = [RegionDescriptor::default(); CAPACITY];
    slots[0] = region(8192, 1);
    slots[1] = region(0, 0);
    slots[2] = region(4096, 1);
    let mut map = MemoryMap::from_raw_parts(slots, 3).expect("valid parts");
    assert_eq!(map.len(), 3);
    map.sort();
    assert_eq!(keys(&map), vec![(4096, 1), (8192, 1)]);
}
