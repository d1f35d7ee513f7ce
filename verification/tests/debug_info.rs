use arrayvec::ArrayVec;
use lilith::debug_info::{canonicalize, empty_regions, record_page, regions_len, try_record_page, MapRegion, MAX_REGIONS};

#[test]
fn canonical_addresses() {
    assert_eq!(canonicalize(0x0000_8000_0000_0000), 0xFFFF_8000_0000_0000);
    assert_eq!(canonicalize(0x0000_FFFF_FFFF_F000), 0xFFFF_FFFF_FFFF_F000);
    assert_eq!(canonicalize(0x0000_7FFF_FFFF_F000), 0x0000_7FFF_FFFF_F000);
    assert_eq!(canonicalize(0x1234), 0x1234);
    assert_eq!(canonicalize(0), 0);
}

#[test]
fn contiguous_pages_make_one_region() {
    let mut regions: ArrayVec<MapRegion, 512> = ArrayVec::new();
    record_page(&mut regions, 0x1000, 0x20_0000, 0x1000, 3);
    record_page(&mut regions, 0x2000, 0x20_1000, 0x1000, 3);
    record_page(&mut regions, 0x3000, 0x20_2000, 0x20_0000, 3);
    assert_eq!(regions.as_slice(), &[MapRegion { virt_start: 0x1000, phys_start: 0x20_0000, size: 0x20_2000, flags: 3 }]);
}

#[test]
fn a_gap_other_memory_or_other_flags_start_a_new_region() {
    let mut regions: ArrayVec<MapRegion, 512> = ArrayVec::new();
    record_page(&mut regions, 0x1000, 0x5000, 0x1000, 3);
    // a virtual gap
    record_page(&mut regions, 0x3000, 0x6000, 0x1000, 3);
    // physically elsewhere
    record_page(&mut regions, 0x4000, 0x9000, 0x1000, 3);
    // other flags
    record_page(&mut regions, 0x5000, 0xa000, 0x1000, 1);
    assert_eq!(
        regions.as_slice(),
        &[
            MapRegion { virt_start: 0x1000, phys_start: 0x5000, size: 0x1000, flags: 3 },
            MapRegion { virt_start: 0x3000, phys_start: 0x6000, size: 0x1000, flags: 3 },
            MapRegion { virt_start: 0x4000, phys_start: 0x9000, size: 0x1000, flags: 3 },
            MapRegion { virt_start: 0x5000, phys_start: 0xa000, size: 0x1000, flags: 1 },
        ]
    );
}

#[test]
fn a_region_ending_at_the_top_of_memory_is_not_continued() {
    let mut regions: ArrayVec<MapRegion, 512> = ArrayVec::new();
    record_page(&mut regions, 0xFFFF_FFFF_FFFF_F000, 0x1000, 0x1000, 3);
    record_page(&mut regions, 0, 0x2000, 0x1000, 3);
    assert_eq!(regions.len(), 2);
    assert_eq!(regions[1], MapRegion { virt_start: 0, phys_start: 0x2000, size: 0x1000, flags: 3 });
}

#[test]
fn a_map_holds_up_to_its_capacity_of_regions() {
    let mut regions: ArrayVec<MapRegion, 512> = ArrayVec::new();
    for i in 0..MAX_REGIONS as u64 {
        // every other page: no two regions join
        record_page(&mut regions, i * 0x2000, i * 0x2000, 0x1000, 3);
    }
    assert_eq!(regions.len(), MAX_REGIONS);
    // a page that continues the last region still fits
    let last = (MAX_REGIONS as u64 - 1) * 0x2000;
    record_page(&mut regions, last + 0x1000, last + 0x1000, 0x1000, 3);
    assert_eq!(regions.len(), MAX_REGIONS);
    assert_eq!(regions[MAX_REGIONS - 1].size, 0x2000);
}

#[test]
fn try_record_page_refuses_a_region_beyond_the_capacity_or_size() {
    let mut regions = empty_regions();
    assert_eq!(regions_len(&regions), 0);
    for i in 0..MAX_REGIONS as u64 {
        assert!(try_record_page(&mut regions, i * 0x2000, i * 0x2000, 0x1000, 3));
    }
    assert_eq!(regions_len(&regions), MAX_REGIONS);
    // a new region has no room
    assert!(!try_record_page(&mut regions, 0x1_0000_0000, 0, 0x1000, 3));
    assert_eq!(regions_len(&regions), MAX_REGIONS);
    // continuing the last one still fits
    let last = (MAX_REGIONS as u64 - 1) * 0x2000;
    assert!(try_record_page(&mut regions, last + 0x1000, last + 0x1000, 0x1000, 3));
    // but not past u64::MAX bytes
    let mut one = empty_regions();
    assert!(try_record_page(&mut one, 0, 0, u64::MAX - 1, 3));
    assert!(!try_record_page(&mut one, u64::MAX - 1, u64::MAX - 1, 2, 3));
    assert_eq!(one[0].size, u64::MAX - 1);
}
