use lilith::boot_alloc::{BootAlloc, BootRegions, MaxFree, Span, SpanType};
use lilith::multiboot::MultibootMmapEntry;

fn spans(b: &BootAlloc) -> Vec<(u64, u64, SpanType)> {
    b.tree().iter().map(|s| (s.start, s.end, s.span_type)).collect()
}

fn free_map(mem: &[(u64, u64)]) -> BootAlloc {
    let mut b = BootAlloc::new();
    for &(start, len) in mem {
        b.update(start, len, |s: Option<SpanType>| s.unwrap_or(SpanType::Free));
    }
    b
}

#[test]
fn span_type_predicates() {
    assert!(!SpanType::Reserved.needs_frameinfo());
    assert!(SpanType::InUse.needs_frameinfo());
    assert!(SpanType::Reclaimable.needs_frameinfo());
    assert!(SpanType::Free.needs_frameinfo());
    assert!(!SpanType::Reserved.is_usable());
    assert!(!SpanType::InUse.is_usable());
    assert!(SpanType::Reclaimable.is_usable());
    assert!(SpanType::Free.is_usable());
}

#[test]
fn update_fills_gaps_and_splits_spans() {
    let mut b = free_map(&[(0x1000, 0x4000)]);
    assert_eq!(spans(&b), vec![(0x1000, 0x5000, SpanType::Free)]);
    b.mark_reserved(0x2000, 0x1000);
    assert_eq!(
        spans(&b),
        vec![
            (0x1000, 0x2000, SpanType::Free),
            (0x2000, 0x3000, SpanType::Reserved),
            (0x3000, 0x5000, SpanType::Free),
        ]
    );
    // a range reaching past the map gets a new span for the gap
    b.mark_used(0x4000, 0x2000);
    assert_eq!(
        spans(&b),
        vec![
            (0x1000, 0x2000, SpanType::Free),
            (0x2000, 0x3000, SpanType::Reserved),
            (0x3000, 0x4000, SpanType::Free),
            (0x4000, 0x5000, SpanType::InUse),
            (0x5000, 0x6000, SpanType::InUse),
        ]
    );
}

#[test]
fn mark_used_and_reclaimable_keep_reserved_memory() {
    let mut b = free_map(&[(0, 0x3000)]);
    b.mark_reserved(0, 0x1000);
    b.mark_used(0, 0x2000);
    b.mark_reclaimable(0x1000, 0x2000);
    assert_eq!(
        spans(&b),
        vec![
            (0, 0x1000, SpanType::Reserved),
            (0x1000, 0x2000, SpanType::Reclaimable),
            (0x2000, 0x3000, SpanType::Reclaimable),
        ]
    );
}

#[test]
fn compact_merges_touching_spans_of_one_type() {
    let mut b = free_map(&[(0, 0x3000)]);
    b.mark_reserved(0, 0x1000);
    b.mark_used(0, 0x2000);
    b.mark_reclaimable(0x1000, 0x2000);
    b.compact();
    assert_eq!(
        spans(&b),
        vec![(0, 0x1000, SpanType::Reserved), (0x1000, 0x3000, SpanType::Reclaimable)]
    );
    // merging twice changes nothing more
    b.compact();
    assert_eq!(spans(&b).len(), 2);
}

#[test]
fn allocate_takes_the_lowest_fitting_free_pages() {
    let mut b = free_map(&[(0x1800, 0x800), (0x10000, 0x10000)]);
    // the first free span holds no whole aligned page
    let a = b.allocate(100, 8).unwrap();
    assert_eq!(a, 0x10000);
    assert_eq!(
        spans(&b),
        vec![
            (0x1800, 0x2000, SpanType::Free),
            (0x10000, 0x11000, SpanType::InUse),
            (0x11000, 0x20000, SpanType::Free),
        ]
    );
    let c = b.allocate(0x2000, 0x2000).unwrap();
    assert_eq!(c, 0x12000);
}

#[test]
fn allocate_fails_without_room() {
    let mut b = free_map(&[(0, 0x1000)]);
    assert!(b.allocate(0x2000, 4096).is_none());
    assert_eq!(spans(&b), vec![(0, 0x1000, SpanType::Free)]);
    assert_eq!(b.allocate(4096, 4096), Some(0));
    assert!(b.allocate(1, 1).is_none());
}

#[test]
fn reclaimable_ranges_merge_touching_usable_spans_and_align_to_pages() {
    let mut b = free_map(&[(0x800, 0x3800)]);
    b.mark_reclaimable(0x2000, 0x1000);
    b.mark_used(0x3000, 0x1000);
    b.mark_reclaimable(0x5000, 0x1800);
    // usable: [0x800, 0x3000) in two touching spans, [0x5000, 0x6800)
    assert_eq!(b.reclaimable_ranges(), vec![(0x1000, 0x3000), (0x5000, 0x6000)]);
}

#[test]
fn claim_free_ranges_takes_whole_pages() {
    let mut b = free_map(&[(0x800, 0x2000)]);
    b.mark_reserved(0x4000, 0x1000);
    let claimed = b.claim_free_ranges();
    assert_eq!(claimed, vec![(0x1000, 0x2000)]);
    assert_eq!(
        spans(&b),
        vec![
            (0x800, 0x1000, SpanType::Free),
            (0x1000, 0x2000, SpanType::InUse),
            (0x2000, 0x2800, SpanType::Free),
            (0x4000, 0x5000, SpanType::Reserved),
        ]
    );
}

#[test]
fn max_free_is_the_longest_free_length() {
    let free = Span { start: 0x1000, end: 0x4000, span_type: SpanType::Free };
    assert_eq!(MaxFree::augment(&free, &None, &None).0, 0x3000);
    assert_eq!(MaxFree::augment(&free, &Some(MaxFree(0x5000)), &Some(MaxFree(1))).0, 0x5000);
    let used = Span { start: 0, end: 0x9000, span_type: SpanType::InUse };
    assert_eq!(MaxFree::augment(&used, &Some(MaxFree(7)), &None).0, 7);
}

#[test]
fn reclaimable_range_iter_walks_the_same_ranges() {
    let mut b = free_map(&[(0x800, 0x3800)]);
    b.mark_reclaimable(0x2000, 0x1000);
    b.mark_used(0x3000, 0x1000);
    b.mark_reclaimable(0x5000, 0x1800);
    b.mark_reclaimable(0x8100, 0x100);
    let mut it = b.reclaimable_range_iter();
    assert_eq!(it.next(), Some((0x1000, 0x3000)));
    assert_eq!(it.next(), Some((0x5000, 0x6000)));
    // the last run holds no whole page
    assert_eq!(it.next(), None);
    assert_eq!(it.next(), None);
}

fn mmap_entry(addr: u64, len: u64, mem_type: u32) -> MultibootMmapEntry {
    MultibootMmapEntry { entry_size: 20, addr, len, mem_type }
}

#[test]
fn boot_memory_map_from_the_loader_map_and_the_kernel() {
    let entries = vec![
        mmap_entry(0, 0x9fc00, 1),
        mmap_entry(0x9fc00, 0x400, 2),
        mmap_entry(0x100000, 0x700000, 1),
        // a usable entry over memory an earlier entry typed keeps that type
        mmap_entry(0x9fc00, 0x400, 1),
    ];
    let regions = BootRegions {
        kernel: (0x100000, 0x200000),
        info: (0x9000, 0x100),
        mmap: (0x9100, 0x60),
        reclaimable: (0x280000, 0x80000),
    };
    let b = BootAlloc::from_memory_map(&entries, regions);
    let type_at = |a: u64| spans(&b).into_iter().find(|&(s, e, _)| s <= a && a < e).map(|(_, _, t)| t);
    assert_eq!(type_at(0), Some(SpanType::Reserved));
    assert_eq!(type_at(0xfff), Some(SpanType::Reserved));
    assert_eq!(type_at(0x1000), Some(SpanType::Free));
    assert_eq!(type_at(0x9000), Some(SpanType::Reclaimable));
    assert_eq!(type_at(0x915f), Some(SpanType::Reclaimable));
    assert_eq!(type_at(0x9160), Some(SpanType::Free));
    assert_eq!(type_at(0x9fc00), Some(SpanType::Reserved));
    assert_eq!(type_at(0x9ffff), Some(SpanType::Reserved));
    assert_eq!(type_at(0xa0000), None);
    assert_eq!(type_at(0x100000), Some(SpanType::InUse));
    assert_eq!(type_at(0x27ffff), Some(SpanType::InUse));
    assert_eq!(type_at(0x280000), Some(SpanType::Reclaimable));
    assert_eq!(type_at(0x300000), Some(SpanType::Free));
    assert_eq!(type_at(0x7fffff), Some(SpanType::Free));
    assert_eq!(type_at(0x800000), None);
}

#[test]
fn reclaimable_ranges_are_whole_ascending_usable_pages_holding_every_usable_page() {
    let mut rng = fastrand::Rng::with_seed(7);
    for _ in 0..50 {
        let mut b = free_map(&[(0, 0x40000)]);
        for _ in 0..8 {
            let start = rng.u64(0..0x40) * 0x800;
            let len = rng.u64(1..0x10) * 0x400;
            match rng.u32(0..3) {
                0 => b.mark_reserved(start, len),
                1 => b.mark_used(start, len),
                _ => b.mark_reclaimable(start, len),
            }
        }
        let usable = |a: u64| {
            spans(&b).iter().any(|&(s, e, t)| s <= a && a < e && (t == SpanType::Free || t == SpanType::Reclaimable))
        };
        let ranges = b.reclaimable_ranges();
        for (k, &(lo, hi)) in ranges.iter().enumerate() {
            assert!(lo % 4096 == 0 && hi % 4096 == 0 && lo < hi);
            if k > 0 {
                assert!(ranges[k - 1].1 < lo);
            }
            for a in (lo..hi).step_by(0x400) {
                assert!(usable(a));
            }
        }
        for p in (0..0x40000u64).step_by(4096) {
            let whole = (p..p + 4096).step_by(0x400).all(|a| usable(a));
            if whole {
                assert!(ranges.iter().any(|&(lo, hi)| lo <= p && p + 4096 <= hi));
            }
        }
    }
}
