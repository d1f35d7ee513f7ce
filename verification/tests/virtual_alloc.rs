use lilith::memory::MemoryError;
use lilith::virtual_alloc::{
    AllocSettings, MaxGap, Span, SpanAlloc, SpanError, VirtualAllocator, VIRTUAL_ALLOCATOR_END,
    VIRTUAL_ALLOCATOR_START,
};

#[test]
fn span_alloc_hands_out_lowest_gaps() {
    let mut a: SpanAlloc<u32> = SpanAlloc::new(1000, 2000);
    assert_eq!(a.allocate(100, 1).ok(), Some((1000, 1100)));
    assert_eq!(a.allocate(50, 2).ok(), Some((1100, 1150)));
    let ((s, e), v) = a.free(1000);
    assert_eq!((s, e, v), (1000, 1100, 1));
    // the freed gap is the lowest one that holds 60 addresses
    assert_eq!(a.allocate(60, 3).ok(), Some((1000, 1060)));
    // a request larger than the gap below goes above
    assert_eq!(a.allocate(50, 4).ok(), Some((1150, 1200)));
    assert_eq!(a.allocate(40, 5).ok(), Some((1060, 1100)));
}

#[test]
fn span_alloc_reports_exhaustion() {
    let mut a: SpanAlloc<()> = SpanAlloc::new(0, 100);
    assert!(a.allocate(60, ()).is_ok());
    match a.allocate(60, ()) {
        Err(SpanError::Exhausted) => {}
        _ => panic!("expected exhaustion"),
    }
    assert_eq!(a.allocate(40, ()).ok(), Some((60, 100)));
}

#[test]
fn span_containing_finds_the_value() {
    let mut a: SpanAlloc<&str> = SpanAlloc::new(0, 1000);
    a.allocate(10, "x").unwrap();
    a.allocate(10, "y").unwrap();
    assert_eq!(a.span_containing(0), Some(&"x"));
    assert_eq!(a.span_containing(9), Some(&"x"));
    assert_eq!(a.span_containing(10), Some(&"y"));
    assert_eq!(a.span_containing(20), None);
}

#[test]
fn test_span_alloc() {
    let mut rng = fastrand::Rng::with_seed(42);
    let range = 1000000u64..2000000u64;
    for _ in 0..10 {
        let mut valloc = SpanAlloc::<()>::new(range.start, range.end);
        let mut allocations: Vec<(u64, u64)> = Vec::new();
        for _ in 0..1000 {
            if allocations.is_empty() || rng.u32(0..2) == 0 {
                let size = rng.u64(1..=100);
                let addr = valloc.allocate(size, ()).ok().expect("alloc failed");
                assert_eq!(addr.1 - addr.0, size);
                allocations.push(addr);
            } else {
                let i = rng.usize(0..allocations.len());
                let v = allocations.swap_remove(i);
                let ((s, e), ()) = valloc.free(v.0);
                assert_eq!((s, e), v);
            }
            assert!(valloc.check());
            let mut right_bound = range.start;
            for span in valloc.spans().iter() {
                assert!(span.start >= right_bound);
                right_bound = span.end;
            }
            assert!(right_bound <= range.end);
            assert_eq!(valloc.spans().len(), allocations.len());
        }
    }
}

#[test]
fn max_gap_summarises_a_subtree() {
    let node = Span { start: 100, end: 200, value: () };
    let left = MaxGap { min_addr: 10, max_addr: 40, max_gap: 5 };
    let right = MaxGap { min_addr: 300, max_addr: 400, max_gap: 7 };
    let m = MaxGap::augment(&node, &Some(left), &Some(right));
    assert_eq!(m, MaxGap { min_addr: 10, max_addr: 400, max_gap: 100 });
    let alone = MaxGap::augment(&node, &None, &None);
    assert_eq!(alone, MaxGap { min_addr: 100, max_addr: 200, max_gap: 0 });
}

#[test]
fn virtual_allocator_rounds_guards_and_size_to_frames() {
    let mut va = VirtualAllocator::new();
    let settings = AllocSettings { guard_bottom: 4096, guard_top: 4096 };
    let (start, end) = va.allocate(5000, 8, settings).unwrap();
    assert_eq!(start, VIRTUAL_ALLOCATOR_START + 4096);
    assert_eq!(end, VIRTUAL_ALLOCATOR_START + 4096 + 8192);
    // the next allocation starts after the top guard
    let (s2, _) = va.allocate(1, 1, AllocSettings::default()).unwrap();
    assert_eq!(s2, VIRTUAL_ALLOCATOR_START + 4096 + 8192 + 4096);
    assert_eq!(va.free(start), (start, end));
    assert_eq!(va.free(s2), (s2, s2 + 4096));
}

#[test]
fn virtual_allocator_abandon_gives_the_space_back() {
    let mut va = VirtualAllocator::new();
    let (start, _) = va.allocate(4096, 4096, AllocSettings::default()).unwrap();
    va.abandon(start);
    let (again, _) = va.allocate(4096, 4096, AllocSettings::default()).unwrap();
    assert_eq!(again, start);
}

#[test]
fn virtual_allocator_runs_out_of_address_space() {
    let mut va = VirtualAllocator::new();
    let area = (VIRTUAL_ALLOCATOR_END - VIRTUAL_ALLOCATOR_START) as usize;
    va.allocate(area - 4096, 4096, AllocSettings::default()).unwrap();
    assert_eq!(va.allocate(8192, 4096, AllocSettings::default()), Err(MemoryError::OutOfVirtual));
    assert!(va.allocate(4096, 4096, AllocSettings::default()).is_ok());
}

#[test]
fn span_alloc_refuses_more_than_its_range_when_empty() {
    let mut a: SpanAlloc<u32> = SpanAlloc::new(1000, 2000);
    assert!(matches!(a.allocate(1001, 1), Err(SpanError::Exhausted)));
    assert_eq!(a.allocate(1000, 2).ok(), Some((1000, 2000)));
}

#[test]
fn virtual_allocator_refuses_more_than_its_area() {
    let mut va = VirtualAllocator::new();
    let area = (VIRTUAL_ALLOCATOR_END - VIRTUAL_ALLOCATOR_START) as usize;
    assert_eq!(va.allocate(area + 4096, 4096, AllocSettings::default()), Err(MemoryError::OutOfVirtual));
    assert_eq!(va.allocate(area, 4096, AllocSettings::default()), Ok((VIRTUAL_ALLOCATOR_START, VIRTUAL_ALLOCATOR_END)));
}

#[test]
fn virtual_allocation_starts_the_unrounded_bottom_guard_into_its_span() {
    let mut va = VirtualAllocator::new();
    let settings = AllocSettings { guard_bottom: 100, guard_top: 0 };
    let (start, end) = va.allocate(10, 8, settings).unwrap();
    // the span covers one frame of guard and one of data
    assert_eq!((start, end), (VIRTUAL_ALLOCATOR_START + 100, VIRTUAL_ALLOCATOR_START + 8192));
    let (next, _) = va.allocate(1, 1, AllocSettings::default()).unwrap();
    assert_eq!(next, VIRTUAL_ALLOCATOR_START + 8192);
}

#[test]
fn a_virtual_range_is_backed_page_by_page_with_kernel_flags() {
    let flags = lilith::address_space::KERNEL_PAGE_FLAGS;
    assert_eq!(flags, 0x103);
    let pages = lilith::virtual_alloc::backing_pages(VIRTUAL_ALLOCATOR_START, VIRTUAL_ALLOCATOR_START + 0x3000);
    let starts: Vec<u64> = pages.iter().map(|p| p.page).collect();
    assert_eq!(starts, vec![VIRTUAL_ALLOCATOR_START, VIRTUAL_ALLOCATOR_START + 0x1000, VIRTUAL_ALLOCATOR_START + 0x2000]);
    assert!(pages.iter().all(|p| p.flags == flags));
    // a range that starts inside a page is backed from where it starts
    let odd = lilith::virtual_alloc::backing_pages(0x1100, 0x3000);
    assert_eq!(odd.iter().map(|p| p.page).collect::<Vec<u64>>(), vec![0x1100, 0x2100]);
    assert!(lilith::virtual_alloc::backing_pages(0x5000, 0x5000).is_empty());
}
