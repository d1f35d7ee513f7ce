use lilith::buddy::{BuddyAllocator, FrameInfo, MAX_ORDER};
use lilith::memory::FrameType;

const FRAME: u64 = 4096;

fn ty(b: &BuddyAllocator, i: usize) -> FrameType {
    b.frame(i).ty
}

/// A frame's type, with the order where the frame starts a block.
fn head(b: &BuddyAllocator, i: usize) -> (FrameType, Option<u8>) {
    let f = b.frame(i);
    match f.ty {
        FrameType::BuddyTail | FrameType::Reserved => (f.ty, None),
        _ => (f.ty, Some(f.order)),
    }
}

#[test]
fn new_allocator_has_nothing_free() {
    let mut b = BuddyAllocator::new(1024);
    assert_eq!(b.n_frames(), 1024);
    for i in 0..1024 {
        assert_eq!(b.frame(i), FrameInfo { ty: FrameType::Reserved, order: 0 });
    }
    for order in 0..=MAX_ORDER {
        assert_eq!(b.allocate(order), None);
    }
}

#[test]
fn init_cuts_ranges_into_aligned_blocks() {
    let mut b = BuddyAllocator::new(1024);
    b.buddy_init(&vec![(FRAME, 8 * FRAME)]);
    assert_eq!(ty(&b, 0), FrameType::Reserved);
    assert_eq!(b.frame(1), FrameInfo { ty: FrameType::Buddy, order: 0 });
    assert_eq!(b.frame(2), FrameInfo { ty: FrameType::Buddy, order: 1 });
    assert_eq!(ty(&b, 3), FrameType::BuddyTail);
    assert_eq!(b.frame(4), FrameInfo { ty: FrameType::Buddy, order: 2 });
    for i in 5..8 {
        assert_eq!(ty(&b, i), FrameType::BuddyTail);
    }
    for i in 8..1024 {
        assert_eq!(ty(&b, i), FrameType::Reserved);
    }
}

#[test]
fn allocate_splits_and_free_merges() {
    let mut b = BuddyAllocator::new(1024);
    b.buddy_init(&vec![(FRAME, 8 * FRAME)]);
    assert_eq!(b.allocate(0), Some(FRAME));
    // the order 0 list is empty now: the order 1 block at frame 2 is split
    assert_eq!(b.allocate(0), Some(2 * FRAME));
    assert_eq!(b.frame(3), FrameInfo { ty: FrameType::Buddy, order: 0 });
    assert_eq!(b.allocate(2), Some(4 * FRAME));
    assert_eq!(b.frame(4), FrameInfo { ty: FrameType::BuddyAllocated, order: 2 });
    assert_eq!(b.allocate(0), Some(3 * FRAME));
    assert_eq!(b.allocate(0), None);
    assert_eq!(b.allocate(1), None);

    // frame 1's buddy, frame 0, is reserved: no merge
    b.free(FRAME, 0);
    assert_eq!(b.frame(1), FrameInfo { ty: FrameType::Buddy, order: 0 });
    // frame 2's buddy, frame 3, is still allocated: no merge
    b.free(2 * FRAME, 0);
    assert_eq!(b.frame(2), FrameInfo { ty: FrameType::Buddy, order: 0 });
    // frame 3 merges with frame 2 into an order 1 block at frame 2
    b.free(3 * FRAME, 0);
    assert_eq!(b.frame(2), FrameInfo { ty: FrameType::Buddy, order: 1 });
    assert_eq!(ty(&b, 3), FrameType::BuddyTail);
    assert_eq!(b.allocate(1), Some(2 * FRAME));
}

#[test]
fn freeing_everything_merges_back_to_the_largest_blocks() {
    let mut b = BuddyAllocator::new(2048);
    b.buddy_init(&vec![(0, 2048 * FRAME)]);
    assert_eq!(b.frame(0), FrameInfo { ty: FrameType::Buddy, order: 10 });
    assert_eq!(b.frame(1024), FrameInfo { ty: FrameType::Buddy, order: 10 });
    let mut addrs = Vec::new();
    while let Some(a) = b.allocate(0) {
        addrs.push(a);
    }
    assert_eq!(addrs.len(), 2048);
    let mut sorted = addrs.clone();
    sorted.sort();
    sorted.dedup();
    assert_eq!(sorted.len(), 2048);
    for a in &addrs {
        assert_eq!(a % FRAME, 0);
        assert!(*a < 2048 * FRAME);
    }
    for a in addrs {
        b.free(a, 0);
    }
    assert_eq!(b.frame(0), FrameInfo { ty: FrameType::Buddy, order: 10 });
    assert_eq!(b.frame(1024), FrameInfo { ty: FrameType::Buddy, order: 10 });
    assert_eq!(b.allocate(10).map(|a| a % (1024 * FRAME)), Some(0));
}

#[test]
fn allocate_then_free_restores_the_free_frames() {
    let mut b = BuddyAllocator::new(1024);
    b.buddy_init(&vec![(0, 16 * FRAME), (64 * FRAME, 80 * FRAME)]);
    let before: Vec<(FrameType, Option<u8>)> = (0..1024).map(|i| head(&b, i)).collect();
    let a = b.allocate(3).unwrap();
    assert_eq!(a, 0);
    assert_eq!(b.frame(8), FrameInfo { ty: FrameType::Buddy, order: 3 });
    b.free(a, 3);
    let after: Vec<(FrameType, Option<u8>)> = (0..1024).map(|i| head(&b, i)).collect();
    assert_eq!(before, after);
}

#[test]
fn two_free_frames_merge_into_one_block() {
    let mut b = BuddyAllocator::new(1024);
    b.buddy_init(&vec![(0, 2 * FRAME)]);
    let a = b.allocate(0).unwrap();
    assert_eq!(a, 0);
    b.free(a, 0);
    assert_eq!(b.frame(0), FrameInfo { ty: FrameType::Buddy, order: 1 });
}

#[test]
fn init_cuts_each_range_into_aligned_blocks_inside_it() {
    let mut b = BuddyAllocator::new(1024);
    let ranges = vec![(3 * FRAME, 21 * FRAME), (100 * FRAME, 356 * FRAME)];
    b.buddy_init(&ranges);
    // walk every block head: each lies inside one range and starts on a multiple of its length
    let mut covered = 0;
    let mut i = 0;
    while i < 1024 {
        let f = b.frame(i);
        if f.ty == FrameType::Buddy {
            let len = 1usize << f.order;
            assert_eq!(i % len, 0);
            let (s, e) = (i as u64 * FRAME, (i + len) as u64 * FRAME);
            assert!(ranges.iter().any(|&(a, z)| a <= s && e <= z));
            covered += len;
            i += len;
        } else {
            i += 1;
        }
    }
    assert_eq!(covered, 18 + 256);
}
