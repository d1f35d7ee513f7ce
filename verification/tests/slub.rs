use lilith::buddy::BuddyAllocator;
use lilith::memory::{FrameType, PHYSICAL_MEMORY_OFFSET};
use lilith::slub::SlubAllocator;

const FRAME: u64 = 4096;

fn setup(first: u64, end: u64) -> (SlubAllocator, BuddyAllocator) {
    let mut buddy = BuddyAllocator::new(1024);
    buddy.buddy_init(&vec![(first * FRAME, end * FRAME)]);
    let slub = SlubAllocator::new(&buddy);
    (slub, buddy)
}

#[test]
fn objects_come_from_a_new_slab_in_address_order() {
    let (mut slub, mut buddy) = setup(1, 3);
    let base = PHYSICAL_MEMORY_OFFSET + FRAME;
    assert_eq!(slub.allocate(&mut buddy, 8), Some(base));
    assert_eq!(slub.allocate(&mut buddy, 5), Some(base + 8));
    assert_eq!(buddy.frame(1).ty, FrameType::Slab);
    assert_eq!(slub.slab(1).free_count, 510);
    assert_eq!(slub.slab(1).cache_index, 0);
    assert_eq!(slub.listed_slabs(0), &vec![1]);
    // another size class takes a slab of its own
    assert_eq!(slub.allocate(&mut buddy, 9), Some(PHYSICAL_MEMORY_OFFSET + 2 * FRAME));
    assert_eq!(slub.slab(2).cache_index, 1);
    assert_eq!(slub.slab(2).free_count, 255);
}

#[test]
fn sizes_above_the_largest_class_are_refused() {
    let (mut slub, mut buddy) = setup(1, 3);
    assert_eq!(slub.allocate(&mut buddy, 1025), None);
    assert_eq!(slub.allocate(&mut buddy, 1024), Some(PHYSICAL_MEMORY_OFFSET + FRAME));
    assert_eq!(slub.slab(1).cache_index, 7);
    assert_eq!(slub.slab(1).free_count, 3);
}

#[test]
fn a_full_slab_leaves_its_list_and_no_frame_is_left() {
    let (mut slub, mut buddy) = setup(1, 2);
    for i in 0..4 {
        assert_eq!(slub.allocate(&mut buddy, 1000), Some(PHYSICAL_MEMORY_OFFSET + FRAME + i * 1024));
    }
    assert_eq!(slub.slab(1).free_count, 0);
    assert!(slub.listed_slabs(7).is_empty());
    assert_eq!(slub.allocate(&mut buddy, 1000), None);
    assert_eq!(slub.allocate(&mut buddy, 8), None);
}

#[test]
fn a_freed_object_is_handed_out_next() {
    let (mut slub, mut buddy) = setup(1, 2);
    let objs: Vec<u64> = (0..4).map(|_| slub.allocate(&mut buddy, 512 + 1).unwrap()).collect();
    slub.free(&mut buddy, objs[2]);
    assert_eq!(slub.listed_slabs(7), &vec![1]);
    assert_eq!(slub.slab(1).free_count, 1);
    assert_eq!(slub.allocate(&mut buddy, 700), Some(objs[2]));
}

#[test]
fn an_empty_slab_goes_back_to_the_page_allocator() {
    let (mut slub, mut buddy) = setup(1, 2);
    let a = slub.allocate(&mut buddy, 64).unwrap();
    let b = slub.allocate(&mut buddy, 64).unwrap();
    assert_eq!(buddy.frame(1).ty, FrameType::Slab);
    slub.free(&mut buddy, a);
    assert_eq!(buddy.frame(1).ty, FrameType::Slab);
    slub.free(&mut buddy, b);
    assert_eq!(buddy.frame(1).ty, FrameType::Buddy);
    assert!(slub.listed_slabs(3).is_empty());
    // the frame can be handed out again
    assert_eq!(buddy.allocate(0), Some(FRAME));
}
