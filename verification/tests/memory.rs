use lilith::memory::{
    direct_alloc_plan, flags_with_frame_type, frame_type_from_flags, is_user_address, round_up_size, DirectAlloc,
    FrameType, MemoryError,
};
use lilith::memory::{kernel_alloc, kernel_free, KernelAllocation};
use lilith::util::clog2;
use lilith::virtual_alloc::{VirtualAllocator, VIRTUAL_ALLOCATOR_START};

#[test]
fn clog2_rounds_up() {
    assert_eq!(clog2(1), 0);
    assert_eq!(clog2(2), 1);
    assert_eq!(clog2(3), 2);
    assert_eq!(clog2(4096), 12);
    assert_eq!(clog2(4097), 13);
    assert_eq!(clog2(usize::MAX), usize::BITS as usize);
}

#[test]
fn size_classes() {
    assert_eq!(round_up_size(0), Some((0, 8)));
    assert_eq!(round_up_size(8), Some((0, 8)));
    assert_eq!(round_up_size(9), Some((1, 16)));
    assert_eq!(round_up_size(100), Some((4, 128)));
    assert_eq!(round_up_size(1024), Some((7, 1024)));
    assert_eq!(round_up_size(1025), None);
}

#[test]
fn direct_alloc_plans() {
    assert_eq!(direct_alloc_plan(0, 8), Ok(DirectAlloc::ZeroSized));
    assert_eq!(direct_alloc_plan(100, 8), Ok(DirectAlloc::Slub));
    assert_eq!(direct_alloc_plan(8, 1024), Ok(DirectAlloc::Slub));
    assert_eq!(direct_alloc_plan(8, 2048), Ok(DirectAlloc::Buddy { order: 0 }));
    assert_eq!(direct_alloc_plan(4096, 8), Ok(DirectAlloc::Buddy { order: 0 }));
    assert_eq!(direct_alloc_plan(4097, 8), Ok(DirectAlloc::Buddy { order: 1 }));
    assert_eq!(direct_alloc_plan(4 << 20, 8), Ok(DirectAlloc::Buddy { order: 10 }));
    assert_eq!(direct_alloc_plan((4 << 20) + 1, 8), Err(MemoryError::SizeTooBig));
}

#[test]
fn user_addresses_are_the_lower_half() {
    assert!(is_user_address(0));
    assert!(is_user_address(0x0000_7fff_ffff_ffff));
    assert!(is_user_address(0x0000_ffff_ffff_ffff));
    assert!(!is_user_address(0x0001_0000_0000_0000));
    assert!(!is_user_address(0xffff_8000_0000_0000));
}

#[test]
fn frame_types_round_trip_through_flags() {
    let flags = 0xdead_beef_0000_1200u64;
    for t in [FrameType::Reserved, FrameType::Buddy, FrameType::BuddyTail, FrameType::BuddyAllocated, FrameType::Slab] {
        let f = flags_with_frame_type(flags, t);
        assert_eq!(f & !0xff, flags & !0xff);
        assert_eq!(frame_type_from_flags(f), t);
    }
    assert_eq!(flags_with_frame_type(0xff, FrameType::Slab), 4);
}

fn direct_setup() -> (lilith::slub::SlubAllocator, lilith::buddy::BuddyAllocator) {
    let mut buddy = lilith::buddy::BuddyAllocator::new(2048);
    buddy.buddy_init(&vec![(0, 2048 * 4096)]);
    let slub = lilith::slub::SlubAllocator::new(&buddy);
    (slub, buddy)
}

#[test]
fn direct_alloc_serves_each_size_from_its_allocator() {
    let (mut slub, mut buddy) = direct_setup();
    let off = lilith::memory::PHYSICAL_MEMORY_OFFSET;
    assert_eq!(lilith::memory::direct_alloc(&mut slub, &mut buddy, 0, 8), Ok(lilith::memory::ZST_SENTINEL));
    // a small object: the first frame becomes a slab of the 16-byte class (alignment 16 wins)
    assert_eq!(lilith::memory::direct_alloc(&mut slub, &mut buddy, 10, 16), Ok(off));
    assert_eq!(slub.slab(0).cache_index, 1);
    // two frames: an order 1 block
    let two = lilith::memory::direct_alloc(&mut slub, &mut buddy, 4097, 8).unwrap();
    assert_eq!((two - off) % 8192, 0);
    assert_eq!(buddy.frame(((two - off) / 4096) as usize).order, 1);
    assert_eq!(
        lilith::memory::direct_alloc(&mut slub, &mut buddy, 0x40_0001, 8),
        Err(MemoryError::SizeTooBig)
    );
}

#[test]
fn direct_alloc_runs_out_of_memory() {
    let mut buddy = lilith::buddy::BuddyAllocator::new(1024);
    buddy.buddy_init(&vec![(0, 4096)]);
    let mut slub = lilith::slub::SlubAllocator::new(&buddy);
    assert_eq!(lilith::memory::direct_alloc(&mut slub, &mut buddy, 8192, 8), Err(MemoryError::OutOfMemory));
    assert!(lilith::memory::direct_alloc(&mut slub, &mut buddy, 4096, 8).is_ok());
    assert_eq!(lilith::memory::direct_alloc(&mut slub, &mut buddy, 8, 8), Err(MemoryError::OutOfMemory));
}

#[test]
fn direct_free_gives_back_objects_and_blocks() {
    let (mut slub, mut buddy) = direct_setup();
    let off = lilith::memory::PHYSICAL_MEMORY_OFFSET;
    // the first block starts at physical address 0, whose direct-map address is the
    // zero-size sentinel: giving it back does nothing
    let first = lilith::memory::direct_alloc(&mut slub, &mut buddy, 4096, 8).unwrap();
    assert_eq!(first, lilith::memory::ZST_SENTINEL);
    lilith::memory::direct_free(&mut slub, &mut buddy, first);
    assert_eq!(buddy.frame(0).ty, FrameType::BuddyAllocated);

    let block = lilith::memory::direct_alloc(&mut slub, &mut buddy, 3 * 4096, 4096).unwrap();
    let fr = ((block - off) / 4096) as usize;
    assert_eq!(fr, 4);
    assert_eq!(buddy.frame(fr).ty, FrameType::BuddyAllocated);
    assert_eq!(buddy.frame(fr).order, 2);
    lilith::memory::direct_free(&mut slub, &mut buddy, block);
    assert_eq!(buddy.frame(fr).ty, FrameType::Buddy);
    assert_eq!(buddy.frame(fr).order, 2);

    let a = lilith::memory::direct_alloc(&mut slub, &mut buddy, 100, 8).unwrap();
    let sf = ((a - off) / 4096) as usize;
    assert_eq!(buddy.frame(sf).ty, FrameType::Slab);
    lilith::memory::direct_free(&mut slub, &mut buddy, a);
    assert_ne!(buddy.frame(sf).ty, FrameType::Slab);
}

#[test]
fn direct_map_translation() {
    let off = lilith::memory::PHYSICAL_MEMORY_OFFSET;
    assert_eq!(lilith::memory::phys_to_virt(0x1234), off + 0x1234);
    assert_eq!(lilith::memory::virt_to_phys(off + 0x1234), Some(0x1234));
    assert_eq!(lilith::memory::virt_to_phys(0x1234), None);
    assert_eq!(lilith::memory::virt_to_phys(off + lilith::memory::PHYSICAL_MEMORY_MAX_SIZE), None);
}

#[test]
fn direct_allocations_lie_in_the_direct_map_aligned_as_asked() {
    let (mut slub, mut buddy) = direct_setup();
    let off = lilith::memory::PHYSICAL_MEMORY_OFFSET;
    let end = off + lilith::memory::PHYSICAL_MEMORY_MAX_SIZE;
    // a frame first, so that later blocks do not start at the sentinel address
    lilith::memory::direct_alloc(&mut slub, &mut buddy, 4096, 8).unwrap();
    for (size, align) in [(24usize, 32usize), (3, 1), (100, 256), (1000, 1024), (100, 8192), (5000, 16384)] {
        for _ in 0..3 {
            let p = lilith::memory::direct_alloc(&mut slub, &mut buddy, size, align).unwrap();
            assert!(off <= p && p < end);
            assert_eq!(p % align as u64, 0);
        }
    }
}

#[test]
fn kernel_alloc_serves_directly_and_falls_back_to_the_virtual_area() {
    let (mut slub, mut buddy) = direct_setup();
    let mut va = VirtualAllocator::new();
    let off = lilith::memory::PHYSICAL_MEMORY_OFFSET;
    // small: a slab object
    assert_eq!(kernel_alloc(&mut slub, &mut buddy, &mut va, 10, 16), Ok(KernelAllocation::Direct(off)));
    // larger than the largest block: the virtual area, in whole frames
    let big = 0x40_0001;
    assert_eq!(
        kernel_alloc(&mut slub, &mut buddy, &mut va, big, 8),
        Ok(KernelAllocation::Virtual(VIRTUAL_ALLOCATOR_START, VIRTUAL_ALLOCATOR_START + 0x40_1000))
    );
    assert_eq!(
        kernel_free(&mut slub, &mut buddy, &mut va, VIRTUAL_ALLOCATOR_START),
        Some((VIRTUAL_ALLOCATOR_START, VIRTUAL_ALLOCATOR_START + 0x40_1000))
    );
    // the space is free again
    assert_eq!(
        kernel_alloc(&mut slub, &mut buddy, &mut va, 8192 * 1024, 4096),
        Ok(KernelAllocation::Virtual(VIRTUAL_ALLOCATOR_START, VIRTUAL_ALLOCATOR_START + 8192 * 1024))
    );
    // a direct address goes back to its allocator and is handed out next
    assert_eq!(kernel_alloc(&mut slub, &mut buddy, &mut va, 10, 16), Ok(KernelAllocation::Direct(off + 16)));
    assert_eq!(kernel_alloc(&mut slub, &mut buddy, &mut va, 10, 16), Ok(KernelAllocation::Direct(off + 32)));
    assert_eq!(kernel_free(&mut slub, &mut buddy, &mut va, off + 16), None);
    assert_eq!(kernel_alloc(&mut slub, &mut buddy, &mut va, 10, 16), Ok(KernelAllocation::Direct(off + 16)));
}

#[test]
fn kernel_alloc_falls_back_when_direct_memory_runs_out() {
    let mut buddy = lilith::buddy::BuddyAllocator::new(1024);
    buddy.buddy_init(&vec![(0, 4096)]);
    let mut slub = lilith::slub::SlubAllocator::new(&buddy);
    let mut va = VirtualAllocator::new();
    assert_eq!(
        kernel_alloc(&mut slub, &mut buddy, &mut va, 8192, 8),
        Ok(KernelAllocation::Virtual(VIRTUAL_ALLOCATOR_START, VIRTUAL_ALLOCATOR_START + 8192))
    );
}
