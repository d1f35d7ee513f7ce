use vstd::prelude::*;
use vstd::arithmetic::power2::{is_pow2, pow2};

use crate::buddy::{BuddyAllocator, block_frames};
use crate::slub::{SlubAllocator, class_from, slab_frame};
use crate::util::clog2;
use crate::boot_alloc::align_up_to;
use crate::virtual_alloc::{release_result, reserve_result, AllocSettings, VirtualAllocator, FRAME_SIZE};

verus! {

/// Why a memory allocation failed.
#[derive(Clone, Copy, Debug, PartialEq, Eq, Structural)]
pub enum MemoryError {
    OutOfMemory,
    OutOfVirtual,
    SizeTooBig,
}

/// The number of small-object size classes: 8, 16, ... up to 1024 bytes.
pub const NUM_SIZE_CLASSES: usize = 8;

/// The largest request served from small-object slabs.
pub const SLUB_MAX: usize = 1024;

/// The largest block of the page allocator: 2^10 frames of 4096 bytes.
pub const BUDDY_MAX: usize = 0x40_0000;

/// The log2 of the frame size.
pub const FRAME_SHIFT: usize = 12;

/// Where the direct map of physical memory starts in the kernel's address space.
pub const PHYSICAL_MEMORY_OFFSET: u64 = 0xFFFF_8000_0000_0000;

/// How much physical memory the direct map covers: 4 TiB.
pub const PHYSICAL_MEMORY_MAX_SIZE: u64 = 0x400_0000_0000;

/// The address that zero-sized allocations return: the start of the direct map.
pub const ZST_SENTINEL: u64 = 0xFFFF_8000_0000_0000;

/// The address at which the direct map shows physical address `phys`.
pub fn phys_to_virt(phys: u64) -> (virt: u64)
    requires
        phys < PHYSICAL_MEMORY_MAX_SIZE,
    ensures
        virt == PHYSICAL_MEMORY_OFFSET + phys,
{
    PHYSICAL_MEMORY_OFFSET + phys
}

/// The physical address that the direct map shows at `virt`, or `None` outside the direct map.
pub fn virt_to_phys(virt: u64) -> (phys: Option<u64>)
    ensures
        phys == (if PHYSICAL_MEMORY_OFFSET <= virt < PHYSICAL_MEMORY_OFFSET + PHYSICAL_MEMORY_MAX_SIZE {
            Some((virt - PHYSICAL_MEMORY_OFFSET) as u64)
        } else {
            None::<u64>
        }),
{
    if virt >= PHYSICAL_MEMORY_OFFSET && virt - PHYSICAL_MEMORY_OFFSET < PHYSICAL_MEMORY_MAX_SIZE {
        Some(virt - PHYSICAL_MEMORY_OFFSET)
    } else {
        None
    }
}

/// Translating to the direct map and back gives the physical address again.
pub proof fn lemma_direct_map_round_trip(phys: u64)
    requires
        phys < PHYSICAL_MEMORY_MAX_SIZE,
    ensures
        PHYSICAL_MEMORY_OFFSET + phys < PHYSICAL_MEMORY_OFFSET + PHYSICAL_MEMORY_MAX_SIZE,
        PHYSICAL_MEMORY_OFFSET + PHYSICAL_MEMORY_MAX_SIZE <= u64::MAX,
        (PHYSICAL_MEMORY_OFFSET + phys) - PHYSICAL_MEMORY_OFFSET == phys,
{
}

/// The byte size of small-object size class `index`.
pub open spec fn size_class(index: int) -> int {
    (8 * pow2(index as nat)) as int
}

/// The smallest size class that holds `size` bytes: its index and its size.
pub fn round_up_size(size: usize) -> (r: Option<(usize, usize)>)
    ensures
        match r {
            Some((index, class)) => index < NUM_SIZE_CLASSES && class == size_class(index as int) && size <= class
                && (index == 0 || size > size_class(index - 1)),
            None => size > SLUB_MAX,
        },
{
    proof {
        vstd::arithmetic::power2::lemma2_to64();
    }
    let mut index: usize = 0;
    let mut class: usize = 8;
    while index < NUM_SIZE_CLASSES
        invariant
            index <= NUM_SIZE_CLASSES,
            class == size_class(index as int),
            index == 0 || size > size_class(index - 1),
            pow2(0) == 1 && pow2(1) == 2 && pow2(2) == 4 && pow2(3) == 8 && pow2(4) == 16 && pow2(5) == 32
                && pow2(6) == 64 && pow2(7) == 128 && pow2(8) == 256,
        decreases NUM_SIZE_CLASSES - index,
    {
        if size <= class {
            return Some((index, class));
        }
        index = index + 1;
        class = class * 2;
    }
    None
}

/// Where a request served from the directly mapped memory comes from.
#[derive(Clone, Copy, Debug, PartialEq, Eq, Structural)]
pub enum DirectAlloc {
    /// Nothing to allocate: a fixed sentinel address stands for it.
    ZeroSized,
    /// A piece of a small-object slab.
    Slub,
    /// A block of `2^order` frames from the page allocator.
    Buddy { order: usize },
}

/// Decides how a request of `size` bytes aligned to `align` is served from directly mapped
/// memory: zero-sized requests need nothing, requests whose size and alignment are at most
/// 1024 bytes come from slabs, up to 4 MiB from the page allocator in the least block that
/// holds them, and anything larger is refused.
pub fn direct_alloc_plan(size: usize, align: usize) -> (r: Result<DirectAlloc, MemoryError>)
    ensures
        ({
            let effective = if size >= align { size } else { align };
            if size == 0 {
                r == Ok::<DirectAlloc, MemoryError>(DirectAlloc::ZeroSized)
            } else if effective <= SLUB_MAX {
                r == Ok::<DirectAlloc, MemoryError>(DirectAlloc::Slub)
            } else if effective <= BUDDY_MAX {
                r matches Ok(DirectAlloc::Buddy { order }) && order <= 10
                    && pow2((order + FRAME_SHIFT) as nat) >= effective
                    && (order == 0 || pow2((order + FRAME_SHIFT - 1) as nat) < effective)
            } else {
                r == Err::<DirectAlloc, MemoryError>(MemoryError::SizeTooBig)
            }
        }),
{
    let effective = if size >= align { size } else { align };
    if size == 0 {
        Ok(DirectAlloc::ZeroSized)
    } else if effective <= SLUB_MAX {
        Ok(DirectAlloc::Slub)
    } else if effective <= BUDDY_MAX {
        let k = clog2(effective);
        proof {
            vstd::arithmetic::power2::lemma2_to64();
            if k > 22 {
                vstd::arithmetic::power2::lemma_pow2_strictly_increases(22, (k - 1) as nat);
            }
            if k < 10 {
                vstd::arithmetic::power2::lemma_pow2_strictly_increases(k as nat, 10);
            }
        }
        let order = if k >= FRAME_SHIFT { k - FRAME_SHIFT } else { 0 };
        Ok(DirectAlloc::Buddy { order })
    } else {
        Err(MemoryError::SizeTooBig)
    }
}

/// Whether `order` is the order of the least block of the page allocator that holds
/// `effective` bytes.
pub open spec fn buddy_order_for(effective: int, order: int) -> bool {
    &&& 0 <= order <= 10
    &&& pow2((order + FRAME_SHIFT) as nat) >= effective
    &&& (order == 0 || pow2((order + FRAME_SHIFT - 1) as nat) < effective)
}

/// At most one order is the least that holds a request.
pub proof fn lemma_buddy_order_unique(effective: int, o1: int, o2: int)
    requires
        buddy_order_for(effective, o1),
        buddy_order_for(effective, o2),
    ensures
        o1 == o2,
{
    if o1 < o2 {
        if o1 + FRAME_SHIFT < o2 + FRAME_SHIFT - 1 {
            vstd::arithmetic::power2::lemma_pow2_strictly_increases((o1 + FRAME_SHIFT) as nat, (o2 + FRAME_SHIFT - 1) as nat);
        }
    }
    if o2 < o1 {
        if o2 + FRAME_SHIFT < o1 + FRAME_SHIFT - 1 {
            vstd::arithmetic::power2::lemma_pow2_strictly_increases((o2 + FRAME_SHIFT) as nat, (o1 + FRAME_SHIFT - 1) as nat);
        }
    }
}

/// The bytes that a request of `size` bytes aligned to `align` takes: the larger of the two.
pub open spec fn effective_size(size: usize, align: usize) -> int {
    if size >= align {
        size as int
    } else {
        align as int
    }
}

/// What `direct_alloc` of `size` bytes aligned to `align` returns as `r` and leaves behind,
/// from slabs `s0` over page allocator `b0` to slabs `s1` over page allocator `b1`.
pub open spec fn direct_alloc_result(
    s0: SlubAllocator,
    b0: BuddyAllocator,
    s1: SlubAllocator,
    b1: BuddyAllocator,
    size: usize,
    align: usize,
    r: Result<u64, MemoryError>,
) -> bool {
    ({
        let effective = effective_size(size, align);
        if size == 0 {
            r == Ok::<u64, MemoryError>(ZST_SENTINEL) && s1 == s0 && b1 == b0
        } else if effective <= SLUB_MAX {
            let c = class_from(effective, 0);
            match r {
                Ok(p) => {
                    &&& p == s0.next_object(b0, c)
                    &&& !s0.live_set(b0).contains(p)
                    &&& s1.live_set(b1) == s0.live_set(b0).insert(p)
                },
                Err(e) => e == MemoryError::OutOfMemory && s0.class_list(c).len() == 0
                    && !b0.has_free_block(0) && s1 == s0 && b1 == b0,
            }
        } else if effective <= BUDDY_MAX {
            forall|order: int| #[trigger] buddy_order_for(effective, order) ==> match r {
                Ok(p) => {
                    &&& p == PHYSICAL_MEMORY_OFFSET + b0.next_block(order) * 4096
                    &&& b1.free_set() == b0.free_set().difference(
                        block_frames(b0.next_block(order), order),
                    )
                    &&& s1.live_set(b1) == s0.live_set(b0)
                },
                Err(e) => e == MemoryError::OutOfMemory && !b0.has_free_block(order) && s1
                    == s0 && b1 == b0,
            }
        } else {
            r == Err::<u64, MemoryError>(MemoryError::SizeTooBig) && s1 == s0 && b1
                == b0
        }
    })
}

/// A power of two no larger than `pow2(e)` divides it.
proof fn lemma_pow2_divides(a: int, e: nat)
    requires
        is_pow2(a),
        a <= pow2(e),
    ensures
        (pow2(e) as int) % a == 0,
{
    vstd::arithmetic::power2::is_pow2_equiv(a);
    let i = choose|i: nat| vstd::arithmetic::power::pow(2, i) == a;
    vstd::arithmetic::power2::lemma_pow2(i);
    if i > e {
        vstd::arithmetic::power2::lemma_pow2_strictly_increases(e, i);
    }
    let d = (e - i) as nat;
    vstd::arithmetic::power2::lemma_pow2_adds(i, d);
    assert(pow2(e) == pow2(d) * a) by (nonlinear_arith)
        requires
            pow2(e) == pow2(i) * pow2(d),
            pow2(i) == a,
    ;
    vstd::arithmetic::power2::lemma_pow2_pos(i);
    vstd::arithmetic::div_mod::lemma_mod_multiples_basic(pow2(d) as int, a);
}

/// A multiple of a multiple of `a` is a multiple of `a`.
proof fn lemma_mod_trans(x: int, b: int, a: int)
    requires
        a > 0,
        b > 0,
        b % a == 0,
        x % b == 0,
    ensures
        x % a == 0,
{
    vstd::arithmetic::div_mod::lemma_fundamental_div_mod(x, b);
    vstd::arithmetic::div_mod::lemma_fundamental_div_mod(b, a);
    assert(x == ((b / a) * (x / b)) * a) by (nonlinear_arith)
        requires
            x == b * (x / b),
            b == a * (b / a),
    ;
    vstd::arithmetic::div_mod::lemma_mod_multiples_basic((b / a) * (x / b), a);
}

/// The sum of two multiples of `a` is a multiple of `a`.
proof fn lemma_mod_sum(x: int, y: int, a: int)
    requires
        a > 0,
        x % a == 0,
        y % a == 0,
    ensures
        (x + y) % a == 0,
{
    vstd::arithmetic::div_mod::lemma_fundamental_div_mod(x, a);
    vstd::arithmetic::div_mod::lemma_fundamental_div_mod(y, a);
    assert(x + y == (x / a + y / a) * a) by (nonlinear_arith)
        requires
            x == a * (x / a),
            y == a * (y / a),
    ;
    vstd::arithmetic::div_mod::lemma_mod_multiples_basic(x / a + y / a, a);
}

/// The class found searching from `k` up is at least `k`.
proof fn lemma_class_from_lower(size: int, k: int)
    requires
        0 <= k <= NUM_SIZE_CLASSES,
    ensures
        class_from(size, k) >= k,
    decreases NUM_SIZE_CLASSES - k,
{
    if k < NUM_SIZE_CLASSES && size > size_class(k) {
        lemma_class_from_lower(size, k + 1);
    }
}

/// A frame that starts a block of order `o` is a multiple of the block's length.
proof fn lemma_aligned_mod(x: u64, o: u64)
    requires
        o <= 10,
        x & (((1u64 << o) - 1) as u64) == 0,
    ensures
        x % (pow2(o as nat) as u64) == 0,
{
    vstd::arithmetic::power2::lemma2_to64();
    vstd::bits::lemma_u64_shl_is_mul(1, o);
    vstd::bits::lemma_u64_low_bits_mask_is_mod(x, o as nat);
}

/// An object of slab class `c` handed out at `p`, in a frame of the direct map, lies in the
/// direct map, and where `align` is a power of two no larger than the class's size, `p` is a
/// multiple of it.
proof fn lemma_slab_object_address(p: u64, c: int, align: int, n: int)
    requires
        0 <= c < NUM_SIZE_CLASSES,
        crate::slub::object_in(slab_frame(p as int), size_class(c), p as int),
        PHYSICAL_MEMORY_OFFSET <= p,
        0 <= slab_frame(p as int) < n <= crate::slub::SLAB_FRAMES_MAX,
    ensures
        p < PHYSICAL_MEMORY_OFFSET + PHYSICAL_MEMORY_MAX_SIZE,
        is_pow2(align) && align <= size_class(c) ==> (p as int) % align == 0,
{
    let s = slab_frame(p as int);
    crate::slub::lemma_size_class(c);
    if is_pow2(align) && align <= size_class(c) {
        vstd::arithmetic::power2::lemma2_to64();
        vstd::arithmetic::power2::lemma_pow2_adds(3, c as nat);
        assert(size_class(c) == pow2((c + 3) as nat));
        lemma_pow2_divides(align, (c + 3) as nat);
        lemma_pow2_divides(align, 12);
        vstd::arithmetic::power2::lemma_pow2_pos(0);
        assert(align > 0) by {
            vstd::arithmetic::power2::is_pow2_equiv(align);
            let i = choose|i: nat| vstd::arithmetic::power::pow(2, i) == align;
            vstd::arithmetic::power2::lemma_pow2(i);
            vstd::arithmetic::power2::lemma_pow2_pos(i);
        }
        let r = p - crate::slub::frame_virt(s);
        lemma_mod_trans(r, size_class(c), align);
        assert((s * 4096) % 4096 == 0) by {
            vstd::arithmetic::div_mod::lemma_mod_multiples_basic(s, 4096);
        }
        lemma_mod_trans(s * 4096, 4096, align);
        lemma_mod_trans(PHYSICAL_MEMORY_OFFSET as int, 4096, align);
        lemma_mod_sum(PHYSICAL_MEMORY_OFFSET as int, s * 4096, align);
        lemma_mod_sum(PHYSICAL_MEMORY_OFFSET + s * 4096, r, align);
    }
}

/// A block of order `order` handed out at frame `f`, in the direct map, shows there at an
/// address in the direct map, and where `align` is a power of two no larger than the block,
/// that address is a multiple of it.
proof fn lemma_block_address(f: int, order: int, align: int, n: int)
    requires
        0 <= order <= 10,
        0 <= f,
        crate::buddy::aligned(f, order),
        f + crate::buddy::blen(order) <= n <= crate::slub::SLAB_FRAMES_MAX,
    ensures
        PHYSICAL_MEMORY_OFFSET + f * 4096 < PHYSICAL_MEMORY_OFFSET + PHYSICAL_MEMORY_MAX_SIZE,
        is_pow2(align) && align <= pow2((order + FRAME_SHIFT) as nat) ==> (PHYSICAL_MEMORY_OFFSET + f * 4096) % align == 0,
{
    crate::buddy::lemma_blen(order);
    if is_pow2(align) && align <= pow2((order + FRAME_SHIFT) as nat) {
        vstd::arithmetic::power2::lemma2_to64();
        lemma_aligned_mod(f as u64, order as u64);
        let b = pow2((order + FRAME_SHIFT) as nat) as int;
        vstd::arithmetic::power2::lemma_pow2_adds(order as nat, 12);
        assert(b == pow2(order as nat) * 4096);
        assert(align > 0) by {
            vstd::arithmetic::power2::is_pow2_equiv(align);
            let i = choose|i: nat| vstd::arithmetic::power::pow(2, i) == align;
            vstd::arithmetic::power2::lemma_pow2(i);
            vstd::arithmetic::power2::lemma_pow2_pos(i);
        }
        lemma_pow2_divides(align, (order + FRAME_SHIFT) as nat);
        let q = f / (pow2(order as nat) as int);
        vstd::arithmetic::div_mod::lemma_fundamental_div_mod(f, pow2(order as nat) as int);
        assert(f * 4096 == q * b) by (nonlinear_arith)
            requires
                f == pow2(order as nat) * q,
                b == pow2(order as nat) * 4096,
        ;
        vstd::arithmetic::div_mod::lemma_mod_multiples_basic(q, b);
        lemma_mod_trans(f * 4096, b, align);
        if order < 10 {
            vstd::arithmetic::power2::lemma_pow2_strictly_increases((order + FRAME_SHIFT) as nat, 22);
        }
        lemma_pow2_divides(align, 22);
        lemma_mod_trans(PHYSICAL_MEMORY_OFFSET as int, pow2(22) as int, align);
        lemma_mod_sum(PHYSICAL_MEMORY_OFFSET as int, f * 4096, align);
    }
}

/// Allocates `size` bytes aligned to `align` from directly mapped memory and returns their
/// address there: zero-sized requests get the sentinel address, requests whose size and
/// alignment are at most 1024 bytes get an object of the least slab class that holds the larger
/// of the two, requests up to 4 MiB the least block of the page allocator that holds it, and
/// larger ones are refused.
pub fn direct_alloc(slub: &mut SlubAllocator, buddy: &mut BuddyAllocator, size: usize, align: usize) -> (r: Result<
    u64,
    MemoryError,
>)
    requires
        old(slub).wf(*old(buddy)),
    ensures
        final(slub).wf(*final(buddy)),
        final(buddy).frames_view().len() == old(buddy).frames_view().len(),
        direct_alloc_result(*old(slub), *old(buddy), *final(slub), *final(buddy), size, align, r),
        size != 0 ==> match r {
            Ok(p) => PHYSICAL_MEMORY_OFFSET <= p < PHYSICAL_MEMORY_OFFSET + PHYSICAL_MEMORY_MAX_SIZE
                && (is_pow2(align as int) ==> (p as int) % (align as int) == 0),
            Err(_) => true,
        },
{
    let effective = if size >= align { size } else { align };
    match direct_alloc_plan(size, align) {
        Ok(DirectAlloc::ZeroSized) => Ok(ZST_SENTINEL),
        Ok(DirectAlloc::Slub) => match slub.allocate(buddy, effective) {
            Some(p) => {
                proof {
                    slub.lemma_live_frame(*buddy, p);
                    lemma_class_from_lower(effective as int, 0);
                    lemma_slab_object_address(p, class_from(effective as int, 0), align as int, buddy.frames_view().len() as int);
                }
                Ok(p)
            },
            None => Err(MemoryError::OutOfMemory),
        },
        Ok(DirectAlloc::Buddy { order }) => {
            proof {
                slub.lemma_frames_bounded(*buddy);
                assert(buddy_order_for(effective as int, order as int));
                assert forall|o: int| #[trigger] buddy_order_for(effective as int, o) implies o == order by {
                    lemma_buddy_order_unique(effective as int, o, order as int);
                }
            }
            match buddy.allocate(order) {
                Some(addr) => {
                    proof {
                        crate::buddy::lemma_blen(order as int);
                        assert forall|j: int|
                            0 <= j < old(buddy).frames_view().len() && old(buddy).frames_view()[j].ty == FrameType::Slab
                                implies #[trigger] buddy.frames_view()[j] == old(buddy).frames_view()[j] by {
                            old(buddy).lemma_not_free(j);
                        }
                        slub.lemma_buddy_change(*old(buddy), *buddy);
                        lemma_block_address((addr / 4096) as int, order as int, align as int, buddy.frames_view().len() as int);
                    }
                    Ok(phys_to_virt(addr))
                },
                None => Err(MemoryError::OutOfMemory),
            }
        },
        Err(e) => Err(e),
    }
}

/// Allocates room for one value of type `T` from directly mapped memory, as `direct_alloc`
/// does for the size and alignment of `T`.
pub fn direct_alloc_ptr<T>(slub: &mut SlubAllocator, buddy: &mut BuddyAllocator) -> (r: Result<u64, MemoryError>)
    requires
        old(slub).wf(*old(buddy)),
    ensures
        final(slub).wf(*final(buddy)),
        final(buddy).frames_view().len() == old(buddy).frames_view().len(),
        direct_alloc_result(
            *old(slub),
            *old(buddy),
            *final(slub),
            *final(buddy),
            vstd::layout::size_of::<T>() as usize,
            vstd::layout::align_of::<T>() as usize,
            r,
        ),
        vstd::layout::size_of::<T>() != 0 ==> match r {
            Ok(p) => PHYSICAL_MEMORY_OFFSET <= p < PHYSICAL_MEMORY_OFFSET + PHYSICAL_MEMORY_MAX_SIZE
                && (p as int) % (vstd::layout::align_of::<T>() as int) == 0,
            Err(_) => true,
        },
{
    vstd::layout::layout_for_type_is_valid::<T>();
    direct_alloc(slub, buddy, core::mem::size_of::<T>(), core::mem::align_of::<T>())
}

/// Gives back what `kernel_alloc` handed out at `addr`: an address of the direct map goes back
/// as `direct_free` takes it, one of the virtual allocation area gives its reservation back
/// and returns the range whose pages the caller unmaps.
pub fn kernel_free(slub: &mut SlubAllocator, buddy: &mut BuddyAllocator, valloc: &mut VirtualAllocator, addr: u64) -> (r:
    Option<(u64, u64)>)
    requires
        old(slub).wf(*old(buddy)),
        old(valloc).wf(),
        PHYSICAL_MEMORY_OFFSET <= addr < PHYSICAL_MEMORY_OFFSET + PHYSICAL_MEMORY_MAX_SIZE ==> direct_freeable(
            *old(slub),
            *old(buddy),
            addr,
        ),
        !(PHYSICAL_MEMORY_OFFSET <= addr < PHYSICAL_MEMORY_OFFSET + PHYSICAL_MEMORY_MAX_SIZE) ==> old(valloc).holds_start(addr),
    ensures
        final(slub).wf(*final(buddy)),
        final(valloc).wf(),
        final(buddy).frames_view().len() == old(buddy).frames_view().len(),
        PHYSICAL_MEMORY_OFFSET <= addr < PHYSICAL_MEMORY_OFFSET + PHYSICAL_MEMORY_MAX_SIZE ==> {
            &&& r is None
            &&& direct_free_result(*old(slub), *old(buddy), *final(slub), *final(buddy), addr)
            &&& *final(valloc) == *old(valloc)
        },
        !(PHYSICAL_MEMORY_OFFSET <= addr < PHYSICAL_MEMORY_OFFSET + PHYSICAL_MEMORY_MAX_SIZE) ==> {
            &&& r matches Some(range) && release_result(*old(valloc), *final(valloc), addr, range)
            &&& *final(slub) == *old(slub)
            &&& *final(buddy) == *old(buddy)
        },
{
    if addr >= PHYSICAL_MEMORY_OFFSET && addr - PHYSICAL_MEMORY_OFFSET < PHYSICAL_MEMORY_MAX_SIZE {
        direct_free(slub, buddy, addr);
        None
    } else {
        Some(valloc.free(addr))
    }
}

/// Where `kernel_alloc` found room.
#[derive(Clone, Copy, Debug, PartialEq, Eq, Structural)]
pub enum KernelAllocation {
    /// Directly mapped memory at this address, ready to use.
    Direct(u64),
    /// This range of the virtual allocation area, reserved; it still has to be backed with
    /// the pages that `backing_pages` lists, and given back with `VirtualAllocator::abandon`
    /// where that fails.
    Virtual(u64, u64),
}

/// Allocates `size` bytes aligned to `align` for the kernel: from directly mapped memory
/// where `direct_alloc` can serve the request, and otherwise, whatever `direct_alloc`
/// answered, by reserving room in the virtual allocation area without guards.
pub fn kernel_alloc(
    slub: &mut SlubAllocator,
    buddy: &mut BuddyAllocator,
    valloc: &mut VirtualAllocator,
    size: usize,
    align: usize,
) -> (r: Result<KernelAllocation, MemoryError>)
    requires
        old(slub).wf(*old(buddy)),
        old(valloc).wf(),
        align_up_to(size as int, FRAME_SIZE as int) <= isize::MAX,
        // the virtual allocation area takes no alignment above a frame: larger ones must be
        // served directly
        size != 0 && align > FRAME_SIZE ==> effective_size(size, align) <= BUDDY_MAX && exists|order: int|
            #[trigger] buddy_order_for(effective_size(size, align), order) && old(buddy).has_free_block(order),
    ensures
        final(slub).wf(*final(buddy)),
        final(valloc).wf(),
        final(buddy).frames_view().len() == old(buddy).frames_view().len(),
        match r {
            Ok(KernelAllocation::Direct(p)) => {
                &&& direct_alloc_result(*old(slub), *old(buddy), *final(slub), *final(buddy), size, align, Ok(p))
                &&& *final(valloc) == *old(valloc)
                &&& size != 0 ==> PHYSICAL_MEMORY_OFFSET <= p < PHYSICAL_MEMORY_OFFSET + PHYSICAL_MEMORY_MAX_SIZE
                    && (is_pow2(align as int) ==> (p as int) % (align as int) == 0)
            },
            Ok(KernelAllocation::Virtual(a, b)) => {
                &&& exists|e: MemoryError| #[trigger] direct_alloc_result(*old(slub), *old(buddy), *final(slub), *final(buddy), size, align, Err(e))
                &&& reserve_result(*old(valloc), *final(valloc), size, (AllocSettings { guard_bottom: 0, guard_top: 0 }), Ok((a, b)))
            },
            Err(e) => {
                &&& exists|e0: MemoryError| #[trigger] direct_alloc_result(*old(slub), *old(buddy), *final(slub), *final(buddy), size, align, Err(e0))
                &&& reserve_result(*old(valloc), *final(valloc), size, (AllocSettings { guard_bottom: 0, guard_top: 0 }), Err(e))
            },
        },
{
    match direct_alloc(slub, buddy, size, align) {
        Ok(p) => Ok(KernelAllocation::Direct(p)),
        Err(e0) => {
            proof {
                if align > FRAME_SIZE && size != 0 {
                    let order = choose|order: int| #[trigger] buddy_order_for(effective_size(size, align), order)
                        && old(buddy).has_free_block(order);
                    assert(buddy_order_for(effective_size(size, align), order));
                }
                assert(align_up_to(0, FRAME_SIZE as int) == 0);
            }
            let settings = AllocSettings { guard_bottom: 0, guard_top: 0 };
            match valloc.allocate(size, align, settings) {
                Ok((a, b)) => Ok(KernelAllocation::Virtual(a, b)),
                Err(e) => Err(e),
            }
        },
    }
}

/// Whether `addr` is something `direct_alloc` handed out from slabs `s` over page allocator
/// `b`: the sentinel address, a live object, or the first address of an allocated block.
pub open spec fn direct_freeable(s: SlubAllocator, b: BuddyAllocator, addr: u64) -> bool {
    addr == ZST_SENTINEL || s.live_set(b).contains(addr) || ({
        let phys = addr - PHYSICAL_MEMORY_OFFSET;
        &&& PHYSICAL_MEMORY_OFFSET <= addr
        &&& phys % 4096 == 0
        &&& phys / 4096 < b.frames_view().len()
        &&& b.frames_view()[phys / 4096].ty == FrameType::BuddyAllocated
    })
}

/// What giving back `addr` makes of slabs `s0` over page allocator `b0`: nothing changes for
/// the sentinel address, a live object stops being live, and a block's frames become free.
pub open spec fn direct_free_result(s0: SlubAllocator, b0: BuddyAllocator, s1: SlubAllocator, b1: BuddyAllocator, addr: u64) -> bool {
    &&& addr == ZST_SENTINEL ==> s1 == s0 && b1 == b0
    &&& addr != ZST_SENTINEL && s0.live_set(b0).contains(addr) ==> s1.live_set(b1) == s0.live_set(b0).remove(addr)
    &&& addr != ZST_SENTINEL && !s0.live_set(b0).contains(addr) ==> ({
        let fr = (addr - PHYSICAL_MEMORY_OFFSET) / 4096;
        &&& b1.free_set() == b0.free_set().union(block_frames(fr, b0.frames_view()[fr].order as int))
        &&& s1.live_set(b1) == s0.live_set(b0)
    })
}

/// Gives back what `direct_alloc` handed out at `addr`: nothing for the sentinel address, the
/// object for an address in a slab, the block for the first address of an allocated block of
/// the page allocator.
pub fn direct_free(slub: &mut SlubAllocator, buddy: &mut BuddyAllocator, addr: u64)
    requires
        old(slub).wf(*old(buddy)),
        direct_freeable(*old(slub), *old(buddy), addr),
    ensures
        final(slub).wf(*final(buddy)),
        final(buddy).frames_view().len() == old(buddy).frames_view().len(),
        direct_free_result(*old(slub), *old(buddy), *final(slub), *final(buddy), addr),
{
    if addr == ZST_SENTINEL {
        return;
    }
    proof {
        slub.lemma_frames_bounded(*buddy);
        if slub.live_set(*buddy).contains(addr) {
            slub.lemma_live_object(*buddy, addr);
        }
    }
    let phys = match virt_to_phys(addr) {
        Some(p) => p,
        None => {
            proof {
                assert(false);
            }
            return;
        },
    };
    let fr = (phys / 4096) as usize;
    let fi = buddy.frame(fr);
    match fi.ty {
        FrameType::BuddyAllocated => {
            let ghost b0 = *buddy;
            buddy.free(phys, fi.order as usize);
            proof {
                assert forall|j: int|
                    0 <= j < b0.frames_view().len() && b0.frames_view()[j].ty == FrameType::Slab
                        implies #[trigger] buddy.frames_view()[j] == b0.frames_view()[j] by {
                    b0.lemma_not_free(j);
                    if fr < j < fr + crate::buddy::blen(fi.order as int) {
                        b0.lemma_block_tails(fr as int, j);
                    }
                }
                slub.lemma_buddy_change(b0, *buddy);
            }
        },
        FrameType::Slab => {
            slub.free(buddy, addr);
        },
        _ => {
            proof {
                assert(false);
            }
        },
    }
}

/// Addresses of user space: the lower half, below 2^48.
pub fn is_user_address(virt: u64) -> (r: bool)
    ensures
        r == (virt < 0x1_0000_0000_0000),
{
    let r = virt >> 48u64 == 0;
    proof {
        assert((virt >> 48u64 == 0) == (virt < 0x1_0000_0000_0000)) by (bit_vector);
    }
    r
}

/// What a page frame is used for; stored in the low byte of the frame's flags.
#[derive(Clone, Copy, Debug, PartialEq, Eq, Structural)]
pub enum FrameType {
    Reserved,
    Buddy,
    BuddyTail,
    BuddyAllocated,
    Slab,
}

/// The code of a frame type in the flags.
pub open spec fn frame_type_code(t: FrameType) -> u64 {
    match t {
        FrameType::Reserved => 0,
        FrameType::Buddy => 1,
        FrameType::BuddyTail => 2,
        FrameType::BuddyAllocated => 3,
        FrameType::Slab => 4,
    }
}

/// The frame type recorded in `flags`, whose low byte must hold a valid code.
pub fn frame_type_from_flags(flags: u64) -> (t: FrameType)
    requires
        flags & 0xff <= 4,
    ensures
        frame_type_code(t) == flags & 0xff,
{
    let code = flags & 0xff;
    if code == 0 {
        FrameType::Reserved
    } else if code == 1 {
        FrameType::Buddy
    } else if code == 2 {
        FrameType::BuddyTail
    } else if code == 3 {
        FrameType::BuddyAllocated
    } else {
        FrameType::Slab
    }
}

/// `flags` with the frame type replaced by `t`; the other bits stay.
pub fn flags_with_frame_type(flags: u64, t: FrameType) -> (r: u64)
    ensures
        r & 0xff == frame_type_code(t),
        r & !0xffu64 == flags & !0xffu64,
{
    let code: u64 = match t {
        FrameType::Reserved => 0,
        FrameType::Buddy => 1,
        FrameType::BuddyTail => 2,
        FrameType::BuddyAllocated => 3,
        FrameType::Slab => 4,
    };
    let r = flags & !0xffu64 | code;
    proof {
        assert(code <= 4);
        assert((flags & !0xffu64 | code) & 0xff == code) by (bit_vector)
            requires
                code <= 4,
        ;
        assert((flags & !0xffu64 | code) & !0xffu64 == flags & !0xffu64) by (bit_vector)
            requires
                code <= 4,
        ;
    }
    r
}

/// Recording a frame type and reading it back gives that type: the codes of distinct types
/// differ, and every code is one `frame_type_from_flags` accepts.
pub proof fn lemma_frame_type_round_trip(t: FrameType, u: FrameType)
    ensures
        frame_type_code(t) <= 4,
        frame_type_code(u) == frame_type_code(t) ==> u == t,
{
}

} // verus!
