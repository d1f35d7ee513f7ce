use vstd::prelude::*;
use vstd::arithmetic::power2::pow2;

use crate::buddy::{BuddyAllocator, FrameInfo, block_frames, lemma_remove_at, position_of};
use crate::memory::{
    FrameType, NUM_SIZE_CLASSES, PHYSICAL_MEMORY_MAX_SIZE, PHYSICAL_MEMORY_OFFSET, SLUB_MAX, phys_to_virt,
    round_up_size, size_class, virt_to_phys,
};

verus! {

/// The most frames whose objects the slabs hand out: those the direct map covers.
pub const SLAB_FRAMES_MAX: usize = 0x4000_0000;

/// The address at which the direct map shows the first byte of frame `s`.
pub open spec fn frame_virt(s: int) -> int {
    PHYSICAL_MEMORY_OFFSET + s * 4096
}

/// Whether `p` is the address of an object of `size` bytes in the slab of frame `s`.
pub open spec fn object_in(s: int, size: int, p: int) -> bool {
    &&& frame_virt(s) <= p < frame_virt(s) + 4096
    &&& (p - frame_virt(s)) % size == 0
}

/// The frame whose slab holds the object at address `p`.
pub open spec fn slab_frame(p: int) -> int {
    (p - PHYSICAL_MEMORY_OFFSET) / 4096
}

/// The number of objects in a slab of size class `c`.
pub open spec fn objects_per_slab(c: int) -> int {
    4096int / size_class(c)
}

/// The size class that serves a request of `size` bytes, searching from class `c` up:
/// `NUM_SIZE_CLASSES` when none is large enough.
pub open spec fn class_from(size: int, c: int) -> int
    decreases NUM_SIZE_CLASSES - c,
{
    if c >= NUM_SIZE_CLASSES {
        NUM_SIZE_CLASSES as int
    } else if size <= size_class(c) {
        c
    } else {
        class_from(size, c + 1)
    }
}

/// The sizes of the small-object classes: 8, 16, ... 1024 bytes, and how many objects a
/// one-frame slab of each class holds.
pub proof fn lemma_size_class(c: int)
    requires
        0 <= c < NUM_SIZE_CLASSES,
    ensures
        8 <= size_class(c) <= 1024,
        c == 0 ==> size_class(c) == 8,
        4 <= objects_per_slab(c) <= 512,
        objects_per_slab(c) * size_class(c) == 4096,
        c > 0 ==> size_class(c) == 2 * size_class(c - 1),
{
    vstd::arithmetic::power2::lemma2_to64();
    if c == 0 {
        assert(size_class(c) == 8);
        assert(objects_per_slab(c) * size_class(c) == 4096) by (nonlinear_arith)
            requires
                size_class(c) == 8,
                objects_per_slab(c) == 4096int / size_class(c),
        ;
    } else if c == 1 {
        assert(size_class(c) == 16);
        assert(objects_per_slab(c) * size_class(c) == 4096) by (nonlinear_arith)
            requires
                size_class(c) == 16,
                objects_per_slab(c) == 4096int / size_class(c),
        ;
    } else if c == 2 {
        assert(size_class(c) == 32);
        assert(objects_per_slab(c) * size_class(c) == 4096) by (nonlinear_arith)
            requires
                size_class(c) == 32,
                objects_per_slab(c) == 4096int / size_class(c),
        ;
    } else if c == 3 {
        assert(size_class(c) == 64);
        assert(objects_per_slab(c) * size_class(c) == 4096) by (nonlinear_arith)
            requires
                size_class(c) == 64,
                objects_per_slab(c) == 4096int / size_class(c),
        ;
    } else if c == 4 {
        assert(size_class(c) == 128);
        assert(objects_per_slab(c) * size_class(c) == 4096) by (nonlinear_arith)
            requires
                size_class(c) == 128,
                objects_per_slab(c) == 4096int / size_class(c),
        ;
    } else if c == 5 {
        assert(size_class(c) == 256);
        assert(objects_per_slab(c) * size_class(c) == 4096) by (nonlinear_arith)
            requires
                size_class(c) == 256,
                objects_per_slab(c) == 4096int / size_class(c),
        ;
    } else if c == 6 {
        assert(size_class(c) == 512);
        assert(objects_per_slab(c) * size_class(c) == 4096) by (nonlinear_arith)
            requires
                size_class(c) == 512,
                objects_per_slab(c) == 4096int / size_class(c),
        ;
    } else {
        assert(size_class(c) == 1024);
        assert(objects_per_slab(c) * size_class(c) == 4096) by (nonlinear_arith)
            requires
                size_class(c) == 1024,
                objects_per_slab(c) == 4096int / size_class(c),
        ;
    }
}

/// The class that `round_up_size` picks is the first class from the smallest up that holds
/// the request.
pub proof fn lemma_class_from(size: int, k: int, c: int)
    requires
        0 <= k <= c < NUM_SIZE_CLASSES,
        size <= size_class(c),
        c == 0 || size > size_class(c - 1),
    ensures
        class_from(size, k) == c,
    decreases c - k,
{
    if k < c {
        assert(size > size_class(k)) by {
            if k < c - 1 {
                vstd::arithmetic::power2::lemma_pow2_strictly_increases(k as nat, (c - 1) as nat);
            }
        }
        lemma_class_from(size, k + 1, c);
    }
}

/// The state of one slab, kept beside its frame: the addresses of its free objects, the one
/// handed out next first, how many there are, and the slab's size class.
#[derive(Clone, Debug)]
pub struct SlabList {
    pub free_list: Vec<u64>,
    pub free_count: u16,
    pub cache_index: u8,
}

/// The slabs of one size class.
struct SlabCache {
    list: Vec<usize>,
    object_size: usize,
    slab_order: u8,
    max_free_count: u16,
}

/// The slab of frame `s`, of which the objects in `used` are handed out, is well formed: its
/// free objects lie in its frame at object boundaries, are listed once, and together with the
/// handed-out ones make up all its objects; unless `s` is `full`, not all of them are free.
pub open spec fn slab_ok(f: Seq<FrameInfo>, sl: SlabList, used: Set<u64>, s: int, full: int) -> bool {
    &&& f[s].order == 0
    &&& slab_state_ok(sl, used, s, full)
}

/// The state of the slab of frame `s` is well formed, whatever the page allocator records.
pub open spec fn slab_state_ok(sl: SlabList, used: Set<u64>, s: int, full: int) -> bool {
    let c = sl.cache_index as int;
    let fl = sl.free_list@;
    &&& c < NUM_SIZE_CLASSES
    &&& sl.free_count == fl.len()
    &&& (sl.free_count < objects_per_slab(c) || (s == full && sl.free_count == objects_per_slab(c)))
    &&& fl.no_duplicates()
    &&& used.finite()
    &&& sl.free_count + used.len() == objects_per_slab(c)
    &&& forall|i: int| 0 <= i < fl.len() ==> object_in(s, size_class(c), #[trigger] fl[i] as int) && !used.contains(fl[i])
    &&& forall|p: u64| #[trigger] used.contains(p) ==> object_in(s, size_class(c), p as int)
}

/// The small-object allocator: one frame slabs per size class, each cut into objects of its
/// class's size; the slabs of a class with free objects are listed, front first.
pub struct SlubAllocator {
    slabs: Vec<SlabCache>,
    frame_slabs: Vec<SlabList>,
    used: Ghost<Seq<Set<u64>>>,
}

impl SlubAllocator {
    /// The slab state kept beside each frame.
    pub closed spec fn frame_slabs_view(&self) -> Seq<SlabList> {
        self.frame_slabs@
    }

    /// The number of size classes the allocator keeps slabs for.
    pub closed spec fn n_classes(&self) -> int {
        self.slabs@.len() as int
    }

    /// The frames of the listed slabs of class `c`, front first.
    pub closed spec fn class_list(&self, c: int) -> Seq<usize> {
        self.slabs@[c].list@
    }

    /// The invariant of the allocator together with the page allocator it takes frames from.
    pub closed spec fn wf(&self, buddy: BuddyAllocator) -> bool {
        self.inv(buddy, -1)
    }

    /// The invariant, except that all objects of the slab of frame `full` may be free.
    pub closed spec fn inv(&self, buddy: BuddyAllocator, full: int) -> bool {
        let f = buddy.frames_view();
        let n = f.len();
        let fs = self.frame_slabs@;
        &&& buddy.wf()
        &&& n <= SLAB_FRAMES_MAX
        &&& fs.len() == n
        &&& self.used@.len() == n
        &&& self.slabs@.len() == NUM_SIZE_CLASSES
        &&& forall|c: int| 0 <= c < NUM_SIZE_CLASSES ==> {
            &&& (#[trigger] self.slabs@[c]).object_size == size_class(c)
            &&& self.slabs@[c].slab_order == 0
            &&& self.slabs@[c].max_free_count == objects_per_slab(c)
            &&& self.slabs@[c].list@.no_duplicates()
        }
        &&& forall|c: int, x: usize|
            0 <= c < NUM_SIZE_CLASSES ==> (#[trigger] self.slabs@[c].list@.contains(x) <==> (x < n && f[x as int].ty
                == FrameType::Slab && fs[x as int].cache_index == c && fs[x as int].free_count > 0))
        &&& forall|s: int| 0 <= s < n && f[s].ty == FrameType::Slab ==> #[trigger] slab_ok(f, fs[s], self.used@[s], s, full)
    }

    /// Whether the object at `p` is handed out.
    pub closed spec fn live(&self, buddy: BuddyAllocator, p: u64) -> bool {
        let s = slab_frame(p as int);
        &&& PHYSICAL_MEMORY_OFFSET <= p
        &&& 0 <= s < buddy.frames_view().len()
        &&& buddy.frames_view()[s].ty == FrameType::Slab
        &&& self.used@[s].contains(p)
    }

    /// The objects handed out.
    pub closed spec fn live_set(&self, buddy: BuddyAllocator) -> Set<u64> {
        Set::new(|p: u64| self.live(buddy, p))
    }

    /// The object that the next request of class `c` gets: the first free object of the first
    /// listed slab of the class, or the first object of a new slab made of the frame that the
    /// page allocator hands out next.
    pub closed spec fn next_object(&self, buddy: BuddyAllocator, c: int) -> u64 {
        if self.slabs@[c].list@.len() > 0 {
            self.frame_slabs@[self.slabs@[c].list@[0] as int].free_list@[0]
        } else {
            frame_virt(buddy.next_block(0)) as u64
        }
    }

    /// The slab state kept beside frame `fr`.
    pub fn slab(&self, fr: usize) -> (r: &SlabList)
        requires
            fr < self.frame_slabs_view().len(),
        ensures
            *r == self.frame_slabs_view()[fr as int],
    {
        &self.frame_slabs[fr]
    }

    /// The frames of the listed slabs of class `c`, front first.
    pub fn listed_slabs(&self, c: usize) -> (r: &Vec<usize>)
        requires
            c < self.n_classes(),
        ensures
            r@ == self.class_list(c as int),
    {
        &self.slabs[c].list
    }

    /// A handed-out object lies in the direct map, at an object boundary of a slab frame.
    pub proof fn lemma_live_object(&self, buddy: BuddyAllocator, p: u64)
        requires
            self.wf(buddy),
            self.live_set(buddy).contains(p),
        ensures
            PHYSICAL_MEMORY_OFFSET <= p < PHYSICAL_MEMORY_OFFSET + PHYSICAL_MEMORY_MAX_SIZE,
            slab_frame(p as int) < buddy.frames_view().len(),
            buddy.frames_view()[slab_frame(p as int)].ty == FrameType::Slab,
    {
        let s = slab_frame(p as int);
        assert(slab_ok(buddy.frames_view(), self.frame_slabs@[s], self.used@[s], s, -1));
        lemma_size_class(self.frame_slabs@[s].cache_index as int);
    }

    /// The page allocator that the slabs take frames from describes no more frames than the
    /// direct map covers.
    pub proof fn lemma_frames_bounded(&self, buddy: BuddyAllocator)
        requires
            self.wf(buddy),
        ensures
            buddy.wf(),
            buddy.frames_view().len() <= SLAB_FRAMES_MAX,
    {
    }

    /// A handed-out object lies in a frame that the page allocator describes.
    pub proof fn lemma_live_frame(&self, buddy: BuddyAllocator, p: u64)
        requires
            self.wf(buddy),
            self.live_set(buddy).contains(p),
        ensures
            PHYSICAL_MEMORY_OFFSET <= p,
            0 <= slab_frame(p as int) < buddy.frames_view().len(),
            buddy.frames_view().len() <= SLAB_FRAMES_MAX,
    {
    }

    /// A change of the page allocator that leaves every slab frame as it was and makes no frame
    /// a slab keeps the slabs well formed and the handed-out objects as they were.
    pub proof fn lemma_buddy_change(&self, b0: BuddyAllocator, b1: BuddyAllocator)
        requires
            self.wf(b0),
            b1.wf(),
            b1.frames_view().len() == b0.frames_view().len(),
            forall|j: int|
                0 <= j < b0.frames_view().len() && b0.frames_view()[j].ty == FrameType::Slab ==> #[trigger] b1.frames_view()[j]
                    == b0.frames_view()[j],
            forall|j: int|
                0 <= j < b0.frames_view().len() && #[trigger] b1.frames_view()[j].ty == FrameType::Slab
                    ==> b0.frames_view()[j].ty == FrameType::Slab,
        ensures
            self.wf(b1),
            self.live_set(b1) == self.live_set(b0),
    {
        let f0 = b0.frames_view();
        let f1 = b1.frames_view();
        assert forall|s: int| 0 <= s < f1.len() && f1[s].ty == FrameType::Slab implies #[trigger] slab_ok(
            f1, self.frame_slabs@[s], self.used@[s], s, -1) by {
            assert(slab_ok(f0, self.frame_slabs@[s], self.used@[s], s, -1));
        }
        assert forall|c: int, x: usize| 0 <= c < NUM_SIZE_CLASSES implies (#[trigger] self.slabs@[c].list@.contains(x) <==> (
        x < f1.len() && f1[x as int].ty == FrameType::Slab && self.frame_slabs@[x as int].cache_index == c
            && self.frame_slabs@[x as int].free_count > 0)) by {
            if x < f0.len() && f0[x as int].ty == FrameType::Slab {
                assert(f1[x as int] == f0[x as int]);
            }
        }
        assert forall|p: u64| #[trigger] self.live_set(b1).contains(p) == self.live_set(b0).contains(p) by {
            let s = slab_frame(p as int);
            if 0 <= s < f0.len() && f0[s].ty == FrameType::Slab {
                assert(f1[s] == f0[s]);
            }
        }
        assert(self.live_set(b1) =~= self.live_set(b0));
    }

    /// The small-object allocator for the frames of `buddy`, of which none is a slab yet.
    pub fn new(buddy: &BuddyAllocator) -> (r: Self)
        requires
            buddy.wf(),
            buddy.frames_view().len() <= SLAB_FRAMES_MAX,
            forall|j: int| 0 <= j < buddy.frames_view().len() ==> #[trigger] buddy.frames_view()[j].ty != FrameType::Slab,
        ensures
            r.wf(*buddy),
            r.n_classes() == NUM_SIZE_CLASSES,
            r.live_set(*buddy) == Set::<u64>::empty(),
            forall|c: int| 0 <= c < NUM_SIZE_CLASSES ==> #[trigger] r.class_list(c).len() == 0,
    {
        let n = buddy.n_frames();
        let mut slabs: Vec<SlabCache> = Vec::new();
        let mut index: usize = 0;
        let mut size: usize = 8;
        proof {
            lemma_size_class(0);
        }
        while index < NUM_SIZE_CLASSES
            invariant
                index <= NUM_SIZE_CLASSES,
                slabs@.len() == index,
                index < NUM_SIZE_CLASSES ==> size == size_class(index as int),
                forall|c: int| 0 <= c < index ==> {
                    &&& (#[trigger] slabs@[c]).object_size == size_class(c)
                    &&& slabs@[c].slab_order == 0
                    &&& slabs@[c].max_free_count == objects_per_slab(c)
                    &&& slabs@[c].list@.len() == 0
                },
            decreases NUM_SIZE_CLASSES - index,
        {
            proof {
                lemma_size_class(index as int);
                if index + 1 < NUM_SIZE_CLASSES {
                    lemma_size_class(index + 1);
                }
            }
            let max_free_count = (4096 / size) as u16;
            slabs.push(SlabCache { list: Vec::new(), object_size: size, slab_order: 0, max_free_count });
            index = index + 1;
            if index < NUM_SIZE_CLASSES {
                size = size * 2;
            }
        }
        let mut frame_slabs: Vec<SlabList> = Vec::new();
        let mut i: usize = 0;
        while i < n
            invariant
                i <= n,
                frame_slabs@.len() == i,
            decreases n - i,
        {
            frame_slabs.push(SlabList { free_list: Vec::new(), free_count: 0, cache_index: 0 });
            i = i + 1;
        }
        let r = SlubAllocator { slabs, frame_slabs, used: Ghost(Seq::new(n as nat, |j: int| Set::<u64>::empty())) };
        proof {
            assert forall|c: int, x: usize| 0 <= c < NUM_SIZE_CLASSES implies (#[trigger] r.slabs@[c].list@.contains(x) <==> (
            x < n && buddy.frames_view()[x as int].ty == FrameType::Slab && r.frame_slabs@[x as int].cache_index == c
                && r.frame_slabs@[x as int].free_count > 0)) by {
                if x < n {
                    assert(buddy.frames_view()[x as int].ty != FrameType::Slab);
                }
                assert(r.slabs@[c].list@.len() == 0);
            }
            assert(r.live_set(*buddy) =~= Set::<u64>::empty());
        }
        r
    }
}


/// An object of a slab lies in the frame of that slab.
pub proof fn lemma_object_frame(s: int, size: int, p: int)
    requires
        0 <= s,
        object_in(s, size, p),
    ensures
        slab_frame(p) == s,
        PHYSICAL_MEMORY_OFFSET <= p,
{
}

impl SlubAllocator {
    /// Cuts the frame `fr` into the objects of size class `c`, all free, listed in address
    /// order.
    fn init_slab(&mut self, c: usize, fr: usize)
        requires
            c < NUM_SIZE_CLASSES,
            fr < old(self).frame_slabs@.len(),
            fr < SLAB_FRAMES_MAX,
            old(self).used@.len() == old(self).frame_slabs@.len(),
            old(self).slabs@.len() == NUM_SIZE_CLASSES,
            old(self).slabs@[c as int].object_size == size_class(c as int),
            old(self).slabs@[c as int].max_free_count == objects_per_slab(c as int),
        ensures
            final(self).slabs == old(self).slabs,
            final(self).frame_slabs@.len() == old(self).frame_slabs@.len(),
            final(self).used@ == old(self).used@.update(fr as int, Set::<u64>::empty()),
            forall|j: int| 0 <= j < old(self).frame_slabs@.len() && j != fr ==> #[trigger] final(self).frame_slabs@[j]
                == old(self).frame_slabs@[j],
            final(self).frame_slabs@[fr as int].cache_index == c,
            final(self).frame_slabs@[fr as int].free_count == objects_per_slab(c as int),
            final(self).frame_slabs@[fr as int].free_list@ == Seq::new(
                objects_per_slab(c as int) as nat,
                |k: int| (frame_virt(fr as int) + k * size_class(c as int)) as u64,
            ),
            slab_state_ok(final(self).frame_slabs@[fr as int], Set::<u64>::empty(), fr as int, fr as int),
    {
        proof {
            lemma_size_class(c as int);
        }
        let size = self.slabs[c].object_size;
        let max = self.slabs[c].max_free_count;
        let base = phys_to_virt((fr as u64) * 4096);
        let mut free_list: Vec<u64> = Vec::new();
        let mut i: u16 = 0;
        let mut off: u64 = 0;
        while i < max
            invariant
                i <= max,
                max == objects_per_slab(c as int),
                size == size_class(c as int),
                8 <= size <= 1024,
                max * size == 4096,
                base == frame_virt(fr as int),
                fr < SLAB_FRAMES_MAX,
                off == i * size,
                off <= 4096,
                free_list@.len() == i,
                forall|k: int| 0 <= k < i ==> #[trigger] free_list@[k] == base + k * size,
                forall|k: int| 0 <= k < i ==> object_in(fr as int, size as int, #[trigger] free_list@[k] as int),
                forall|a: int, b: int| 0 <= a < b < i ==> #[trigger] free_list@[a] < #[trigger] free_list@[b],
                forall|k: int| 0 <= k < i ==> #[trigger] free_list@[k] < base + off,
            decreases max - i,
        {
            assert(off + size <= 4096) by (nonlinear_arith)
                requires
                    i < max,
                    max * size == 4096,
                    off == i * size,
                    size > 0,
            ;
            proof {
                vstd::arithmetic::div_mod::lemma_mod_multiples_basic(i as int, size as int);
                assert((i as int + 1) * (size as int) == (i as int) * (size as int) + size as int) by (nonlinear_arith);
            }
            free_list.push(base + off);
            off = off + size as u64;
            i = i + 1;
        }
        self.frame_slabs.set(fr, SlabList { free_list, free_count: max, cache_index: c as u8 });
        self.used = Ghost(self.used@.update(fr as int, Set::<u64>::empty()));
        proof {
            let sl = self.frame_slabs@[fr as int];
            assert(sl.free_list@ =~= Seq::new(
                objects_per_slab(c as int) as nat,
                |k: int| (frame_virt(fr as int) + k * size_class(c as int)) as u64,
            ));
            assert(Set::<u64>::empty().len() == 0);
        }
    }
}

impl SlubAllocator {
    /// The first listed slab of class `c`, or a new slab of that class made of a frame from
    /// `buddy` when none is listed; `None` when none is listed and `buddy` has no free frame.
    fn grab_slab(&mut self, c: usize, buddy: &mut BuddyAllocator) -> (r: Option<usize>)
        requires
            old(self).wf(*old(buddy)),
            c < NUM_SIZE_CLASSES,
        ensures
            r is None <==> (old(self).class_list(c as int).len() == 0 && !old(buddy).has_free_block(0)),
            r is None ==> *final(self) == *old(self) && *final(buddy) == *old(buddy),
            final(buddy).frames_view().len() == old(buddy).frames_view().len(),
            match r {
                None => true,
                Some(fr) => {
                    &&& final(self).inv(*final(buddy), fr as int)
                    &&& fr < final(buddy).frames_view().len()
                    &&& final(buddy).frames_view()[fr as int].ty == FrameType::Slab
                    &&& final(self).class_list(c as int).len() > 0
                    &&& final(self).class_list(c as int)[0] == fr
                    &&& final(self).frame_slabs_view()[fr as int].cache_index == c
                    &&& final(self).frame_slabs_view()[fr as int].free_count > 0
                    &&& final(self).frame_slabs_view()[fr as int].free_list@[0] == old(self).next_object(*old(buddy), c as int)
                    &&& final(self).live_set(*final(buddy)) == old(self).live_set(*old(buddy))
                    &&& final(buddy).free_set() == (if old(self).class_list(c as int).len() > 0 {
                        old(buddy).free_set()
                    } else {
                        old(buddy).free_set().difference(block_frames(old(buddy).next_block(0), 0))
                    })
                },
            },
    {
        if self.slabs[c].list.len() > 0 {
            let fr = self.slabs[c].list[0];
            proof {
                assert(self.slabs@[c as int].list@.contains(fr));
                let f = buddy.frames_view();
                assert(slab_ok(f, self.frame_slabs@[fr as int], self.used@[fr as int], fr as int, -1));
                assert forall|s: int| 0 <= s < f.len() && f[s].ty == FrameType::Slab implies #[trigger] slab_ok(
                    f, self.frame_slabs@[s], self.used@[s], s, fr as int) by {
                    assert(slab_ok(f, self.frame_slabs@[s], self.used@[s], s, -1));
                }
                assert(self.live_set(*buddy) =~= old(self).live_set(*old(buddy)));
            }
            return Some(fr);
        }
        let addr = match buddy.allocate(0) {
            Some(a) => a,
            None => {
                return None;
            },
        };
        let ghost b1 = *buddy;
        let fr = (addr / 4096) as usize;
        proof {
            crate::buddy::lemma_blen(0);
            assert(block_frames((addr / 4096) as int, 0).contains((addr / 4096) as int));
            assert(old(buddy).free_set().contains((addr / 4096) as int));
            assert(fr as int == (addr / 4096) as int);
            assert(old(buddy).free_set().contains(fr as int));
            if old(buddy).frames_view()[fr as int].ty == FrameType::Slab {
                old(buddy).lemma_not_free(fr as int);
            }
        }
        self.init_slab(c, fr);
        self.slabs[c].list.push(fr);
        buddy.set_slab(fr);
        proof {
            let f0 = old(buddy).frames_view();
            let f = buddy.frames_view();
            let fs0 = old(self).frame_slabs@;
            let fs = self.frame_slabs@;
            assert(self.slabs@[c as int].list@ =~= seq![fr]);
            assert forall|k: int| 0 <= k < NUM_SIZE_CLASSES && k != c implies #[trigger] self.slabs@[k] == old(self).slabs@[k] by {}
            let sl = self.slabs@;
            let sl0 = old(self).slabs@;
            lemma_size_class(c as int);
            assert(fr < f.len());
            assert forall|k: int, x: usize| 0 <= k < NUM_SIZE_CLASSES implies (#[trigger] sl[k].list@.contains(x) <==> (
            x < f.len() && f[x as int].ty == FrameType::Slab && fs[x as int].cache_index == k && fs[x as int].free_count
                > 0)) by {
                assert(f.len() == f0.len());
                if x < f.len() && x != fr {
                    assert(f[x as int] == b1.frames_view()[x as int]);
                    assert(fs[x as int] == fs0[x as int]);
                    assert(f[x as int].ty == FrameType::Slab <==> f0[x as int].ty == FrameType::Slab);
                }
                assert(sl0[k].list@.contains(x) <==> (x < f0.len() && f0[x as int].ty == FrameType::Slab
                    && fs0[x as int].cache_index == k && fs0[x as int].free_count > 0));
                if k == c {
                    assert(sl[k].list@ == seq![fr]);
                    if sl[k].list@.contains(x) {
                        assert(x == fr);
                    }
                    if x == fr {
                        assert(sl[k].list@[0] == fr);
                    }
                    if x < f.len() && x != fr && f[x as int].ty == FrameType::Slab && fs[x as int].cache_index == k
                        && fs[x as int].free_count > 0 {
                        assert(sl0[k].list@.contains(x));
                        assert(sl0[k].list@.len() > 0);
                    }
                } else {
                    assert(sl[k] == sl0[k]);
                    if x == fr {
                        assert(!sl0[k].list@.contains(x));
                    }
                }
            }
            assert forall|s: int| 0 <= s < f.len() && f[s].ty == FrameType::Slab implies #[trigger] slab_ok(
                f, fs[s], self.used@[s], s, fr as int) by {
                if s != fr {
                    assert(f[s] == b1.frames_view()[s]);
                    assert(f0[s].ty == FrameType::Slab);
                    assert(slab_ok(f0, fs0[s], old(self).used@[s], s, -1));
                    old(buddy).lemma_not_free(s);
                    assert(b1.frames_view()[s] == f0[s]);
                }
            }
            assert forall|c2: int| 0 <= c2 < NUM_SIZE_CLASSES implies {
                &&& (#[trigger] self.slabs@[c2]).object_size == size_class(c2)
                &&& self.slabs@[c2].slab_order == 0
                &&& self.slabs@[c2].max_free_count == objects_per_slab(c2)
                &&& self.slabs@[c2].list@.no_duplicates()
            } by {
                if c2 != c {
                    assert(self.slabs@[c2] == old(self).slabs@[c2]);
                }
            }
            assert forall|p: u64| #[trigger] self.live_set(*buddy).contains(p) == old(self).live_set(*old(buddy)).contains(p) by {
                let s = slab_frame(p as int);
                if PHYSICAL_MEMORY_OFFSET <= p && 0 <= s < f.len() && s != fr {
                    assert(f[s] == b1.frames_view()[s]);
                    if f0[s].ty == FrameType::Slab {
                        old(buddy).lemma_not_free(s);
                    }
                }
            }
            assert(self.live_set(*buddy) =~= old(self).live_set(*old(buddy)));
        }
        Some(fr)
    }
}

impl SlubAllocator {
    /// Hands out an object of the least size class that holds `desired_size` bytes: the first
    /// free object of the first listed slab of that class, or of a new slab made of a frame from
    /// `buddy`. `None` when the size is above the largest class, or when the class has no listed
    /// slab and `buddy` no free frame.
    pub fn allocate(&mut self, buddy: &mut BuddyAllocator, desired_size: usize) -> (r: Option<u64>)
        requires
            old(self).wf(*old(buddy)),
        ensures
            final(self).wf(*final(buddy)),
            final(buddy).frames_view().len() == old(buddy).frames_view().len(),
            r is None <==> (desired_size > SLUB_MAX || (old(self).class_list(class_from(desired_size as int, 0)).len() == 0
                && !old(buddy).has_free_block(0))),
            r is None ==> *final(self) == *old(self) && *final(buddy) == *old(buddy),
            match r {
                None => true,
                Some(p) => {
                    let c = class_from(desired_size as int, 0);
                    &&& c < NUM_SIZE_CLASSES
                    &&& desired_size <= size_class(c)
                    &&& p == old(self).next_object(*old(buddy), c)
                    &&& object_in(slab_frame(p as int), size_class(c), p as int)
                    &&& !old(self).live_set(*old(buddy)).contains(p)
                    &&& final(self).live_set(*final(buddy)) == old(self).live_set(*old(buddy)).insert(p)
                    &&& final(buddy).free_set() == (if old(self).class_list(c).len() > 0 {
                        old(buddy).free_set()
                    } else {
                        old(buddy).free_set().difference(block_frames(old(buddy).next_block(0), 0))
                    })
                },
            },
    {
        let (index, _) = match round_up_size(desired_size) {
            Some(p) => p,
            None => {
                return None;
            },
        };
        proof {
            lemma_class_from(desired_size as int, 0, index as int);
            lemma_size_class(index as int);
        }
        let fi = match self.grab_slab(index, buddy) {
            Some(f) => f,
            None => {
                return None;
            },
        };
        let ghost s1 = *self;
        let ghost fs1 = self.frame_slabs@;
        let ghost u1 = self.used@;
        let ghost f = buddy.frames_view();
        proof {
            assert(slab_ok(f, fs1[fi as int], u1[fi as int], fi as int, fi as int));
        }
        let p = self.frame_slabs[fi].free_list.remove(0);
        let count = self.frame_slabs[fi].free_count - 1;
        self.frame_slabs[fi].free_count = count;
        self.used = Ghost(u1.update(fi as int, u1[fi as int].insert(p)));
        let ghost fs2 = self.frame_slabs@;
        let ghost sl2 = self.slabs@;
        if count == 0 {
            proof {
                assert(s1.slabs@[index as int].list@.contains(fi));
            }
            let k = position_of(&self.slabs[index].list, fi);
            self.slabs[index].list.remove(k);
            proof {
                lemma_remove_at(sl2[index as int].list@, k as int);
            }
        }
        proof {
            let fl1 = fs1[fi as int].free_list@;
            let c = index as int;
            let sz = size_class(c);
            assert(fs2[fi as int].free_list@ == fl1.remove(0));
            assert(p == fl1[0]);
            assert(object_in(fi as int, sz, p as int));
            lemma_object_frame(fi as int, sz, p as int);
            assert(!u1[fi as int].contains(p));
            let used2 = u1[fi as int].insert(p);
            assert(used2.len() == u1[fi as int].len() + 1);
            lemma_remove_at_u64(fl1, 0);
            assert(slab_state_ok(fs2[fi as int], used2, fi as int, -1)) by {
                assert forall|i: int| 0 <= i < fl1.remove(0).len() implies object_in(fi as int, sz, #[trigger] fl1.remove(0)[i] as int)
                    && !used2.contains(fl1.remove(0)[i]) by {
                    assert(fl1.remove(0)[i] == fl1[i + 1]);
                    assert(fl1[i + 1] != fl1[0]);
                }
            }
            let fs = self.frame_slabs@;
            assert forall|s: int| 0 <= s < f.len() && f[s].ty == FrameType::Slab implies #[trigger] slab_ok(
                f, fs[s], self.used@[s], s, -1) by {
                if s != fi {
                    assert(slab_ok(f, fs1[s], u1[s], s, fi as int));
                    assert(fs[s] == fs1[s]);
                }
            }
            assert forall|k2: int, x: usize| 0 <= k2 < NUM_SIZE_CLASSES implies (#[trigger] self.slabs@[k2].list@.contains(x) <==> (
            x < f.len() && f[x as int].ty == FrameType::Slab && fs[x as int].cache_index == k2 && fs[x as int].free_count
                > 0)) by {
                assert(s1.slabs@[k2].list@.contains(x) <==> (x < f.len() && f[x as int].ty == FrameType::Slab
                    && fs1[x as int].cache_index == k2 && fs1[x as int].free_count > 0));
                if x != fi && x < f.len() {
                    assert(fs[x as int] == fs1[x as int]);
                }
            }
            assert forall|c2: int| 0 <= c2 < NUM_SIZE_CLASSES implies {
                &&& (#[trigger] self.slabs@[c2]).object_size == size_class(c2)
                &&& self.slabs@[c2].slab_order == 0
                &&& self.slabs@[c2].max_free_count == objects_per_slab(c2)
                &&& self.slabs@[c2].list@.no_duplicates()
            } by {
                assert(s1.slabs@[c2].list@.no_duplicates());
            }
            assert forall|q: u64| #[trigger] self.live_set(*buddy).contains(q) == s1.live_set(*buddy).insert(p).contains(q) by {
                if q == p {
                    lemma_object_frame(fi as int, sz, p as int);
                }
            }
            assert(self.live_set(*buddy) =~= s1.live_set(*buddy).insert(p));
        }
        Some(p)
    }
}

impl SlubAllocator {
    /// Takes back the handed-out object at `object`: it becomes the first free object of its
    /// slab; a slab that had no free object is listed again, and a slab whose objects are now
    /// all free leaves its list and goes back to `buddy`.
    pub fn free(&mut self, buddy: &mut BuddyAllocator, object: u64)
        requires
            old(self).wf(*old(buddy)),
            old(self).live_set(*old(buddy)).contains(object),
        ensures
            final(self).wf(*final(buddy)),
            final(buddy).frames_view().len() == old(buddy).frames_view().len(),
            final(self).live_set(*final(buddy)) == old(self).live_set(*old(buddy)).remove(object),
            ({
                let s = slab_frame(object as int);
                let sl = old(self).frame_slabs_view()[s];
                final(buddy).free_set() == (if sl.free_count + 1 == objects_per_slab(sl.cache_index as int) {
                    old(buddy).free_set().union(block_frames(s, 0))
                } else {
                    old(buddy).free_set()
                })
            }),
    {
        let ghost f0 = old(buddy).frames_view();
        let ghost fs0 = self.frame_slabs@;
        let ghost u0 = self.used@;
        let ghost s0 = slab_frame(object as int);
        proof {
            assert(self.live(*buddy, object));
            assert(slab_ok(f0, fs0[s0], u0[s0], s0, -1));
            lemma_size_class(fs0[s0].cache_index as int);
            lemma_object_frame(s0, size_class(fs0[s0].cache_index as int), object as int);
        }
        let phys = match virt_to_phys(object) {
            Some(p) => p,
            None => {
                proof {
                    assert(false);
                }
                return;
            },
        };
        let fi = (phys / 4096) as usize;
        proof {
            assert(fi as int == s0);
        }
        self.frame_slabs[fi].free_list.insert(0, object);
        let count = self.frame_slabs[fi].free_count + 1;
        self.frame_slabs[fi].free_count = count;
        self.used = Ghost(u0.update(fi as int, u0[fi as int].remove(object)));
        let c = self.frame_slabs[fi].cache_index as usize;
        let ghost fs1 = self.frame_slabs@;
        let ghost u1 = self.used@;
        let ghost sl1 = self.slabs@;
        proof {
            let fl0 = fs0[s0].free_list@;
            let sz = size_class(c as int);
            assert(fs1[s0].free_list@ == fl0.insert(0, object));
            assert(!fl0.contains(object)) by {
                if fl0.contains(object) {
                    let i = choose|i: int| 0 <= i < fl0.len() && fl0[i] == object;
                    assert(!u0[s0].contains(fl0[i]));
                }
            }
            assert(u1[s0].len() + 1 == u0[s0].len());
            assert(fs1[s0].free_list@.no_duplicates()) by {
                assert forall|i: int, m: int| 0 <= i < m < fs1[s0].free_list@.len() implies fs1[s0].free_list@[i]
                    != fs1[s0].free_list@[m] by {
                    if i == 0 {
                        assert(fl0.contains(fs1[s0].free_list@[m]));
                    } else {
                        assert(fs1[s0].free_list@[i] == fl0[i - 1]);
                        assert(fs1[s0].free_list@[m] == fl0[m - 1]);
                    }
                }
            }
            assert forall|i: int| 0 <= i < fs1[s0].free_list@.len() implies object_in(s0, sz, #[trigger] fs1[s0].free_list@[i] as int)
                && !u1[s0].contains(fs1[s0].free_list@[i]) by {
                if i > 0 {
                    assert(fs1[s0].free_list@[i] == fl0[i - 1]);
                }
            }
            assert(slab_state_ok(fs1[s0], u1[s0], s0, s0));
        }
        if count == 1 {
            self.slabs[c].list.push(fi);
            proof {
                assert(!sl1[c as int].list@.contains(fi)) by {
                    if sl1[c as int].list@.contains(fi) {
                        assert(old(self).slabs@[c as int].list@.contains(fi));
                    }
                }
                crate::buddy::lemma_push_new(sl1[c as int].list@, fi);
            }
        } else if count == self.slabs[c].max_free_count {
            proof {
                assert(old(self).slabs@[c as int].list@.contains(fi));
            }
            let k = position_of(&self.slabs[c].list, fi);
            self.slabs[c].list.remove(k);
            proof {
                lemma_remove_at(sl1[c as int].list@, k as int);
            }
            buddy.free((fi as u64) * 4096, self.slabs[c].slab_order as usize);
        }
        proof {
            let f = buddy.frames_view();
            let fs = self.frame_slabs@;
            assert(fs == fs1);
            lemma_size_class(c as int);
            assert forall|s: int| 0 <= s < f.len() && f[s].ty == FrameType::Slab implies #[trigger] slab_ok(
                f, fs[s], self.used@[s], s, -1) by {
                if s != s0 {
                    assert(f0[s].ty == FrameType::Slab);
                    assert(slab_ok(f0, fs0[s], u0[s], s, -1));
                    assert(fs[s] == fs0[s]);
                    if count == objects_per_slab(c as int) {
                        old(buddy).lemma_not_free(s);
                        crate::buddy::lemma_blen(0);
                        assert(((fi as u64) * 4096) / 4096 == fi);
                        assert(!block_frames(fi as int, 0).contains(s));
                        assert(f[s] == f0[s]);
                    }
                }
            }
            assert forall|k2: int, x: usize| 0 <= k2 < NUM_SIZE_CLASSES implies (#[trigger] self.slabs@[k2].list@.contains(x) <==> (
            x < f.len() && f[x as int].ty == FrameType::Slab && fs[x as int].cache_index == k2 && fs[x as int].free_count
                > 0)) by {
                assert(old(self).slabs@[k2].list@.contains(x) <==> (x < f0.len() && f0[x as int].ty == FrameType::Slab
                    && fs0[x as int].cache_index == k2 && fs0[x as int].free_count > 0));
                if x != fi && x < f.len() {
                    assert(fs[x as int] == fs0[x as int]);
                    if f0[x as int].ty == FrameType::Slab && count == objects_per_slab(c as int) {
                        old(buddy).lemma_not_free(x as int);
                    }
                }
            }
            assert forall|c2: int| 0 <= c2 < NUM_SIZE_CLASSES implies {
                &&& (#[trigger] self.slabs@[c2]).object_size == size_class(c2)
                &&& self.slabs@[c2].slab_order == 0
                &&& self.slabs@[c2].max_free_count == objects_per_slab(c2)
                &&& self.slabs@[c2].list@.no_duplicates()
            } by {
                assert(old(self).slabs@[c2].list@.no_duplicates());
            }
            if count == objects_per_slab(c as int) {
                assert(u1[s0].len() == 0);
                assert(u1[s0] =~= Set::<u64>::empty()) by {
                    if u1[s0].len() == 0 {
                        u1[s0].lemma_len0_is_empty();
                    }
                }
            }
            assert forall|q: u64| #[trigger] self.live_set(*buddy).contains(q) == old(self).live_set(*old(buddy)).remove(object).contains(q) by {
                let s = slab_frame(q as int);
                if PHYSICAL_MEMORY_OFFSET <= q && 0 <= s < f.len() && s != s0 && f0[s].ty == FrameType::Slab
                    && count == objects_per_slab(c as int) {
                    old(buddy).lemma_not_free(s);
                }
            }
            assert(self.live_set(*buddy) =~= old(self).live_set(*old(buddy)).remove(object));
        }
    }
}

/// Removing the item at position `k` from a list of addresses without duplicates removes
/// exactly that item.
pub proof fn lemma_remove_at_u64(s: Seq<u64>, k: int)
    requires
        0 <= k < s.len(),
        s.no_duplicates(),
    ensures
        s.remove(k).no_duplicates(),
        forall|x: u64| #[trigger] s.remove(k).contains(x) <==> (s.contains(x) && x != s[k]),
{
    assert forall|x: u64| #[trigger] s.remove(k).contains(x) <==> (s.contains(x) && x != s[k]) by {
        if s.remove(k).contains(x) {
            let i = choose|i: int| 0 <= i < s.remove(k).len() && s.remove(k)[i] == x;
            if i < k {
                assert(s[i] == x);
            } else {
                assert(s[i + 1] == x);
            }
        }
        if s.contains(x) && x != s[k] {
            let i = choose|i: int| 0 <= i < s.len() && s[i] == x;
            if i < k {
                assert(s.remove(k)[i] == x);
            } else {
                assert(i != k);
                assert(s.remove(k)[i - 1] == x);
            }
        }
    }
    assert forall|i: int, m: int| 0 <= i < m < s.remove(k).len() implies s.remove(k)[i] != s.remove(k)[m] by {
        let i1 = if i < k { i } else { i + 1 };
        let m1 = if m < k { m } else { m + 1 };
        assert(s.remove(k)[i] == s[i1]);
        assert(s.remove(k)[m] == s[m1]);
    }
}

/// Taking back an object right after it was handed out leaves handed out exactly the objects
/// that were handed out before.
pub proof fn lemma_free_undoes_allocate(
    slub_before: SlubAllocator,
    buddy_before: BuddyAllocator,
    slub_allocated: SlubAllocator,
    buddy_allocated: BuddyAllocator,
    slub_freed: SlubAllocator,
    buddy_freed: BuddyAllocator,
    p: u64,
)
    requires
        !slub_before.live_set(buddy_before).contains(p),
        slub_allocated.live_set(buddy_allocated) == slub_before.live_set(buddy_before).insert(p),
        slub_freed.live_set(buddy_freed) == slub_allocated.live_set(buddy_allocated).remove(p),
    ensures
        slub_freed.live_set(buddy_freed) == slub_before.live_set(buddy_before),
{
    assert(slub_freed.live_set(buddy_freed) =~= slub_before.live_set(buddy_before));
}

} // verus!
