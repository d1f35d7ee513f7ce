use vstd::prelude::*;

use crate::boot_alloc::align_up_to;
use crate::address_space::{PageBacking, KERNEL_PAGE_FLAGS};
use crate::memory::MemoryError;

verus! {

/// The lowest address the kernel hands out for virtually contiguous allocations.
pub const VIRTUAL_ALLOCATOR_START: u64 = 0xFFFF_A000_0000_0000;

/// The first address past the kernel's virtual allocation area.
pub const VIRTUAL_ALLOCATOR_END: u64 = 0xFFFF_B000_0000_0000;

/// The size of a page frame.
pub const FRAME_SIZE: u64 = 4096;

/// An allocated range `[start, end)` and what it was allocated for.
pub struct Span<V> {
    pub start: u64,
    pub end: u64,
    pub value: V,
}

impl<V> Span<V> {
    pub open spec fn has(&self, a: int) -> bool {
        self.start <= a < self.end
    }
}

/// The addresses of a subtree of an address-ordered span tree: the lowest, the highest, and the
/// longest gap between two of its spans.
#[derive(Clone, Copy, Debug, PartialEq, Eq)]
pub struct MaxGap {
    pub min_addr: u64,
    pub max_addr: u64,
    pub max_gap: u64,
}

impl MaxGap {
    /// The summary of a node from its span and the summaries of its children, which lie below
    /// and above the span.
    pub fn augment<V>(node: &Span<V>, left: &Option<MaxGap>, right: &Option<MaxGap>) -> (r: MaxGap)
        requires
            left matches Some(l) ==> l.max_addr <= node.start,
            right matches Some(rt) ==> node.end <= rt.min_addr,
        ensures
            r.min_addr == match left {
                Some(l) => if l.min_addr < node.start { l.min_addr } else { node.start },
                None => node.start,
            },
            r.max_addr == match right {
                Some(rt) => if rt.max_addr > node.end { rt.max_addr } else { node.end },
                None => node.end,
            },
            ({
                let gl = match left {
                    Some(l) => spec_max_u64(l.max_gap, (node.start - l.max_addr) as u64),
                    None => 0,
                };
                let gr = match right {
                    Some(rt) => spec_max_u64(rt.max_gap, (rt.min_addr - node.end) as u64),
                    None => 0,
                };
                r.max_gap == spec_max_u64(gl, gr)
            }),
    {
        let mut max_gap: u64 = 0;
        let mut min_addr = node.start;
        let mut max_addr = node.end;
        match left {
            Some(l) => {
                if l.max_gap > max_gap {
                    max_gap = l.max_gap;
                }
                if node.start - l.max_addr > max_gap {
                    max_gap = node.start - l.max_addr;
                }
                if l.min_addr < min_addr {
                    min_addr = l.min_addr;
                }
            },
            None => {},
        }
        match right {
            Some(rt) => {
                if rt.max_gap > max_gap {
                    max_gap = rt.max_gap;
                }
                if rt.min_addr - node.end > max_gap {
                    max_gap = rt.min_addr - node.end;
                }
                if rt.max_addr > max_addr {
                    max_addr = rt.max_addr;
                }
            },
            None => {},
        }
        MaxGap { min_addr, max_addr, max_gap }
    }
}

pub open spec fn spec_max_u64(a: u64, b: u64) -> u64 {
    if a >= b {
        a
    } else {
        b
    }
}

/// Why an allocation of address space failed.
#[derive(Clone, Debug)]
pub enum SpanError {
    Memory(MemoryError),
    Exhausted,
}

/// Hands out disjoint ranges of `[range_start, range_end)`, each with a value.
pub struct SpanAlloc<V> {
    spans: Vec<Span<V>>,
    range_start: u64,
    range_end: u64,
}

/// Where gap `k` starts: the end of span `k - 1`, or the start of the range.
pub open spec fn gap_start<V>(s: Seq<Span<V>>, lo: int, k: int) -> int {
    if k == 0 {
        lo
    } else {
        s[k - 1].end as int
    }
}

/// Where gap `k` ends: the start of span `k`, or the end of the range.
pub open spec fn gap_end<V>(s: Seq<Span<V>>, hi: int, k: int) -> int {
    if k == s.len() {
        hi
    } else {
        s[k].start as int
    }
}

pub open spec fn gap_fits<V>(s: Seq<Span<V>>, lo: int, hi: int, k: int, size: int) -> bool {
    gap_end(s, hi, k) - gap_start(s, lo, k) >= size
}

/// Gap `k` is the lowest one that holds `size` addresses.
pub open spec fn first_gap<V>(s: Seq<Span<V>>, lo: int, hi: int, size: int, k: int) -> bool {
    &&& 0 <= k <= s.len()
    &&& gap_fits(s, lo, hi, k, size)
    &&& forall|j: int| 0 <= j < k ==> !#[trigger] gap_fits(s, lo, hi, j, size)
}

impl<V> SpanAlloc<V> {
    pub closed spec fn spans_view(&self) -> Seq<Span<V>> {
        self.spans@
    }

    pub closed spec fn lo(&self) -> u64 {
        self.range_start
    }

    pub closed spec fn hi(&self) -> u64 {
        self.range_end
    }

    /// The spans lie in the range, in address order, without overlapping.
    pub open spec fn wf(&self) -> bool {
        let s = self.spans_view();
        &&& self.lo() <= self.hi()
        &&& forall|i: int| 0 <= i < s.len() ==> self.lo() <= (#[trigger] s[i]).start <= s[i].end <= self.hi()
        &&& forall|i: int, j: int| 0 <= i < j < s.len() ==> (#[trigger] s[i]).end <= (#[trigger] s[j]).start
    }

    /// An allocator of the range `[range_start, range_end)` with nothing allocated.
    pub fn new(range_start: u64, range_end: u64) -> (a: SpanAlloc<V>)
        requires
            range_start <= range_end,
        ensures
            a.wf(),
            a.spans_view().len() == 0,
            a.lo() == range_start,
            a.hi() == range_end,
    {
        SpanAlloc { spans: Vec::new(), range_start, range_end }
    }

    /// The spans, in address order.
    pub fn spans(&self) -> (r: &Vec<Span<V>>)
        ensures
            r@ == self.spans_view(),
    {
        &self.spans
    }

    /// Walks the spans and tells whether they are well formed: inside the range, each ending
    /// no later than the next one starts.
    pub fn check(&self) -> (r: bool)
        ensures
            r == self.wf(),
    {
        let s = &self.spans;
        let n = s.len();
        if self.range_start > self.range_end {
            return false;
        }
        let mut bound = self.range_start;
        let mut i: usize = 0;
        while i < n
            invariant
                n == s@.len(),
                s@ == self.spans@,
                self.range_start <= self.range_end,
                i <= n,
                self.range_start <= bound <= self.range_end,
                i > 0 ==> bound == s@[i - 1].end,
                i == 0 ==> bound == self.range_start,
                forall|k: int| 0 <= k < i ==> self.range_start <= (#[trigger] s@[k]).start <= s@[k].end <= bound,
                forall|j: int, k: int| 0 <= j < k < i ==> (#[trigger] s@[j]).end <= (#[trigger] s@[k]).start,
            decreases n - i,
        {
            let sp = &s[i];
            if sp.start < bound || sp.end < sp.start || sp.end > self.range_end {
                proof {
                    if self.wf() {
                        let t = self.spans_view();
                        assert(t[i as int] == s@[i as int]);
                        assert(self.lo() <= t[i as int].start <= t[i as int].end <= self.hi());
                        if i > 0 {
                            assert(t[i - 1].end <= t[i as int].start);
                        }
                    }
                }
                return false;
            }
            bound = sp.end;
            i = i + 1;
        }
        true
    }

    /// The lowest gap that holds `size` addresses, with its index; the whole range when nothing
    /// is allocated.
    fn find_gap(&self, size: u64) -> (r: Option<(usize, u64, u64)>)
        requires
            self.wf(),
        ensures
            ({
                let s = self.spans_view();
                let lo = self.lo() as int;
                let hi = self.hi() as int;
                match r {
                    Some((k, a, b)) => a == gap_start(s, lo, k as int) && b == gap_end(s, hi, k as int) && if s.len() == 0 {
                        k == 0
                    } else {
                        first_gap(s, lo, hi, size as int, k as int)
                    },
                    None => s.len() > 0 && forall|k: int| 0 <= k <= s.len() ==> !#[trigger] gap_fits(s, lo, hi, k, size as int),
                }
            }),
    {
        let n = self.spans.len();
        if n == 0 {
            return Some((0, self.range_start, self.range_end));
        }
        let mut prev_end = self.range_start;
        let mut k: usize = 0;
        while k < n
            invariant
                self.wf(),
                n == self.spans_view().len(),
                0 <= k <= n,
                prev_end == gap_start(self.spans_view(), self.lo() as int, k as int),
                forall|j: int| 0 <= j < k ==> !#[trigger] gap_fits(self.spans_view(), self.lo() as int, self.hi() as int, j, size as int),
            decreases n - k,
        {
            let next_start = self.spans[k].start;
            proof {
                if k > 0 {
                    assert(self.spans_view()[k - 1].end <= self.spans_view()[k as int].start);
                }
            }
            if next_start - prev_end >= size {
                return Some((k, prev_end, next_start));
            }
            prev_end = self.spans[k].end;
            k = k + 1;
        }
        proof {
            if n > 0 {
                assert(self.spans_view()[n - 1].end <= self.hi());
            }
        }
        if self.range_end - prev_end >= size {
            return Some((n, prev_end, self.range_end));
        }
        None
    }

    /// Allocates `size` addresses for `value` at the start of the lowest gap that holds them,
    /// or answers `Exhausted` where no gap, nor the whole range when nothing is allocated,
    /// holds them.
    pub fn allocate(&mut self, size: u64, value: V) -> (r: Result<(u64, u64), SpanError>)
        requires
            old(self).wf(),
        ensures
            final(self).wf(),
            final(self).lo() == old(self).lo(),
            final(self).hi() == old(self).hi(),
            ({
                let s = old(self).spans_view();
                let lo = old(self).lo() as int;
                let hi = old(self).hi() as int;
                match r {
                    Ok((a, b)) => b == a + size && exists|k: int| {
                        &&& first_gap(s, lo, hi, size as int, k)
                        &&& a == gap_start(s, lo, k)
                        &&& final(self).spans_view() == s.insert(k, Span { start: a, end: b, value })
                    },
                    Err(e) => e is Exhausted
                        && (forall|k: int| 0 <= k <= s.len() ==> !#[trigger] gap_fits(s, lo, hi, k, size as int))
                        && final(self).spans_view() == s,
                }
            }),
    {
        let ghost s = self.spans@;
        match self.find_gap(size) {
            None => Err(SpanError::Exhausted),
            Some((k, a, b)) => {
                if b - a < size {
                    proof {
                        assert forall|j: int| 0 <= j <= s.len() implies !#[trigger] gap_fits(s, self.lo() as int, self.hi() as int, j, size as int) by {
                            assert(j == 0);
                        }
                    }
                    return Err(SpanError::Exhausted);
                }
                let end = a + size;
                let span = Span { start: a, end, value };
                self.spans.insert(k, span);
                proof {
                    let t = self.spans@;
                    assert forall|i: int| 0 <= i < t.len() implies self.lo() <= (#[trigger] t[i]).start <= t[i].end <= self.hi() by {
                        if i < k {
                            assert(t[i] == s[i]);
                        } else if i > k {
                            assert(t[i] == s[i - 1]);
                        }
                    }
                    assert forall|i: int, j: int| 0 <= i < j < t.len() implies (#[trigger] t[i]).end <= (#[trigger] t[j]).start by {
                        if j < k {
                            assert(t[i] == s[i] && t[j] == s[j]);
                        } else if j == k {
                            assert(t[i] == s[i]);
                            if i < k - 1 {
                                assert(s[i].end <= s[k - 1].start);
                            }
                        } else if i > k {
                            assert(t[i] == s[i - 1] && t[j] == s[j - 1]);
                        } else if i == k {
                            assert(t[j] == s[j - 1]);
                            if j - 1 > k {
                                assert(s[k as int].end <= s[j - 1].start);
                            }
                        } else {
                            assert(t[i] == s[i] && t[j] == s[j - 1]);
                        }
                    }
                }
                Ok((a, end))
            },
        }
    }

    /// The value of the span holding `addr`, if any.
    pub fn span_containing(&self, addr: u64) -> (r: Option<&V>)
        requires
            self.wf(),
        ensures
            match r {
                Some(v) => exists|k: int| 0 <= k < self.spans_view().len() && (#[trigger] self.spans_view()[k]).has(addr as int)
                    && *v == self.spans_view()[k].value,
                None => forall|k: int| 0 <= k < self.spans_view().len() ==> !(#[trigger] self.spans_view()[k]).has(addr as int),
            },
    {
        match self.index_containing(addr) {
            Some(k) => Some(&self.spans[k].value),
            None => None,
        }
    }

    /// The index of the span holding `addr`, if any.
    fn index_containing(&self, addr: u64) -> (r: Option<usize>)
        ensures
            match r {
                Some(k) => k < self.spans_view().len() && self.spans_view()[k as int].has(addr as int),
                None => forall|k: int| 0 <= k < self.spans_view().len() ==> !(#[trigger] self.spans_view()[k]).has(addr as int),
            },
    {
        let n = self.spans.len();
        let mut k: usize = 0;
        while k < n
            invariant
                n == self.spans_view().len(),
                0 <= k <= n,
                forall|j: int| 0 <= j < k ==> !(#[trigger] self.spans_view()[j]).has(addr as int),
            decreases n - k,
        {
            if self.spans[k].start <= addr && addr < self.spans[k].end {
                return Some(k);
            }
            k = k + 1;
        }
        None
    }

    /// Frees the span holding `addr`, which must exist; returns its range and value.
    pub fn free(&mut self, addr: u64) -> (r: ((u64, u64), V))
        requires
            old(self).wf(),
            exists|k: int| 0 <= k < old(self).spans_view().len() && (#[trigger] old(self).spans_view()[k]).has(addr as int),
        ensures
            final(self).wf(),
            final(self).lo() == old(self).lo(),
            final(self).hi() == old(self).hi(),
            exists|k: int| {
                &&& 0 <= k < old(self).spans_view().len()
                &&& (#[trigger] old(self).spans_view()[k]).has(addr as int)
                &&& r.0 == (old(self).spans_view()[k].start, old(self).spans_view()[k].end)
                &&& r.1 == old(self).spans_view()[k].value
                &&& final(self).spans_view() == old(self).spans_view().remove(k)
            },
    {
        let ghost s = self.spans@;
        let k = match self.index_containing(addr) {
            Some(k) => k,
            None => {
                proof {
                    let j = choose|j: int| 0 <= j < s.len() && (#[trigger] s[j]).has(addr as int);
                    assert(!s[j].has(addr as int));
                }
                0
            },
        };
        let span = self.spans.remove(k);
        proof {
            let t = self.spans@;
            assert forall|i: int, j: int| 0 <= i < j < t.len() implies (#[trigger] t[i]).end <= (#[trigger] t[j]).start by {
                if j < k {
                    assert(t[i] == s[i] && t[j] == s[j]);
                } else if i >= k {
                    assert(t[i] == s[i + 1] && t[j] == s[j + 1]);
                } else {
                    assert(t[i] == s[i] && t[j] == s[j + 1]);
                }
            }
            assert forall|i: int| 0 <= i < t.len() implies self.lo() <= (#[trigger] t[i]).start <= t[i].end <= self.hi() by {
                if i < k {
                    assert(t[i] == s[i]);
                } else {
                    assert(t[i] == s[i + 1]);
                }
            }
        }
        ((span.start, span.end), span.value)
    }
}

/// The guard pages kept free below and above a virtual allocation.
#[derive(Clone, Copy, Debug)]
pub struct VirtualAllocation {
    pub guard_bottom: usize,
    pub guard_top: usize,
}

/// How many bytes of unmapped guard space to keep below and above an allocation.
#[derive(Clone, Copy, Debug)]
pub struct AllocSettings {
    pub guard_bottom: usize,
    pub guard_top: usize,
}

impl Default for AllocSettings {
    fn default() -> (s: AllocSettings)
        ensures
            s.guard_bottom == 0,
            s.guard_top == 0,
    {
        AllocSettings { guard_bottom: 0, guard_top: 0 }
    }
}

/// What reserving `size` bytes with the guards of `settings` makes of `v0`: `v1` and the
/// answer `r`. The span of the reservation goes into the lowest gap that holds the size and
/// both guards rounded up to whole frames; the range handed back starts the unrounded
/// `settings.guard_bottom` bytes into it and ends `settings.guard_top` bytes before its end.
/// Where no gap holds it, the answer is `OutOfVirtual` and nothing changes.
pub open spec fn reserve_result(
    v0: VirtualAllocator,
    v1: VirtualAllocator,
    size: usize,
    settings: AllocSettings,
    r: Result<(u64, u64), MemoryError>,
) -> bool {
    let s = v0.spans_view();
    let lo = VIRTUAL_ALLOCATOR_START as int;
    let hi = VIRTUAL_ALLOCATOR_END as int;
    let gb = align_up_to(settings.guard_bottom as int, FRAME_SIZE as int);
    let gt = align_up_to(settings.guard_top as int, FRAME_SIZE as int);
    let total = align_up_to(size as int, FRAME_SIZE as int) + gb + gt;
    match r {
        Ok((a, b)) => (a - settings.guard_bottom) % (FRAME_SIZE as int) == 0 && exists|k: int| {
            &&& first_gap(s, lo, hi, total, k)
            &&& a == gap_start(s, lo, k) + settings.guard_bottom
            &&& b == gap_start(s, lo, k) + total - settings.guard_top
            &&& v1.spans_view() == s.insert(k, Span {
                start: gap_start(s, lo, k) as u64,
                end: (gap_start(s, lo, k) + total) as u64,
                value: VirtualAllocation { guard_bottom: gb as usize, guard_top: gt as usize },
            })
        },
        Err(e) => e == MemoryError::OutOfVirtual
            && (forall|k: int| 0 <= k <= s.len() ==> !#[trigger] gap_fits(s, lo, hi, k, total))
            && v1.spans_view() == s,
    }
}

/// What giving back the reservation whose range starts at `addr` makes of `v0`: its span
/// leaves, and the range handed out for it comes back as `r`.
pub open spec fn release_result(v0: VirtualAllocator, v1: VirtualAllocator, addr: u64, r: (u64, u64)) -> bool {
    exists|k: int| {
        &&& 0 <= k < v0.spans_view().len()
        &&& (#[trigger] v0.spans_view()[k]).has(addr as int)
        &&& r == (addr, (v0.spans_view()[k].end - v0.spans_view()[k].value.guard_top) as u64)
        &&& v1.spans_view() == v0.spans_view().remove(k)
    }
}

/// The number of frame-sized steps from `start` that fall below `end`.
pub open spec fn page_steps(start: u64, end: u64) -> int {
    (end - start + 4095) / 4096
}

/// The pages that back the range `[start, end)` of the virtual allocation area: one at each
/// frame-sized step from `start` below `end`, each a fresh frame with the kernel's flags.
pub fn backing_pages(start: u64, end: u64) -> (r: Vec<PageBacking>)
    requires
        start <= end,
    ensures
        r@.len() == page_steps(start, end),
        forall|k: int| 0 <= k < r@.len() ==> #[trigger] r@[k] == (PageBacking { page: (start + 4096 * k) as u64, flags: KERNEL_PAGE_FLAGS }),
{
    let len = end - start;
    let n: u64 = len / 4096 + if len % 4096 == 0 { 0 } else { 1 };
    proof {
        assert(n == page_steps(start, end)) by (nonlinear_arith)
            requires
                len == end - start,
                n == len / 4096 + if len % 4096 == 0 { 0int } else { 1int },
        {
            vstd::arithmetic::div_mod::lemma_fundamental_div_mod(len as int, 4096);
            vstd::arithmetic::div_mod::lemma_fundamental_div_mod(len + 4095, 4096);
        }
    }
    let mut r: Vec<PageBacking> = Vec::new();
    let mut i: u64 = 0;
    while i < n
        invariant
            n == page_steps(start, end),
            start <= end,
            i <= n,
            r@.len() == i,
            forall|k: int| 0 <= k < i ==> #[trigger] r@[k] == (PageBacking { page: (start + 4096 * k) as u64, flags: KERNEL_PAGE_FLAGS }),
        decreases n - i,
    {
        proof {
            assert(4096 * i < end - start) by (nonlinear_arith)
                requires
                    i < n,
                    n == (end - start + 4095) / 4096,
                    start <= end,
            {
                vstd::arithmetic::div_mod::lemma_fundamental_div_mod((end - start + 4095) as int, 4096);
            }
        }
        r.push(PageBacking { page: start + 4096 * i, flags: KERNEL_PAGE_FLAGS });
        i = i + 1;
    }
    r
}

/// The kernel's allocator of virtually contiguous memory: it hands out address ranges of the
/// virtual allocation area, with guard space around them.
pub struct VirtualAllocator {
    spans: SpanAlloc<VirtualAllocation>,
}

/// A count rounded up to whole frames is a whole number of frames.
proof fn lemma_round_up_multiple(x: int)
    requires
        x >= 0,
    ensures
        align_up_to(x, FRAME_SIZE as int) % (FRAME_SIZE as int) == 0,
{
    if x % 4096 != 0 {
        assert((x - x % 4096 + 4096) % 4096 == 0) by (nonlinear_arith)
            requires
                x >= 0,
        {
            vstd::arithmetic::div_mod::lemma_fundamental_div_mod(x, 4096);
            vstd::arithmetic::div_mod::lemma_mod_multiples_basic(x / 4096 + 1, 4096);
        }
    }
}

/// `x` rounded up to a whole number of frames.
fn frame_round_up(x: usize) -> (r: usize)
    requires
        align_up_to(x as int, FRAME_SIZE as int) <= usize::MAX,
    ensures
        r == align_up_to(x as int, FRAME_SIZE as int),
{
    let rem = x % 4096;
    proof {
        assert(rem <= x) by (nonlinear_arith)
            requires
                rem == x % 4096,
        ;
    }
    if rem == 0 {
        x
    } else {
        x - rem + 4096
    }
}

impl VirtualAllocator {
    pub closed spec fn spans_view(&self) -> Seq<Span<VirtualAllocation>> {
        self.spans.spans_view()
    }

    /// The allocator covers the virtual allocation area and every span holds its guards.
    pub closed spec fn wf(&self) -> bool {
        &&& self.spans.wf()
        &&& self.spans.lo() == VIRTUAL_ALLOCATOR_START
        &&& self.spans.hi() == VIRTUAL_ALLOCATOR_END
        &&& forall|i: int| 0 <= i < self.spans_view().len() ==> (#[trigger] self.spans_view()[i]).start
            + self.spans_view()[i].value.guard_bottom + self.spans_view()[i].value.guard_top <= self.spans_view()[i].end
        &&& forall|i: int| 0 <= i < self.spans_view().len() ==> (#[trigger] self.spans_view()[i]).start % FRAME_SIZE == 0
            && self.spans_view()[i].end % FRAME_SIZE == 0
    }

    /// Whether `addr` starts the range handed out for one of the reservations.
    pub open spec fn holds_start(&self, addr: u64) -> bool {
        exists|k: int| 0 <= k < self.spans_view().len() && (#[trigger] self.spans_view()[k]).has(addr as int)
            && self.spans_view()[k].start + self.spans_view()[k].value.guard_bottom == addr
    }

    /// An allocator with nothing allocated.
    pub fn new() -> (a: VirtualAllocator)
        ensures
            a.wf(),
            a.spans_view().len() == 0,
    {
        VirtualAllocator { spans: SpanAlloc::new(VIRTUAL_ALLOCATOR_START, VIRTUAL_ALLOCATOR_END) }
    }

    fn err_map(err: SpanError) -> (e: MemoryError)
        ensures
            e == match err {
                SpanError::Memory(m) => m,
                SpanError::Exhausted => MemoryError::OutOfVirtual,
            },
    {
        match err {
            SpanError::Memory(memory_error) => memory_error,
            SpanError::Exhausted => MemoryError::OutOfVirtual,
        }
    }

    /// Reserves address space for `size` bytes aligned to at most a frame, with the guards of
    /// `settings` (rounded up to whole frames) kept free around it; returns the range to map.
    /// Every reserved span starts and ends on a frame boundary. The range handed back starts
    /// `settings.guard_bottom` bytes into its span and ends `settings.guard_top` bytes before
    /// its end, the guards as given rather than rounded: it is frame-aligned exactly when
    /// `settings.guard_bottom` is a multiple of a frame.
    pub fn allocate(&mut self, size: usize, align: usize, settings: AllocSettings) -> (r: Result<(u64, u64), MemoryError>)
        requires
            old(self).wf(),
            align <= FRAME_SIZE,
            align_up_to(size as int, FRAME_SIZE as int) <= isize::MAX,
            align_up_to(settings.guard_bottom as int, FRAME_SIZE as int) <= usize::MAX,
            align_up_to(settings.guard_top as int, FRAME_SIZE as int) <= usize::MAX,
            align_up_to(size as int, FRAME_SIZE as int) + align_up_to(settings.guard_bottom as int, FRAME_SIZE as int)
                + align_up_to(settings.guard_top as int, FRAME_SIZE as int) <= usize::MAX,
        ensures
            final(self).wf(),
            reserve_result(*old(self), *final(self), size, settings, r),
    {
        let guard_bottom = frame_round_up(settings.guard_bottom);
        let guard_top = frame_round_up(settings.guard_top);
        let al = if align > 4096 { align } else { 4096 };
        assert(al == FRAME_SIZE);
        let padded = frame_round_up(size);
        let total_size = padded + guard_bottom + guard_top;
        let allocation = VirtualAllocation { guard_bottom, guard_top };
        let ghost s = self.spans_view();
        match self.spans.allocate(total_size as u64, allocation) {
            Err(e) => Err(Self::err_map(e)),
            Ok((ts, te)) => {
                proof {
                    let t = self.spans_view();
                    let k = choose|k: int| {
                        &&& first_gap(s, VIRTUAL_ALLOCATOR_START as int, VIRTUAL_ALLOCATOR_END as int, total_size as int, k)
                        &&& ts == gap_start(s, VIRTUAL_ALLOCATOR_START as int, k)
                        &&& t == s.insert(k, Span { start: ts, end: te, value: allocation })
                    };
                    assert(ts % FRAME_SIZE == 0) by {
                        if k > 0 {
                            assert(s[k - 1].end % FRAME_SIZE == 0);
                        }
                    }
                    assert(total_size % 4096 == 0) by {
                        lemma_round_up_multiple(size as int);
                        lemma_round_up_multiple(settings.guard_bottom as int);
                        lemma_round_up_multiple(settings.guard_top as int);
                        vstd::arithmetic::div_mod::lemma_mod_adds(padded as int, guard_bottom as int, 4096);
                        vstd::arithmetic::div_mod::lemma_mod_adds((padded + guard_bottom) as int, guard_top as int, 4096);
                    }
                    assert(te % FRAME_SIZE == 0);
                    assert forall|i: int| 0 <= i < t.len() implies (#[trigger] t[i]).start % FRAME_SIZE == 0
                        && t[i].end % FRAME_SIZE == 0 by {
                        if i < k {
                            assert(t[i] == s[i]);
                        } else if i > k {
                            assert(t[i] == s[i - 1]);
                        }
                    }
                    assert forall|i: int| 0 <= i < t.len() implies (#[trigger] t[i]).start + t[i].value.guard_bottom
                        + t[i].value.guard_top <= t[i].end by {
                        if i < k {
                            assert(t[i] == s[i]);
                        } else if i > k {
                            assert(t[i] == s[i - 1]);
                        }
                    }
                }
                Ok((ts + settings.guard_bottom as u64, te - settings.guard_top as u64))
            },
        }
    }

    /// Gives back the address space holding `addr` after mapping its pages failed.
    pub fn abandon(&mut self, addr: u64)
        requires
            old(self).wf(),
            exists|k: int| 0 <= k < old(self).spans_view().len() && (#[trigger] old(self).spans_view()[k]).has(addr as int),
        ensures
            final(self).wf(),
            exists|k: int| 0 <= k < old(self).spans_view().len() && (#[trigger] old(self).spans_view()[k]).has(addr as int)
                && final(self).spans_view() == old(self).spans_view().remove(k),
    {
        let ghost s = self.spans_view();
        let _ = self.spans.free(addr);
        proof {
            let t = self.spans_view();
            let k = choose|k: int| 0 <= k < s.len() && (#[trigger] s[k]).has(addr as int) && t == s.remove(k);
            assert forall|i: int| 0 <= i < t.len() implies (#[trigger] t[i]).start + t[i].value.guard_bottom
                + t[i].value.guard_top <= t[i].end by {
                if i < k {
                    assert(t[i] == s[i]);
                } else {
                    assert(t[i] == s[i + 1]);
                }
            }
        }
    }

    /// Frees the allocation whose usable part starts at `addr`; returns the range to unmap.
    pub fn free(&mut self, addr: u64) -> (r: (u64, u64))
        requires
            old(self).wf(),
            old(self).holds_start(addr),
        ensures
            final(self).wf(),
            release_result(*old(self), *final(self), addr, r),
    {
        let ghost s = self.spans_view();
        let ((start, end), allocation) = self.spans.free(addr);
        proof {
            let t = self.spans_view();
            let k = choose|k: int| {
                &&& 0 <= k < s.len()
                &&& (#[trigger] s[k]).has(addr as int)
                &&& (start, end) == (s[k].start, s[k].end)
                &&& allocation == s[k].value
                &&& t == s.remove(k)
            };
            let k2 = choose|k: int| 0 <= k < s.len() && (#[trigger] s[k]).has(addr as int)
                && s[k].start + s[k].value.guard_bottom == addr;
            if k2 < k {
                assert(s[k2].end <= s[k].start);
            } else if k < k2 {
                assert(s[k].end <= s[k2].start);
            }
            assert forall|i: int| 0 <= i < t.len() implies (#[trigger] t[i]).start + t[i].value.guard_bottom
                + t[i].value.guard_top <= t[i].end by {
                if i < k {
                    assert(t[i] == s[i]);
                } else {
                    assert(t[i] == s[i + 1]);
                }
            }
        }
        (start + allocation.guard_bottom as u64, end - allocation.guard_top as u64)
    }
}

/// Freeing the span that an allocation just inserted at position `k` leaves the spans as they
/// were before it.
pub proof fn lemma_allocate_then_free<V>(before: Seq<Span<V>>, k: int, span: Span<V>)
    requires
        0 <= k <= before.len(),
    ensures
        before.insert(k, span)[k] == span,
        before.insert(k, span).remove(k) == before,
{
    assert(before.insert(k, span).remove(k) =~= before);
}

} // verus!
