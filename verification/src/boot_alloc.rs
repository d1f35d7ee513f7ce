use vstd::prelude::*;

use crate::multiboot::MultibootMmapEntry;

verus! {

/// What a span of physical memory is used for.
#[derive(Clone, Copy, PartialEq, Eq, Debug, Structural)]
pub enum SpanType {
    Reserved,
    InUse,
    Reclaimable,
    Free,
}

impl SpanType {
    /// Every page that may ever be handed out needs a frame record.
    pub fn needs_frameinfo(self) -> (r: bool)
        ensures
            r == !(self is Reserved),
    {
        match self {
            SpanType::Reserved => false,
            SpanType::InUse | SpanType::Reclaimable | SpanType::Free => true,
        }
    }

    /// Memory that becomes available once booting is over.
    pub fn is_usable(self) -> (r: bool)
        ensures
            r == usable(self),
    {
        match self {
            SpanType::Reserved | SpanType::InUse => false,
            SpanType::Reclaimable | SpanType::Free => true,
        }
    }
}

pub open spec fn usable(t: SpanType) -> bool {
    t is Reclaimable || t is Free
}

/// The physical addresses `[start, end)`, all of one type.
#[derive(Clone, Copy, Debug)]
pub struct Span {
    pub start: u64,
    pub end: u64,
    pub span_type: SpanType,
}

impl Span {
    pub open spec fn has(self, a: int) -> bool {
        self.start <= a < self.end
    }

    /// The span lies wholly inside `[lo, hi)` or wholly outside it.
    pub open spec fn apart_or_inside(self, lo: int, hi: int) -> bool {
        hi <= lo || self.end <= lo || hi <= self.start || (lo <= self.start && self.end <= hi)
    }
}

/// The length of the longest free span below a node of an address-ordered span tree.
#[derive(Clone, Copy, Debug)]
pub struct MaxFree(pub u64);

impl MaxFree {
    /// The summary of a node: the longest of its own span, where free, and of the summaries of
    /// its children.
    pub fn augment(node: &Span, left: &Option<MaxFree>, right: &Option<MaxFree>) -> (r: MaxFree)
        requires
            node.start <= node.end,
        ensures
            ({
                let own = if node.span_type is Free { node.end - node.start } else { 0 };
                let l = match left { Some(m) => m.0 as int, None => 0 };
                let rr = match right { Some(m) => m.0 as int, None => 0 };
                r.0 >= own && r.0 >= l && r.0 >= rr && (r.0 == own || r.0 == l || r.0 == rr)
            }),
    {
        let a = if node.span_type == SpanType::Free { node.end - node.start } else { 0 };
        let l = match left {
            Some(m) => m.0,
            None => 0,
        };
        let r = match right {
            Some(m) => m.0,
            None => 0,
        };
        let m1 = if a >= l { a } else { l };
        MaxFree(if m1 >= r { m1 } else { r })
    }
}

/// The spans are non-empty and strictly ordered by address.
pub open spec fn spans_wf(s: Seq<Span>) -> bool {
    &&& forall|i: int| 0 <= i < s.len() ==> (#[trigger] s[i]).start < s[i].end
    &&& forall|i: int, j: int| 0 <= i < j < s.len() ==> (#[trigger] s[i]).end <= (#[trigger] s[j]).start
}

/// The type of the span holding address `a`, if any.
pub open spec fn type_at(s: Seq<Span>, a: int) -> Option<SpanType> {
    if exists|k: int| 0 <= k < s.len() && (#[trigger] s[k]).has(a) {
        Some(s[choose|k: int| 0 <= k < s.len() && (#[trigger] s[k]).has(a)].span_type)
    } else {
        None
    }
}

/// What an update of `[lo, hi)` leaves at address `a`: an output of `f` on the old type
/// inside the range, the old type outside it.
pub open spec fn updated_at<F: Fn(Option<SpanType>) -> SpanType>(
    f: F,
    old: Seq<Span>,
    new: Seq<Span>,
    lo: int,
    hi: int,
    a: int,
) -> bool {
    if lo <= a < hi {
        type_at(new, a) matches Some(t) && f.ensures((type_at(old, a),), t)
    } else {
        type_at(new, a) == type_at(old, a)
    }
}

pub proof fn lemma_type_at_in(s: Seq<Span>, k: int, a: int)
    requires
        spans_wf(s),
        0 <= k < s.len(),
        s[k].has(a),
    ensures
        type_at(s, a) == Some(s[k].span_type),
{
    let c = choose|c: int| 0 <= c < s.len() && (#[trigger] s[c]).has(a);
    assert(0 <= c < s.len() && s[c].has(a));
    if c < k {
        assert(s[c].end <= s[k].start);
    } else if k < c {
        assert(s[k].end <= s[c].start);
    }
}

proof fn lemma_type_at_none(s: Seq<Span>, a: int)
    requires
        forall|k: int| 0 <= k < s.len() ==> !(#[trigger] s[k]).has(a),
    ensures
        type_at(s, a) == None::<SpanType>,
{
}

/// Before the span at `i` and after the one before it, no span holds an address.
proof fn lemma_type_at_gap(s: Seq<Span>, i: int, lo: int, a: int)
    requires
        spans_wf(s),
        0 <= i <= s.len(),
        i > 0 ==> lo == s[i - 1].end,
        lo <= a,
        i < s.len() ==> a < s[i].start,
    ensures
        type_at(s, a) == None::<SpanType>,
{
    assert forall|k: int| 0 <= k < s.len() implies !(#[trigger] s[k]).has(a) by {
        if k < i {
            if k < i - 1 {
                assert(s[k].end <= s[i - 1].start);
            }
        } else if k > i {
            assert(s[i].end <= s[k].start);
        }
    }
}

/// Appending a span above all spans keeps the order and only adds its addresses.
proof fn lemma_push_span(s: Seq<Span>, p: Span)
    requires
        spans_wf(s),
        p.start < p.end,
        forall|k: int| 0 <= k < s.len() ==> (#[trigger] s[k]).end <= p.start,
    ensures
        spans_wf(s.push(p)),
        forall|a: int| #[trigger] type_at(s.push(p), a) == if p.has(a) {
            Some(p.span_type)
        } else {
            type_at(s, a)
        },
{
    let t = s.push(p);
    assert forall|i: int, j: int| 0 <= i < j < t.len() implies (#[trigger] t[i]).end <= (#[trigger] t[j]).start by {
        assert(t[i] == s[i]);
        if j < s.len() {
            assert(t[j] == s[j]);
        }
    }
    assert forall|a: int| #[trigger] type_at(t, a) == if p.has(a) {
        Some(p.span_type)
    } else {
        type_at(s, a)
    } by {
        if p.has(a) {
            lemma_type_at_in(t, s.len() as int, a);
        } else if exists|k: int| 0 <= k < s.len() && (#[trigger] s[k]).has(a) {
            let k = choose|k: int| 0 <= k < s.len() && (#[trigger] s[k]).has(a);
            lemma_type_at_in(s, k, a);
            assert(t[k] == s[k]);
            lemma_type_at_in(t, k, a);
        } else {
            assert forall|k: int| 0 <= k < t.len() implies !(#[trigger] t[k]).has(a) by {
                if k < s.len() {
                    assert(t[k] == s[k]);
                }
            }
        }
    }
}

/// The least multiple of `al` at or above `a`.
pub open spec fn align_up_to(a: int, al: int) -> int {
    if a % al == 0 {
        a
    } else {
        a - a % al + al
    }
}

/// An alignment raised to at least a whole page.
pub open spec fn page_align(align: int) -> int {
    if align > 4096 {
        align
    } else {
        4096
    }
}

/// `sz` bytes fit in free span `t` from its first `al`-aligned address.
pub open spec fn fits(t: Span, al: int, sz: int) -> bool {
    &&& t.span_type is Free
    &&& {
        let st = align_up_to(t.start as int, al);
        (if t.end > st { t.end - st } else { 0 }) >= sz
    }
}

/// Span `k` is the lowest one in which the request fits.
pub open spec fn first_fit(s: Seq<Span>, al: int, sz: int, k: int) -> bool {
    &&& 0 <= k < s.len()
    &&& fits(s[k], al, sz)
    &&& forall|j: int| 0 <= j < k ==> !fits(#[trigger] s[j], al, sz)
}

/// The spans with every run of touching spans of one type merged into one.
pub open spec fn merged(s: Seq<Span>) -> Seq<Span>
    decreases s.len(),
{
    if s.len() == 0 {
        Seq::empty()
    } else {
        let m = merged(s.drop_last());
        let r = s.last();
        if m.len() > 0 && m.last().end == r.start && m.last().span_type == r.span_type {
            m.update(m.len() - 1, Span { start: m.last().start, end: r.end, span_type: r.span_type })
        } else {
            m.push(r)
        }
    }
}

/// No two neighbouring spans touch and have the same type.
pub open spec fn maximal(s: Seq<Span>) -> bool {
    forall|i: int, j: int| 0 <= i && j == i + 1 && j < s.len()
        ==> !((#[trigger] s[i]).end == (#[trigger] s[j]).start && s[i].span_type == s[j].span_type)
}

/// Every span of `t` starts where one of the first `n` spans of `s` starts, with its type.
#[verifier::opaque]
pub open spec fn starts_within(t: Seq<Span>, s: Seq<Span>, n: int) -> bool {
    forall|k: int| 0 <= k < t.len() ==> exists|j: int|
        0 <= j < n && (#[trigger] t[k]).start == (#[trigger] s[j]).start && t[k].span_type == s[j].span_type
}

proof fn lemma_starts_within_set(t: Seq<Span>, s: Seq<Span>, n: int, m: Span)
    requires
        starts_within(t, s, n),
        t.len() > 0,
        m.start == t.last().start,
        m.span_type == t.last().span_type,
    ensures
        starts_within(t.update(t.len() - 1, m), s, n + 1),
{
    reveal(starts_within);
    let u = t.update(t.len() - 1, m);
    assert forall|k: int| 0 <= k < u.len() implies exists|j: int|
        0 <= j < n + 1 && (#[trigger] u[k]).start == (#[trigger] s[j]).start && u[k].span_type == s[j].span_type by {
        let j = choose|j: int| 0 <= j < n && (#[trigger] t[k]).start == (#[trigger] s[j]).start && t[k].span_type == s[j].span_type;
        assert(u[k].start == s[j].start);
    }
}

proof fn lemma_starts_within_push(t: Seq<Span>, s: Seq<Span>, n: int)
    requires
        starts_within(t, s, n),
        0 <= n < s.len(),
    ensures
        starts_within(t.push(s[n]), s, n + 1),
{
    reveal(starts_within);
    let u = t.push(s[n]);
    assert forall|k: int| 0 <= k < u.len() implies exists|j: int|
        0 <= j < n + 1 && (#[trigger] u[k]).start == (#[trigger] s[j]).start && u[k].span_type == s[j].span_type by {
        if k == t.len() {
            assert(u[k] == s[n]);
        } else {
            let j = choose|j: int| 0 <= j < n && (#[trigger] t[k]).start == (#[trigger] s[j]).start && t[k].span_type == s[j].span_type;
            assert(u[k] == t[k]);
        }
    }
}

/// Stretching the last span upwards keeps the order and only adds the new addresses.
proof fn lemma_extend_last(s: Seq<Span>, m: Span)
    requires
        spans_wf(s),
        s.len() > 0,
        m.start == s.last().start,
        m.end >= s.last().end,
        m.span_type == s.last().span_type,
    ensures
        spans_wf(s.update(s.len() - 1, m)),
        forall|a: int| #[trigger] type_at(s.update(s.len() - 1, m), a) == if m.has(a) {
            Some(m.span_type)
        } else {
            type_at(s, a)
        },
{
    let d = s.drop_last();
    assert(s.update(s.len() - 1, m) =~= d.push(m));
    assert(s =~= d.push(s.last()));
    assert(spans_wf(d)) by {
        assert forall|i: int, j: int| 0 <= i < j < d.len() implies (#[trigger] d[i]).end <= (#[trigger] d[j]).start by {
            assert(d[i] == s[i] && d[j] == s[j]);
        }
    }
    assert forall|k: int| 0 <= k < d.len() implies (#[trigger] d[k]).end <= m.start by {
        assert(d[k] == s[k]);
        assert(s[k].end <= s[s.len() - 1].start);
    }
    lemma_push_span(d, m);
    lemma_push_span(d, s.last());
}

/// Physical addresses stop below this bound.
pub const PHYS_ADDR_LIMIT: u64 = 0x0010_0000_0000_0000;

/// The greatest multiple of `al` at or below `a`.
pub open spec fn align_down_to(a: int, al: int) -> int {
    a - a % al
}

/// The page-aligned part of `[a, b)`, where it holds a whole page.
pub open spec fn page_range(a: u64, b: u64) -> Seq<(u64, u64)> {
    let lo = align_up_to(a as int, 4096);
    let hi = align_down_to(b as int, 4096);
    if lo < hi {
        seq![(lo as u64, hi as u64)]
    } else {
        seq![]
    }
}

/// The page-aligned parts of the runs of touching usable spans from span `i` on, where `run`
/// is the run still open before span `i`.
pub open spec fn usable_ranges(s: Seq<Span>, i: int, run: Option<(u64, u64)>) -> Seq<(u64, u64)>
    decreases s.len() - i,
{
    let flushed = match run {
        Some((a, b)) => page_range(a, b),
        None => seq![],
    };
    if i < 0 || i >= s.len() {
        flushed
    } else if usable(s[i].span_type) {
        match run {
            Some((a, b)) => if b == s[i].start {
                usable_ranges(s, i + 1, Some((a, s[i].end)))
            } else {
                flushed + usable_ranges(s, i + 1, Some((s[i].start, s[i].end)))
            },
            None => usable_ranges(s, i + 1, Some((s[i].start, s[i].end))),
        }
    } else {
        flushed + usable_ranges(s, i + 1, None)
    }
}

/// Some usable span holds address `x`.
pub open spec fn usable_addr(s: Seq<Span>, x: int) -> bool {
    exists|k: int| 0 <= k < s.len() && (#[trigger] s[k]).has(x) && usable(s[k].span_type)
}

/// Ranges of whole pages from `lower` up, in ascending order with room between them, over
/// usable memory of `s` only.
pub open spec fn page_ranges_ok(s: Seq<Span>, r: Seq<(u64, u64)>, lower: int) -> bool {
    &&& forall|k: int| 0 <= k < r.len() ==> {
        &&& (#[trigger] r[k]).0 % 4096 == 0
        &&& r[k].1 % 4096 == 0
        &&& lower <= r[k].0 < r[k].1
    }
    &&& forall|j: int, k: int| 0 <= j < k < r.len() ==> (#[trigger] r[j]).1 < (#[trigger] r[k]).0
    &&& forall|k: int, x: int| 0 <= k < r.len() && (#[trigger] r[k]).0 <= x < r[k].1 ==> #[trigger] usable_addr(s, x)
}

/// The page-aligned part of `[a, b)` lies within it and is made of whole pages.
proof fn lemma_page_range(a: u64, b: u64)
    ensures
        forall|k: int| 0 <= k < page_range(a, b).len() ==> {
            let r = #[trigger] page_range(a, b)[k];
            &&& r.0 % 4096 == 0
            &&& r.1 % 4096 == 0
            &&& a <= r.0 < r.1 <= b
        },
        page_range(a, b).len() <= 1,
{
    let lo = align_up_to(a as int, 4096);
    let hi = align_down_to(b as int, 4096);
    vstd::arithmetic::div_mod::lemma_fundamental_div_mod(a as int, 4096);
    vstd::arithmetic::div_mod::lemma_fundamental_div_mod(b as int, 4096);
    assert(hi == (b as int / 4096) * 4096);
    vstd::arithmetic::div_mod::lemma_mod_multiples_basic(b as int / 4096, 4096);
    if a % 4096 != 0 {
        assert(lo == (a as int / 4096 + 1) * 4096);
        vstd::arithmetic::div_mod::lemma_mod_multiples_basic(a as int / 4096 + 1, 4096);
    }
}

/// Two lists of ranges, the second beginning above the end of every range of the first, make
/// one list of ranges.
proof fn lemma_page_ranges_concat(s: Seq<Span>, r1: Seq<(u64, u64)>, r2: Seq<(u64, u64)>, lower: int, l2: int)
    requires
        page_ranges_ok(s, r1, lower),
        page_ranges_ok(s, r2, l2),
        lower <= l2,
        forall|k: int| 0 <= k < r1.len() ==> (#[trigger] r1[k]).1 < l2,
    ensures
        page_ranges_ok(s, r1 + r2, lower),
{
    let r = r1 + r2;
    assert forall|k: int| 0 <= k < r.len() implies {
        &&& (#[trigger] r[k]).0 % 4096 == 0
        &&& r[k].1 % 4096 == 0
        &&& lower <= r[k].0 < r[k].1
    } by {
        if k >= r1.len() {
            assert(r[k] == r2[k - r1.len()]);
        }
    }
    assert forall|j: int, k: int| 0 <= j < k < r.len() implies (#[trigger] r[j]).1 < (#[trigger] r[k]).0 by {
        if k < r1.len() {
        } else if j < r1.len() {
            assert(r[k] == r2[k - r1.len()]);
        } else {
            assert(r[j] == r2[j - r1.len()] && r[k] == r2[k - r1.len()]);
        }
    }
    assert forall|k: int, x: int| 0 <= k < r.len() && (#[trigger] r[k]).0 <= x < r[k].1 implies #[trigger] usable_addr(s, x) by {
        if k >= r1.len() {
            assert(r[k] == r2[k - r1.len()]);
        }
    }
}

/// Where the ranges from span `i` on, with `run` open, begin at the earliest.
pub open spec fn ranges_lower(s: Seq<Span>, i: int, run: Option<(u64, u64)>) -> int {
    match run {
        Some((a, _)) => a as int,
        None => if 0 <= i < s.len() {
            s[i].start as int
        } else {
            0
        },
    }
}

/// The ranges from span `i` on, with `run` an open run of usable memory ending where span
/// `i - 1` ends, are whole pages of usable memory in ascending order with room between them.
proof fn lemma_usable_ranges_from(s: Seq<Span>, i: int, run: Option<(u64, u64)>)
    requires
        spans_wf(s),
        0 <= i <= s.len(),
        run matches Some((a, b)) ==> {
            &&& i > 0
            &&& b == s[i - 1].end
            &&& a < b
            &&& forall|x: int| a <= x < b ==> #[trigger] usable_addr(s, x)
        },
    ensures
        page_ranges_ok(s, usable_ranges(s, i, run), ranges_lower(s, i, run)),
    decreases s.len() - i,
{
    let flushed = match run {
        Some((a, b)) => page_range(a, b),
        None => Seq::<(u64, u64)>::empty(),
    };
    if let Some((a, b)) = run {
        lemma_page_range(a, b);
        assert(page_ranges_ok(s, flushed, a as int)) by {
            assert forall|k: int, x: int| 0 <= k < flushed.len() && (#[trigger] flushed[k]).0 <= x < flushed[k].1 implies #[trigger] usable_addr(s, x) by {
                assert(a <= flushed[k].0 && flushed[k].1 <= b);
            }
        }
    }
    if i >= s.len() {
        assert(usable_ranges(s, i, run) == flushed);
    } else if usable(s[i].span_type) {
        let t = s[i];
        let run2 = Some((t.start, t.end));
        assert forall|x: int| t.start <= x < t.end implies #[trigger] usable_addr(s, x) by {
            assert(s[i].has(x));
        }
        match run {
            Some((a, b)) => {
                if b == t.start {
                    let run3 = Some((a, t.end));
                    assert forall|x: int| a <= x < t.end implies #[trigger] usable_addr(s, x) by {
                        if x >= b {
                            assert(s[i].has(x));
                        }
                    }
                    lemma_usable_ranges_from(s, i + 1, run3);
                } else {
                    assert(s[i - 1].end <= s[i].start);
                    lemma_usable_ranges_from(s, i + 1, run2);
                    lemma_page_ranges_concat(s, flushed, usable_ranges(s, i + 1, run2), a as int, t.start as int);
                }
            },
            None => {
                lemma_usable_ranges_from(s, i + 1, run2);
            },
        }
    } else {
        lemma_usable_ranges_from(s, i + 1, None);
        let rest = usable_ranges(s, i + 1, None);
        let l2 = ranges_lower(s, i + 1, None);
        if rest.len() > 0 {
            assert(i + 1 < s.len()) by {
                if i + 1 >= s.len() {
                    assert(rest == Seq::<(u64, u64)>::empty());
                }
            }
            assert(s[i].end <= s[i + 1].start);
        }
        match run {
            Some((a, b)) => {
                assert(s[i - 1].end <= s[i].start);
                assert(s[i].start < s[i].end);
                let l = if rest.len() > 0 { l2 } else { b + 1 };
                lemma_page_ranges_concat(s, flushed, rest, a as int, l);
            },
            None => {
                assert(flushed + rest == rest);
            },
        }
    }
}

/// The page at `p` is whole and every address of it is usable memory of `s`.
pub open spec fn whole_usable_page(s: Seq<Span>, p: int) -> bool {
    &&& p % 4096 == 0
    &&& forall|x: int| p <= x < p + 4096 ==> #[trigger] usable_addr(s, x)
}

/// One of the ranges `r` holds the whole page at `p`.
pub open spec fn covers_page(r: Seq<(u64, u64)>, p: int) -> bool {
    exists|k: int| 0 <= k < r.len() && (#[trigger] r[k]).0 <= p && p + 4096 <= r[k].1
}

/// From where on the ranges from span `i` on, with `run` open, hold every whole usable page.
pub open spec fn cover_from(s: Seq<Span>, i: int, run: Option<(u64, u64)>) -> int {
    match run {
        Some((a, _)) => a as int,
        None => if 0 <= i < s.len() {
            s[i].start as int
        } else if 0 < i <= s.len() {
            s[i - 1].end as int
        } else {
            0
        },
    }
}

/// Usable memory at or above the end of span `i - 1` lies in a span from `i` on.
proof fn lemma_usable_after(s: Seq<Span>, i: int, x: int)
    requires
        spans_wf(s),
        0 < i <= s.len(),
        x >= s[i - 1].end,
        usable_addr(s, x),
    ensures
        exists|k: int| i <= k < s.len() && (#[trigger] s[k]).has(x) && usable(s[k].span_type),
{
    let k = choose|k: int| 0 <= k < s.len() && (#[trigger] s[k]).has(x) && usable(s[k].span_type);
    if k < i - 1 {
        assert(s[k].end <= s[i - 1].start);
    }
}

/// A whole page between `a` and `b` lies in the page-aligned part of `[a, b)`.
proof fn lemma_page_in_range(a: u64, b: u64, p: int)
    requires
        p % 4096 == 0,
        a <= p,
        p + 4096 <= b,
    ensures
        covers_page(page_range(a, b), p),
{
    let lo = align_up_to(a as int, 4096);
    let hi = align_down_to(b as int, 4096);
    assert(lo <= p) by (nonlinear_arith)
        requires
            p % 4096 == 0,
            a <= p,
            lo == (if a % 4096 == 0 { a as int } else { a - a % 4096 + 4096 }),
    {
        vstd::arithmetic::div_mod::lemma_fundamental_div_mod(a as int, 4096);
        vstd::arithmetic::div_mod::lemma_fundamental_div_mod(p, 4096);
    }
    assert(p + 4096 <= hi) by (nonlinear_arith)
        requires
            p % 4096 == 0,
            p + 4096 <= b,
            hi == b - b % 4096,
    {
        vstd::arithmetic::div_mod::lemma_fundamental_div_mod(b as int, 4096);
        vstd::arithmetic::div_mod::lemma_fundamental_div_mod(p, 4096);
    }
    assert(page_range(a, b)[0] == (lo as u64, hi as u64));
}

/// A page that the first or the second of two lists of ranges holds, their concatenation
/// holds.
proof fn lemma_covers_concat(r1: Seq<(u64, u64)>, r2: Seq<(u64, u64)>, p: int)
    requires
        covers_page(r1, p) || covers_page(r2, p),
    ensures
        covers_page(r1 + r2, p),
{
    if covers_page(r1, p) {
        let k = choose|k: int| 0 <= k < r1.len() && (#[trigger] r1[k]).0 <= p && p + 4096 <= r1[k].1;
        assert((r1 + r2)[k] == r1[k]);
    } else {
        let k = choose|k: int| 0 <= k < r2.len() && (#[trigger] r2[k]).0 <= p && p + 4096 <= r2[k].1;
        assert((r1 + r2)[k + r1.len()] == r2[k]);
    }
}

/// The ranges from span `i` on, with `run` open as in `lemma_usable_ranges_from`, hold every
/// whole page of usable memory from `cover_from` on.
proof fn lemma_usable_ranges_cover(s: Seq<Span>, i: int, run: Option<(u64, u64)>, p: int)
    requires
        spans_wf(s),
        0 <= i <= s.len(),
        run matches Some((a, b)) ==> {
            &&& i > 0
            &&& b == s[i - 1].end
            &&& a < b
            &&& forall|x: int| a <= x < b ==> #[trigger] usable_addr(s, x)
        },
        whole_usable_page(s, p),
        p >= cover_from(s, i, run),
    ensures
        covers_page(usable_ranges(s, i, run), p),
    decreases s.len() - i,
{
    assert(usable_addr(s, p));
    assert(usable_addr(s, p + 4095));
    let flushed = match run {
        Some((a, b)) => page_range(a, b),
        None => Seq::<(u64, u64)>::empty(),
    };
    if i >= s.len() {
        match run {
            Some((a, b)) => {
                if p + 4096 <= b {
                    lemma_page_in_range(a, b, p);
                } else {
                    lemma_usable_after(s, i, if p >= b { p } else { b as int });
                }
            },
            None => {
                if i > 0 {
                    lemma_usable_after(s, i, p);
                } else {
                    let k = choose|k: int| 0 <= k < s.len() && (#[trigger] s[k]).has(p) && usable(s[k].span_type);
                }
            },
        }
    } else if usable(s[i].span_type) {
        let t = s[i];
        let run2 = Some((t.start, t.end));
        assert forall|x: int| t.start <= x < t.end implies #[trigger] usable_addr(s, x) by {
            assert(s[i].has(x));
        }
        match run {
            Some((a, b)) => {
                if b == t.start {
                    let run3 = Some((a, t.end));
                    assert forall|x: int| a <= x < t.end implies #[trigger] usable_addr(s, x) by {
                        if x >= b {
                            assert(s[i].has(x));
                        }
                    }
                    lemma_usable_ranges_cover(s, i + 1, run3, p);
                } else {
                    let rest = usable_ranges(s, i + 1, run2);
                    if p + 4096 <= b {
                        lemma_page_in_range(a, b, p);
                    } else {
                        // the page reaches past `b`, and no span holds `b`
                        let y = if p >= b { p } else { b as int };
                        lemma_usable_after(s, i, y);
                        let k = choose|k: int| i <= k < s.len() && (#[trigger] s[k]).has(y) && usable(s[k].span_type);
                        assert(s[i].start <= s[k].start) by {
                            if k > i {
                                assert(s[i].end <= s[k].start);
                            }
                        }
                        assert(p >= b);
                        lemma_usable_ranges_cover(s, i + 1, run2, p);
                    }
                    lemma_covers_concat(flushed, rest, p);
                }
            },
            None => {
                lemma_usable_ranges_cover(s, i + 1, run2, p);
            },
        }
    } else {
        let rest = usable_ranges(s, i + 1, None);
        let in_run = match run {
            Some((a, b)) => p + 4096 <= b,
            None => false,
        };
        if in_run {
            match run {
                Some((a, b)) => {
                    lemma_page_in_range(a, b, p);
                },
                None => {},
            }
        } else {
            // the page lies past the open run, in a usable span after span `i`
            let y = match run {
                Some((a, b)) => if p >= b { p } else { b as int },
                None => p,
            };
            let k = if i > 0 {
                lemma_usable_after(s, i, y);
                choose|k: int| i <= k < s.len() && (#[trigger] s[k]).has(y) && usable(s[k].span_type)
            } else {
                choose|k: int| 0 <= k < s.len() && (#[trigger] s[k]).has(y) && usable(s[k].span_type)
            };
            assert(k != i);
            assert(k > i) by {
                if k < i {
                    if k < i - 1 {
                        assert(s[k].end <= s[i - 1].start);
                    }
                    assert(s[k].end <= s[i].start);
                }
            }
            assert(s[i + 1].start <= s[k].start) by {
                if k > i + 1 {
                    assert(s[i + 1].end <= s[k].start);
                }
            }
            assert(p >= y);
            lemma_usable_ranges_cover(s, i + 1, None, p);
        }
        lemma_covers_concat(flushed, rest, p);
    }
}

/// The ranges of usable memory that reclaiming walks over are made of whole pages, come in
/// ascending order with room between any two, and hold usable memory only; and every whole
/// page of usable memory lies in one of them.
pub proof fn lemma_reclaimable_ranges(b: &BootAlloc)
    requires
        b.wf(),
    ensures
        page_ranges_ok(b.spans_view(), usable_ranges(b.spans_view(), 0, None), 0),
        forall|p: int| #[trigger] whole_usable_page(b.spans_view(), p) ==> covers_page(usable_ranges(b.spans_view(), 0, None), p),
{
    let s = b.spans_view();
    lemma_usable_ranges_from(s, 0, None);
    if s.len() > 0 {
        assert(ranges_lower(s, 0, None) == s[0].start);
    }
    assert forall|p: int| #[trigger] whole_usable_page(s, p) implies covers_page(usable_ranges(s, 0, None), p) by {
        assert(usable_addr(s, p));
        let k = choose|k: int| 0 <= k < s.len() && (#[trigger] s[k]).has(p) && usable(s[k].span_type);
        if k > 0 {
            assert(s[0].end <= s[k].start);
        }
        lemma_usable_ranges_cover(s, 0, None, p);
    }
}

/// A power of two.
pub open spec fn is_pow2(a: u64) -> bool {
    a > 0 && a & ((a - 1) as u64) == 0
}

/// The whole pages of a free span, where it holds one.
pub open spec fn claim_of(t: Span) -> Option<(u64, u64)> {
    let lo = align_up_to(t.start as int, 4096);
    let hi = align_down_to(t.end as int, 4096);
    if t.span_type is Free && lo < hi {
        Some((lo as u64, hi as u64))
    } else {
        None
    }
}

/// The whole pages taken from the free spans of `c`, in order.
pub open spec fn claims(c: Seq<Span>) -> Seq<(u64, u64)>
    decreases c.len(),
{
    if c.len() == 0 {
        seq![]
    } else {
        claims(c.drop_last()) + match claim_of(c.last()) {
            Some(r) => seq![r],
            None => seq![],
        }
    }
}

/// What span `t` becomes once its whole pages are taken.
pub open spec fn pieces(t: Span) -> Seq<Span> {
    match claim_of(t) {
        Some((lo, hi)) => (if t.start < lo {
            seq![Span { start: t.start, end: lo, span_type: SpanType::Free }]
        } else {
            seq![]
        }) + seq![Span { start: lo, end: hi, span_type: SpanType::InUse }] + (if hi < t.end {
            seq![Span { start: hi, end: t.end, span_type: SpanType::Free }]
        } else {
            seq![]
        }),
        None => seq![t],
    }
}

/// The spans of `c` once the whole pages of its free spans are taken.
pub open spec fn after_claim(c: Seq<Span>) -> Seq<Span>
    decreases c.len(),
{
    if c.len() == 0 {
        seq![]
    } else {
        after_claim(c.drop_last()) + pieces(c.last())
    }
}

/// Address `a` lies in one of the ranges `rs`.
pub open spec fn covered(rs: Seq<(u64, u64)>, a: int) -> bool {
    exists|j: int| 0 <= j < rs.len() && (#[trigger] rs[j]).0 <= a < rs[j].1
}

proof fn lemma_covered_push(rs: Seq<(u64, u64)>, r: (u64, u64), a: int)
    ensures
        covered(rs + seq![r], a) == (covered(rs, a) || r.0 <= a < r.1),
{
    let t = rs + seq![r];
    if covered(rs, a) {
        let j = choose|j: int| 0 <= j < rs.len() && (#[trigger] rs[j]).0 <= a < rs[j].1;
        assert(t[j] == rs[j]);
    }
    if r.0 <= a < r.1 {
        assert(t[rs.len() as int] == r);
    }
    if covered(t, a) {
        let j = choose|j: int| 0 <= j < t.len() && (#[trigger] t[j]).0 <= a < t[j].1;
        if j < rs.len() {
            assert(t[j] == rs[j]);
        }
    }
}

proof fn lemma_covered_above(rs: Seq<(u64, u64)>, bound: int, a: int)
    requires
        forall|k: int| 0 <= k < rs.len() ==> (#[trigger] rs[k]).1 <= bound,
        bound <= a,
    ensures
        !covered(rs, a),
{
}

proof fn lemma_align_bounds(start: int, end: int)
    requires
        0 <= start,
        0 <= end,
    ensures
        start <= align_up_to(start, 4096),
        align_down_to(end, 4096) <= end,
{
}

/// Calls `x86_64::PhysAddr::align_up`: the least multiple of `align` at or above `addr`, which
/// must be a physical address below 2^52.
#[verifier::external_body]
fn phys_align_up(addr: u64, align: u64) -> (r: u64)
    requires
        is_pow2(align),
        align_up_to(addr as int, align as int) < PHYS_ADDR_LIMIT,
    ensures
        r == align_up_to(addr as int, align as int),
{
    x86_64::PhysAddr::new(addr).align_up(align).as_u64()
}

/// Calls `x86_64::addr::align_down`, as `x86_64::PhysAddr::align_down` does: the greatest
/// multiple of `align` at or below `addr`.
#[verifier::external_body]
fn phys_align_down(addr: u64, align: u64) -> (r: u64)
    requires
        is_pow2(align),
    ensures
        r == align_down_to(addr as int, align as int),
{
    x86_64::addr::align_down(addr, align)
}

/// The physical memory map used while booting: which addresses exist and what they are used for.
pub struct BootAlloc {
    spans: Vec<Span>,
}

impl BootAlloc {
    pub closed spec fn spans_view(&self) -> Seq<Span> {
        self.spans@
    }

    pub open spec fn wf(&self) -> bool {
        spans_wf(self.spans_view())
    }

    /// The type of address `a`, if the map holds it.
    pub open spec fn type_of(&self, a: int) -> Option<SpanType> {
        type_at(self.spans_view(), a)
    }

    /// An empty memory map.
    pub fn new() -> (b: BootAlloc)
        ensures
            b.wf(),
            b.spans_view() == Seq::<Span>::empty(),
    {
        BootAlloc { spans: Vec::new() }
    }

    /// The spans, in address order.
    pub fn tree(&self) -> (r: &Vec<Span>)
        ensures
            r@ == self.spans_view(),
    {
        &self.spans
    }

    /// Gives every address of `[addr, addr + len)` the type `update_fn` makes of its old type
    /// (`None` where the map had no span). Spans that straddle an end of the range are split;
    /// nothing is merged.
    #[verifier::rlimit(80)]
    pub fn update<F: Fn(Option<SpanType>) -> SpanType>(&mut self, addr: u64, len: u64, update_fn: F)
        requires
            old(self).wf(),
            addr + len <= u64::MAX,
            forall|a: int| addr <= a < addr + len ==> update_fn.requires((type_at(old(self).spans_view(), a),)),
        ensures
            final(self).wf(),
            forall|a: int| #[trigger] updated_at(update_fn, old(self).spans_view(), final(self).spans_view(), addr as int, addr + len, a),
            forall|k: int| 0 <= k < final(self).spans_view().len()
                ==> #[trigger] final(self).spans_view()[k].apart_or_inside(addr as int, addr + len),
    {
        let ghost s = self.spans@;
        let end = addr + len;
        let n = self.spans.len();
        let mut out: Vec<Span> = Vec::new();
        let mut cur: u64 = addr;
        let mut flushed = false;
        let ghost mut frontier: int = 0;
        let mut i: usize = 0;
        while i < n
            invariant
                s == self.spans@,
                n == s.len(),
                spans_wf(s),
                end == addr + len,
                forall|a: int| addr <= a < end ==> update_fn.requires((type_at(s, a),)),
                0 <= i <= n,
                i > 0 ==> frontier == s[i - 1].end,
                i == 0 ==> frontier == 0,
                cur == (if addr >= frontier { addr as int } else { frontier }),
                flushed ==> frontier >= end,
                spans_wf(out@),
                forall|k: int| 0 <= k < out@.len() ==> (#[trigger] out@[k]).end <= frontier,
                forall|k: int| 0 <= k < out@.len() ==> #[trigger] out@[k].apart_or_inside(addr as int, end as int),
                forall|a: int| a < frontier ==> updated_at(update_fn, s, out@, addr as int, end as int, a),
            decreases n - i,
        {
            let r = self.spans[i];
            let ghost out0 = out@;
            proof {
                assert(s[i as int] == r);
                assert(frontier <= r.start) by {
                    if i > 0 {
                        assert(s[i - 1].end <= s[i as int].start);
                    }
                }
            }
            if r.end <= addr || end <= addr {
                proof {
                    lemma_push_span(out@, r);
                }
                out.push(r);
                proof {
                    assert forall|a: int| a < r.end implies updated_at(update_fn, s, out@, addr as int, end as int, a) by {
                        if a >= frontier {
                            if a < r.start {
                                lemma_type_at_gap(s, i as int, frontier, a);
                            } else {
                                lemma_type_at_in(s, i as int, a);
                            }
                        } else {
                            assert(updated_at(update_fn, s, out0, addr as int, end as int, a));
                        }
                    }
                }
            } else if end <= r.start {
                if !flushed {
                    if cur < end {
                        proof {
                            lemma_type_at_gap(s, i as int, frontier, cur as int);
                        }
                        let t = update_fn(None);
                        let gap = Span { start: cur, end: end, span_type: t };
                        proof {
                            lemma_push_span(out@, gap);
                        }
                        out.push(gap);
                        proof {
                            let out1 = out@;
                            assert forall|a: int| a < end implies updated_at(update_fn, s, out1, addr as int, end as int, a) by {
                                if a >= frontier {
                                    lemma_type_at_gap(s, i as int, frontier, a);
                                    if a < cur {
                                        lemma_type_at_none(out0, a);
                                    }
                                } else {
                                    assert(updated_at(update_fn, s, out0, addr as int, end as int, a));
                                }
                            }
                        }
                    }
                    flushed = true;
                }
                let ghost out1 = out@;
                proof {
                    lemma_push_span(out@, r);
                }
                out.push(r);
                proof {
                    assert forall|a: int| a < r.end implies updated_at(update_fn, s, out@, addr as int, end as int, a) by {
                        if a >= r.start {
                            lemma_type_at_in(s, i as int, a);
                        } else if a >= end && a >= frontier {
                            lemma_type_at_gap(s, i as int, frontier, a);
                            lemma_type_at_none(out1, a);
                        } else {
                            assert(updated_at(update_fn, s, out1, addr as int, end as int, a));
                        }
                    }
                }
            } else {
                // the span overlaps [addr, end)
                if cur < r.start {
                    proof {
                        lemma_type_at_gap(s, i as int, frontier, cur as int);
                    }
                    let t = update_fn(None);
                    let gap = Span { start: cur, end: r.start, span_type: t };
                    proof {
                        lemma_push_span(out@, gap);
                    }
                    out.push(gap);
                    proof {
                        let out1 = out@;
                        assert forall|a: int| a < r.start implies updated_at(update_fn, s, out1, addr as int, end as int, a) by {
                            if a >= frontier {
                                lemma_type_at_gap(s, i as int, frontier, a);
                                if a < cur {
                                    lemma_type_at_none(out0, a);
                                }
                            } else {
                                assert(updated_at(update_fn, s, out0, addr as int, end as int, a));
                            }
                        }
                    }
                } else {
                    proof {
                        assert forall|a: int| a < r.start implies updated_at(update_fn, s, out@, addr as int, end as int, a) by {
                            if a >= frontier {
                                lemma_type_at_gap(s, i as int, frontier, a);
                                lemma_type_at_none(out0, a);
                            } else {
                                assert(updated_at(update_fn, s, out0, addr as int, end as int, a));
                            }
                        }
                    }
                }
                let ghost out2 = out@;
                assert(forall|k: int| 0 <= k < out2.len() ==> (#[trigger] out2[k]).end <= r.start);
                if r.start < addr {
                    let left = Span { start: r.start, end: addr, span_type: r.span_type };
                    proof {
                        lemma_push_span(out@, left);
                    }
                    out.push(left);
                }
                let ghost out3 = out@;
                let lo = if r.start >= addr { r.start } else { addr };
                let hi = if r.end <= end { r.end } else { end };
                assert(forall|k: int| 0 <= k < out3.len() ==> (#[trigger] out3[k]).end <= lo);
                proof {
                    lemma_type_at_in(s, i as int, lo as int);
                }
                let t = update_fn(Some(r.span_type));
                let mid = Span { start: lo, end: hi, span_type: t };
                proof {
                    lemma_push_span(out@, mid);
                }
                out.push(mid);
                let ghost out4 = out@;
                if end < r.end {
                    let right = Span { start: end, end: r.end, span_type: r.span_type };
                    proof {
                        lemma_push_span(out@, right);
                    }
                    out.push(right);
                }
                proof {
                    let out5 = out@;
                    assert forall|a: int| a < r.end implies updated_at(update_fn, s, out5, addr as int, end as int, a) by {
                        if a < r.start {
                            assert(updated_at(update_fn, s, out2, addr as int, end as int, a));
                            if out3 != out2 {
                                assert(type_at(out3, a) == type_at(out2, a));
                            }
                            assert(type_at(out4, a) == type_at(out3, a));
                            if out5 != out4 {
                                assert(type_at(out5, a) == type_at(out4, a));
                            }
                        } else {
                            lemma_type_at_in(s, i as int, a);
                            lemma_type_at_none(out2, a);
                            if a < addr {
                                assert(type_at(out3, a) == Some(r.span_type));
                                assert(type_at(out4, a) == type_at(out3, a));
                                if out5 != out4 {
                                    assert(type_at(out5, a) == type_at(out4, a));
                                }
                            } else if a < hi {
                                assert(type_at(out4, a) == Some(t));
                                if out5 != out4 {
                                    assert(type_at(out5, a) == type_at(out4, a));
                                }
                            } else {
                                assert(type_at(out5, a) == Some(r.span_type));
                            }
                        }
                    }
                }
            }
            proof {
                frontier = r.end as int;
            }
            if cur < r.end {
                cur = r.end;
            }
            i = i + 1;
        }
        if !flushed && cur < end {
            let ghost out0 = out@;
            proof {
                lemma_type_at_gap(s, n as int, frontier, cur as int);
            }
            let t = update_fn(None);
            let gap = Span { start: cur, end: end, span_type: t };
            proof {
                lemma_push_span(out@, gap);
            }
            out.push(gap);
            proof {
                assert forall|a: int| a >= frontier implies updated_at(update_fn, s, out@, addr as int, end as int, a) by {
                    lemma_type_at_gap(s, n as int, frontier, a);
                    lemma_type_at_none(out0, a);
                }
                assert forall|a: int| a < frontier implies updated_at(update_fn, s, out@, addr as int, end as int, a) by {
                    assert(updated_at(update_fn, s, out0, addr as int, end as int, a));
                }
            }
        } else {
            proof {
                assert forall|a: int| a >= frontier implies updated_at(update_fn, s, out@, addr as int, end as int, a) by {
                    lemma_type_at_gap(s, n as int, frontier, a);
                    lemma_type_at_none(out@, a);
                }
            }
        }
        proof {
            assert forall|a: int| #[trigger] updated_at(update_fn, s, out@, addr as int, end as int, a) by {
                if a < frontier {
                }
            }
        }
        self.spans = out;
    }
    /// Marks `[start, start + len)` reserved, whatever it was.
    pub fn mark_reserved(&mut self, start: u64, len: u64)
        requires
            old(self).wf(),
            start + len <= u64::MAX,
        ensures
            final(self).wf(),
            forall|a: int| #[trigger] final(self).type_of(a) == if start <= a < start + len {
                Some(SpanType::Reserved)
            } else {
                old(self).type_of(a)
            },
    {
        let f = |_o: Option<SpanType>| -> (t: SpanType)
            ensures
                t == SpanType::Reserved,
            { SpanType::Reserved };
        self.update(start, len, f);
        proof {
            assert forall|a: int| #[trigger] self.type_of(a) == if start <= a < start + len {
                Some(SpanType::Reserved)
            } else {
                old(self).type_of(a)
            } by {
                assert(updated_at(f, old(self).spans_view(), self.spans_view(), start as int, start + len, a));
            }
        }
    }

    /// Marks `[start, start + len)` in use, except what is reserved.
    pub fn mark_used(&mut self, start: u64, len: u64)
        requires
            old(self).wf(),
            start + len <= u64::MAX,
        ensures
            final(self).wf(),
            forall|a: int| #[trigger] final(self).type_of(a) == if start <= a < start + len {
                if old(self).type_of(a) == Some(SpanType::Reserved) {
                    Some(SpanType::Reserved)
                } else {
                    Some(SpanType::InUse)
                }
            } else {
                old(self).type_of(a)
            },
    {
        let f = |o: Option<SpanType>| -> (t: SpanType)
            ensures
                t == if o == Some(SpanType::Reserved) { SpanType::Reserved } else { SpanType::InUse },
            {
                match o {
                    Some(SpanType::Reserved) => SpanType::Reserved,
                    _ => SpanType::InUse,
                }
            };
        self.update(start, len, f);
        proof {
            assert forall|a: int| #[trigger] self.type_of(a) == if start <= a < start + len {
                if old(self).type_of(a) == Some(SpanType::Reserved) {
                    Some(SpanType::Reserved)
                } else {
                    Some(SpanType::InUse)
                }
            } else {
                old(self).type_of(a)
            } by {
                assert(updated_at(f, old(self).spans_view(), self.spans_view(), start as int, start + len, a));
            }
        }
    }

    /// Marks `[start, start + len)` reclaimable once booting is over, except what is reserved.
    pub fn mark_reclaimable(&mut self, start: u64, len: u64)
        requires
            old(self).wf(),
            start + len <= u64::MAX,
        ensures
            final(self).wf(),
            forall|a: int| #[trigger] final(self).type_of(a) == if start <= a < start + len {
                if old(self).type_of(a) == Some(SpanType::Reserved) {
                    Some(SpanType::Reserved)
                } else {
                    Some(SpanType::Reclaimable)
                }
            } else {
                old(self).type_of(a)
            },
    {
        let f = |o: Option<SpanType>| -> (t: SpanType)
            ensures
                t == if o == Some(SpanType::Reserved) { SpanType::Reserved } else { SpanType::Reclaimable },
            {
                match o {
                    Some(SpanType::Reserved) => SpanType::Reserved,
                    _ => SpanType::Reclaimable,
                }
            };
        self.update(start, len, f);
        proof {
            assert forall|a: int| #[trigger] self.type_of(a) == if start <= a < start + len {
                if old(self).type_of(a) == Some(SpanType::Reserved) {
                    Some(SpanType::Reserved)
                } else {
                    Some(SpanType::Reclaimable)
                }
            } else {
                old(self).type_of(a)
            } by {
                assert(updated_at(f, old(self).spans_view(), self.spans_view(), start as int, start + len, a));
            }
        }
    }

    /// The lowest free span in which `size` bytes fit at an `align`-aligned start, and that start.
    fn alloc_worker(&self, size: u64, align: u64) -> (r: Option<(usize, u64)>)
        requires
            self.wf(),
            align > 0,
            forall|k: int| 0 <= k < self.spans_view().len() && (#[trigger] self.spans_view()[k]).span_type is Free
                ==> align_up_to(self.spans_view()[k].start as int, align as int) <= u64::MAX,
        ensures
            match r {
                Some((k, st)) => first_fit(self.spans_view(), align as int, size as int, k as int)
                    && st == align_up_to(self.spans_view()[k as int].start as int, align as int),
                None => forall|k: int| 0 <= k < self.spans_view().len() ==> !fits(#[trigger] self.spans_view()[k], align as int, size as int),
            },
    {
        let n = self.spans.len();
        let mut i: usize = 0;
        while i < n
            invariant
                n == self.spans_view().len(),
                0 <= i <= n,
                align > 0,
                forall|k: int| 0 <= k < self.spans_view().len() && (#[trigger] self.spans_view()[k]).span_type is Free
                    ==> align_up_to(self.spans_view()[k].start as int, align as int) <= u64::MAX,
                forall|k: int| 0 <= k < i ==> !fits(#[trigger] self.spans_view()[k], align as int, size as int),
            decreases n - i,
        {
            let span = self.spans[i];
            assert(span == self.spans_view()[i as int]);
            if span.span_type == SpanType::Free {
                let rem = span.start % align;
                proof {
                    assert(rem <= span.start) by (nonlinear_arith)
                        requires
                            rem == span.start % align,
                            align > 0,
                    ;
                    assert(align_up_to(self.spans_view()[i as int].start as int, align as int) <= u64::MAX);
                }
                let start = if rem == 0 { span.start } else { span.start - rem + align };
                let available = span.end.saturating_sub(start);
                if available >= size {
                    return Some((i, start));
                }
            }
            i = i + 1;
        }
        None
    }

    /// Takes `size` bytes aligned to `align` (both raised to whole pages) from the lowest free
    /// span that holds them, and marks them in use; `None` where no free span does.
    pub fn allocate(&mut self, size: u64, align: u64) -> (r: Option<u64>)
        requires
            old(self).wf(),
            align > 0,
            align_up_to(size as int, page_align(align as int)) <= i64::MAX,
            forall|k: int| 0 <= k < old(self).spans_view().len() && (#[trigger] old(self).spans_view()[k]).span_type is Free
                ==> align_up_to(old(self).spans_view()[k].start as int, page_align(align as int)) <= u64::MAX,
        ensures
            final(self).wf(),
            ({
                let al = page_align(align as int);
                let sz = align_up_to(size as int, al);
                match r {
                    Some(st) => (exists|k: int| first_fit(old(self).spans_view(), al, sz, k)
                        && st == align_up_to(old(self).spans_view()[k].start as int, al))
                        && forall|a: int| #[trigger] final(self).type_of(a) == if st <= a < st + sz {
                            Some(SpanType::InUse)
                        } else {
                            old(self).type_of(a)
                        },
                    None => (forall|k: int| 0 <= k < old(self).spans_view().len()
                        ==> !fits(#[trigger] old(self).spans_view()[k], al, sz))
                        && final(self).spans_view() == old(self).spans_view(),
                }
            }),
    {
        let al = if align > 4096 { align } else { 4096 };
        let rem = size % al;
        proof {
            assert(rem <= size) by (nonlinear_arith)
                requires
                    rem == size % al,
                    al > 0,
            ;
        }
        let sz = if rem == 0 { size } else { size - rem + al };
        match self.alloc_worker(sz, al) {
            None => None,
            Some((k, st)) => {
                let ghost s = self.spans_view();
                proof {
                    assert forall|a: int| st <= a < st + sz implies type_at(s, a) == Some(SpanType::Free) by {
                        lemma_type_at_in(s, k as int, a);
                    }
                }
                let f = |t: Option<SpanType>| -> (o: SpanType)
                    requires
                        t == Some(SpanType::Free),
                    ensures
                        o == SpanType::InUse,
                    { SpanType::InUse };
                self.update(st, sz, f);
                proof {
                    assert forall|a: int| #[trigger] self.type_of(a) == if st <= a < st + sz {
                        Some(SpanType::InUse)
                    } else {
                        type_at(s, a)
                    } by {
                        assert(updated_at(f, s, self.spans_view(), st as int, st + sz, a));
                    }
                }
                Some(st)
            },
        }
    }

    /// Merges every run of touching spans of one type into a single span.
    #[verifier::rlimit(60)]
    pub fn compact(&mut self)
        requires
            old(self).wf(),
        ensures
            final(self).wf(),
            final(self).spans_view() == merged(old(self).spans_view()),
            forall|a: int| #[trigger] final(self).type_of(a) == old(self).type_of(a),
            maximal(final(self).spans_view()),
            starts_within(final(self).spans_view(), old(self).spans_view(), old(self).spans_view().len() as int),
    {
        let ghost s = self.spans@;
        let n = self.spans.len();
        let mut out: Vec<Span> = Vec::new();
        let ghost mut frontier: int = 0;
        let mut i: usize = 0;
        proof {
            reveal(starts_within);
        }
        while i < n
            invariant
                s == self.spans@,
                n == s.len(),
                spans_wf(s),
                0 <= i <= n,
                out@ == merged(s.subrange(0, i as int)),
                spans_wf(out@),
                i > 0 ==> frontier == s[i - 1].end && out@.len() > 0 && out@.last().end == frontier,
                i == 0 ==> frontier == 0 && out@.len() == 0,
                forall|k: int| 0 <= k < out@.len() ==> (#[trigger] out@[k]).end <= frontier,
                forall|a: int| a < frontier ==> #[trigger] type_at(out@, a) == type_at(s, a),
                maximal(out@),
                starts_within(out@, s, i as int),
            decreases n - i,
        {
            let r = self.spans[i];
            let ghost out0 = out@;
            proof {
                assert(s[i as int] == r);
                assert(frontier <= r.start) by {
                    if i > 0 {
                        assert(s[i - 1].end <= s[i as int].start);
                    }
                }
                assert(s.subrange(0, i + 1).drop_last() =~= s.subrange(0, i as int));
                assert(s.subrange(0, i + 1).last() == r);
            }
            let l = out.len();
            if l > 0 && out[l - 1].end == r.start && out[l - 1].span_type == r.span_type {
                let m = Span { start: out[l - 1].start, end: r.end, span_type: r.span_type };
                proof {
                    lemma_extend_last(out@, m);
                }
                out.set(l - 1, m);
                proof {
                    assert forall|a: int| a < r.end implies #[trigger] type_at(out@, a) == type_at(s, a) by {
                        if a >= frontier {
                            lemma_type_at_in(s, i as int, a);
                        } else if m.has(a) {
                            lemma_type_at_in(out0, l - 1, a);
                        }
                    }
                    lemma_starts_within_set(out0, s, i as int, m);
                }
            } else {
                proof {
                    lemma_push_span(out@, r);
                }
                out.push(r);
                proof {
                    assert forall|a: int| a < r.end implies #[trigger] type_at(out@, a) == type_at(s, a) by {
                        if a >= frontier {
                            if a < r.start {
                                lemma_type_at_gap(s, i as int, frontier, a);
                            } else {
                                lemma_type_at_in(s, i as int, a);
                            }
                            lemma_type_at_none(out0, a);
                        }
                    }
                    lemma_starts_within_push(out0, s, i as int);
                }
            }
            proof {
                frontier = r.end as int;
            }
            i = i + 1;
        }
        proof {
            assert(s.subrange(0, n as int) =~= s);
            assert forall|a: int| #[trigger] type_at(out@, a) == type_at(s, a) by {
                if a >= frontier {
                    lemma_type_at_gap(s, n as int, frontier, a);
                    lemma_type_at_none(out@, a);
                }
            }
        }
        self.spans = out;
    }

    /// The page-aligned parts of the usable memory, touching usable spans taken together, in
    /// address order; runs too small to hold a whole page are left out. They are whole pages
    /// of usable memory only, ascending with room between them, and every whole page of usable
    /// memory lies in one of them.
    pub fn reclaimable_ranges(&self) -> (r: Vec<(u64, u64)>)
        requires
            self.wf(),
            forall|k: int| 0 <= k < self.spans_view().len() && usable((#[trigger] self.spans_view()[k]).span_type)
                ==> align_up_to(self.spans_view()[k].start as int, 4096) < PHYS_ADDR_LIMIT,
        ensures
            r@ == usable_ranges(self.spans_view(), 0, None),
            page_ranges_ok(self.spans_view(), r@, 0),
            forall|p: int| #[trigger] whole_usable_page(self.spans_view(), p) ==> covers_page(r@, p),
    {
        proof {
            lemma_reclaimable_ranges(self);
        }
        let ghost s = self.spans_view();
        let n = self.spans.len();
        let mut out: Vec<(u64, u64)> = Vec::new();
        let mut open = false;
        let mut a: u64 = 0;
        let mut b: u64 = 0;
        let mut i: usize = 0;
        proof {
            assert(4096u64 & ((4096u64 - 1) as u64) == 0) by (bit_vector);
        }
        while i < n
            invariant
                s == self.spans_view(),
                n == s.len(),
                0 <= i <= n,
                forall|k: int| 0 <= k < s.len() && usable((#[trigger] s[k]).span_type)
                    ==> align_up_to(s[k].start as int, 4096) < PHYS_ADDR_LIMIT,
                open ==> exists|k: int| 0 <= k < s.len() && usable((#[trigger] s[k]).span_type) && s[k].start == a,
                out@ + usable_ranges(s, i as int, if open { Some((a, b)) } else { None })
                    == usable_ranges(s, 0, None),
                is_pow2(4096),
            decreases n - i,
        {
            let t = self.spans[i];
            let ghost out0 = out@;
            let ghost run0 = if open { Some((a, b)) } else { None::<(u64, u64)> };
            let ghost flushed0 = if open { page_range(a, b) } else { Seq::<(u64, u64)>::empty() };
            proof {
                assert(t == s[i as int]);
            }
            if t.span_type.is_usable() && open && b == t.start {
                b = t.end;
            } else {
                if open {
                    proof {
                        let k = choose|k: int| 0 <= k < s.len() && usable((#[trigger] s[k]).span_type) && s[k].start == a;
                        assert(align_up_to(s[k].start as int, 4096) < PHYS_ADDR_LIMIT);
                    }
                    let lo = phys_align_up(a, 4096);
                    let hi = phys_align_down(b, 4096);
                    if lo < hi {
                        out.push((lo, hi));
                    }
                    proof {
                        assert(out@ =~= out0 + page_range(a, b));
                    }
                }
                if t.span_type.is_usable() {
                    open = true;
                    a = t.start;
                    b = t.end;
                } else {
                    open = false;
                }
                proof {
                    let nrun = if open { Some((a, b)) } else { None::<(u64, u64)> };
                    assert(usable_ranges(s, i as int, run0) =~= flushed0 + usable_ranges(s, i + 1, nrun));
                    assert(out@ =~= out0 + flushed0);
                    assert(out@ + usable_ranges(s, i + 1, nrun) =~= out0 + (flushed0 + usable_ranges(s, i + 1, nrun)));
                }
            }
            i = i + 1;
        }
        let ghost out0 = out@;
        if open {
            proof {
                let k = choose|k: int| 0 <= k < s.len() && usable((#[trigger] s[k]).span_type) && s[k].start == a;
                assert(align_up_to(s[k].start as int, 4096) < PHYS_ADDR_LIMIT);
            }
            let lo = phys_align_up(a, 4096);
            let hi = phys_align_down(b, 4096);
            if lo < hi {
                out.push((lo, hi));
            }
            proof {
                assert(out@ =~= out0 + page_range(a, b));
            }
        } else {
            proof {
                assert(out@ =~= out0 + usable_ranges(s, n as int, None));
            }
        }
        out
    }

    /// Merges touching spans of one type, then takes the whole pages of every free span for
    /// the page allocator: they become in use, what is left of the span stays free. Returns the
    /// ranges taken, in address order.
    pub fn claim_free_ranges(&mut self) -> (claimed: Vec<(u64, u64)>)
        requires
            old(self).wf(),
            forall|k: int| 0 <= k < old(self).spans_view().len() && (#[trigger] old(self).spans_view()[k]).span_type is Free
                ==> align_up_to(old(self).spans_view()[k].start as int, 4096) < PHYS_ADDR_LIMIT,
        ensures
            final(self).wf(),
            claimed@ == claims(merged(old(self).spans_view())),
            final(self).spans_view() == after_claim(merged(old(self).spans_view())),
            forall|a: int| #[trigger] final(self).type_of(a) == if covered(claimed@, a) {
                Some(SpanType::InUse)
            } else {
                old(self).type_of(a)
            },
    {
        self.compact();
        let ghost c = self.spans@;
        let ghost mid = *self;
        proof {
            reveal(starts_within);
            assert forall|k: int| 0 <= k < c.len() && (#[trigger] c[k]).span_type is Free
                implies align_up_to(c[k].start as int, 4096) < PHYS_ADDR_LIMIT by {
                let j = choose|j: int| 0 <= j < old(self).spans_view().len() && (#[trigger] c[k]).start
                    == (#[trigger] old(self).spans_view()[j]).start && c[k].span_type == old(self).spans_view()[j].span_type;
                assert(old(self).spans_view()[j].span_type is Free);
            }
            assert(4096u64 & ((4096u64 - 1) as u64) == 0) by (bit_vector);
        }
        let n = self.spans.len();
        let mut out: Vec<Span> = Vec::new();
        let mut claimed: Vec<(u64, u64)> = Vec::new();
        let ghost mut frontier: int = 0;
        let mut i: usize = 0;
        while i < n
            invariant
                c == self.spans@,
                n == c.len(),
                spans_wf(c),
                is_pow2(4096),
                forall|k: int| 0 <= k < c.len() && (#[trigger] c[k]).span_type is Free
                    ==> align_up_to(c[k].start as int, 4096) < PHYS_ADDR_LIMIT,
                0 <= i <= n,
                out@ == after_claim(c.subrange(0, i as int)),
                claimed@ == claims(c.subrange(0, i as int)),
                i > 0 ==> frontier == c[i - 1].end,
                i == 0 ==> frontier == 0,
                spans_wf(out@),
                forall|k: int| 0 <= k < out@.len() ==> (#[trigger] out@[k]).end <= frontier,
                forall|k: int| 0 <= k < claimed@.len() ==> (#[trigger] claimed@[k]).1 <= frontier,
                forall|a: int| a < frontier ==> #[trigger] type_at(out@, a) == if covered(claimed@, a) {
                    Some(SpanType::InUse)
                } else {
                    type_at(c, a)
                },
            decreases n - i,
        {
            let t = self.spans[i];
            let ghost out0 = out@;
            let ghost cl0 = claimed@;
            proof {
                assert(t == c[i as int]);
                assert(frontier <= t.start) by {
                    if i > 0 {
                        assert(c[i - 1].end <= c[i as int].start);
                    }
                }
                assert(c.subrange(0, i + 1).drop_last() =~= c.subrange(0, i as int));
                assert(c.subrange(0, i + 1).last() == t);
            }
            let mut taken = false;
            if t.span_type == SpanType::Free {
                let lo = phys_align_up(t.start, 4096);
                let hi = phys_align_down(t.end, 4096);
                proof {
                    lemma_align_bounds(t.start as int, t.end as int);
                }
                if lo < hi {
                    taken = true;
                    claimed.push((lo, hi));
                    if t.start < lo {
                        let below = Span { start: t.start, end: lo, span_type: SpanType::Free };
                        proof {
                            lemma_push_span(out@, below);
                        }
                        out.push(below);
                    }
                    let ghost out1 = out@;
                    let mid = Span { start: lo, end: hi, span_type: SpanType::InUse };
                    proof {
                        lemma_push_span(out@, mid);
                    }
                    out.push(mid);
                    let ghost out2 = out@;
                    if hi < t.end {
                        let above = Span { start: hi, end: t.end, span_type: SpanType::Free };
                        proof {
                            lemma_push_span(out@, above);
                        }
                        out.push(above);
                    }
                    proof {
                        assert(out@ =~= out0 + pieces(t));
                        assert(claimed@ =~= cl0 + seq![(lo, hi)]);
                        assert forall|a: int| a < t.end implies #[trigger] type_at(out@, a) == if covered(claimed@, a) {
                            Some(SpanType::InUse)
                        } else {
                            type_at(c, a)
                        } by {
                            lemma_covered_push(cl0, (lo, hi), a);
                            if a < frontier {
                                assert(type_at(out1, a) == type_at(out0, a));
                                assert(type_at(out2, a) == type_at(out1, a));
                                assert(type_at(out@, a) == type_at(out2, a));
                            } else {
                                lemma_covered_above(cl0, frontier, a);
                                lemma_type_at_none(out0, a);
                                if a < t.start {
                                    lemma_type_at_gap(c, i as int, frontier, a);
                                } else {
                                    lemma_type_at_in(c, i as int, a);
                                }
                                if a < lo {
                                    assert(type_at(out2, a) == type_at(out1, a));
                                    assert(type_at(out@, a) == type_at(out2, a));
                                } else if a < hi {
                                    assert(type_at(out@, a) == type_at(out2, a));
                                }
                            }
                        }
                    }
                }
            }
            if !taken {
                proof {
                    lemma_push_span(out@, t);
                }
                out.push(t);
                proof {
                    assert(pieces(t) =~= seq![t]);
                    assert(out@ =~= out0 + pieces(t));
                    assert(claimed@ =~= cl0 + Seq::<(u64, u64)>::empty());
                    assert forall|a: int| a < t.end implies #[trigger] type_at(out@, a) == if covered(claimed@, a) {
                        Some(SpanType::InUse)
                    } else {
                        type_at(c, a)
                    } by {
                        if a >= frontier {
                            lemma_covered_above(cl0, frontier, a);
                            lemma_type_at_none(out0, a);
                            if a < t.start {
                                lemma_type_at_gap(c, i as int, frontier, a);
                            } else {
                                lemma_type_at_in(c, i as int, a);
                            }
                        }
                    }
                }
            }
            proof {
                frontier = t.end as int;
            }
            i = i + 1;
        }
        proof {
            assert(c.subrange(0, n as int) =~= c);
            assert forall|a: int| #[trigger] type_at(out@, a) == if covered(claimed@, a) {
                Some(SpanType::InUse)
            } else {
                type_at(c, a)
            } by {
                if a >= frontier {
                    lemma_covered_above(claimed@, frontier, a);
                    lemma_type_at_gap(c, n as int, frontier, a);
                    lemma_type_at_none(out@, a);
                }
            }
        }
        self.spans = out;
        proof {
            assert forall|a: int| #[trigger] self.type_of(a) == if covered(claimed@, a) {
                Some(SpanType::InUse)
            } else {
                old(self).type_of(a)
            } by {
                assert(mid.type_of(a) == old(self).type_of(a));
            }
        }
        claimed
    }

}


/// Taking a run that nothing extends out of the ranges still to come gives its page-aligned
/// part first.
proof fn lemma_flush_run(s: Seq<Span>, j: int, a: u64, b: u64)
    requires
        0 <= j,
        j >= s.len() || !usable(s[j].span_type) || b != s[j].start,
    ensures
        usable_ranges(s, j, Some((a, b))) == page_range(a, b) + usable_ranges(s, j, None),
{
    if j >= s.len() {
        assert(page_range(a, b) + Seq::<(u64, u64)>::empty() =~= page_range(a, b));
    } else if !usable(s[j].span_type) {
        assert(usable_ranges(s, j, None) =~= Seq::<(u64, u64)>::empty() + usable_ranges(s, j + 1, None));
    } else {
        assert(usable_ranges(s, j, Some((a, b))) == page_range(a, b) + usable_ranges(s, j + 1, Some((s[j].start, s[j].end))));
    }
}

/// Walks the page-aligned parts of the usable memory of a boot-time memory map, touching
/// usable spans taken together, in address order.
pub struct ReclaimableRangeIter<'a> {
    spans: &'a Vec<Span>,
    node: usize,
}

impl<'a> ReclaimableRangeIter<'a> {
    /// The ranges still to come.
    pub closed spec fn remaining(&self) -> Seq<(u64, u64)> {
        usable_ranges(self.spans@, self.node as int, None)
    }

    /// The walk is at a span of a well-formed map whose usable spans start at physical
    /// addresses.
    pub closed spec fn valid(&self) -> bool {
        &&& self.node <= self.spans@.len()
        &&& spans_wf(self.spans@)
        &&& forall|k: int| 0 <= k < self.spans@.len() && usable((#[trigger] self.spans@[k]).span_type)
            ==> align_up_to(self.spans@[k].start as int, 4096) < PHYS_ADDR_LIMIT
    }

    /// The next range, if one is left.
    pub fn next(&mut self) -> (r: Option<(u64, u64)>)
        requires
            old(self).valid(),
        ensures
            final(self).valid(),
            match r {
                None => old(self).remaining().len() == 0 && final(self).remaining().len() == 0,
                Some(x) => {
                    &&& old(self).remaining().len() > 0
                    &&& x == old(self).remaining()[0]
                    &&& final(self).remaining() == old(self).remaining().drop_first()
                },
            },
    {
        let n = self.spans.len();
        proof {
            assert(4096u64 & ((4096u64 - 1) as u64) == 0) by (bit_vector);
        }
        loop
            invariant
                self.valid(),
                self.spans == old(self).spans,
                n == self.spans@.len(),
                self.remaining() == old(self).remaining(),
                is_pow2(4096),
            decreases n - self.node,
        {
            let ghost node0 = self.node;
            while self.node < n && !self.spans[self.node].span_type.is_usable()
                invariant
                    node0 <= self.node,
                    self.valid(),
                    self.spans == old(self).spans,
                    n == self.spans@.len(),
                    self.remaining() == old(self).remaining(),
                decreases n - self.node,
            {
                proof {
                    assert(usable_ranges(self.spans@, self.node as int, None) =~= Seq::<(u64, u64)>::empty()
                        + usable_ranges(self.spans@, self.node + 1, None));
                }
                self.node = self.node + 1;
            }
            if self.node == n {
                return None;
            }
            let start_addr = self.spans[self.node].start;
            let mut end_addr = self.spans[self.node].end;
            let ghost s = self.spans@;
            let ghost first = self.node as int;
            let mut succ = self.node + 1;
            proof {
                assert(usable_ranges(s, first, None) == usable_ranges(s, first + 1, Some((start_addr, end_addr))));
            }
            while succ < n && self.spans[succ].start == end_addr && self.spans[succ].span_type.is_usable()
                invariant
                    self.valid(),
                    self.spans == old(self).spans,
                    s == self.spans@,
                    n == s.len(),
                    node0 <= first < succ <= n,
                    usable(s[first].span_type),
                    s[first].start == start_addr,
                    usable_ranges(s, succ as int, Some((start_addr, end_addr))) == old(self).remaining(),
                decreases n - succ,
            {
                end_addr = self.spans[succ].end;
                succ = succ + 1;
            }
            proof {
                lemma_flush_run(s, succ as int, start_addr, end_addr);
                assert(align_up_to(s[first].start as int, 4096) < PHYS_ADDR_LIMIT);
            }
            self.node = succ;
            let lo = phys_align_up(start_addr, 4096);
            let hi = phys_align_down(end_addr, 4096);
            if lo < hi {
                proof {
                    assert(page_range(start_addr, end_addr) =~= seq![(lo, hi)]);
                    assert((seq![(lo, hi)] + self.remaining()).drop_first() =~= self.remaining());
                }
                return Some((lo, hi));
            }
            proof {
                assert(page_range(start_addr, end_addr) =~= Seq::<(u64, u64)>::empty());
                assert(Seq::<(u64, u64)>::empty() + self.remaining() =~= self.remaining());
            }
        }
    }
}

impl BootAlloc {
    /// A walk over the page-aligned parts of the usable memory, touching usable spans taken
    /// together, in address order; runs too small to hold a whole page are left out. The
    /// ranges walked are whole pages of usable memory only, ascending with room between them,
    /// and every whole page of usable memory lies in one of them.
    pub fn reclaimable_range_iter(&self) -> (it: ReclaimableRangeIter<'_>)
        requires
            self.wf(),
            forall|k: int| 0 <= k < self.spans_view().len() && usable((#[trigger] self.spans_view()[k]).span_type)
                ==> align_up_to(self.spans_view()[k].start as int, 4096) < PHYS_ADDR_LIMIT,
        ensures
            it.valid(),
            it.remaining() == usable_ranges(self.spans_view(), 0, None),
            page_ranges_ok(self.spans_view(), it.remaining(), 0),
            forall|p: int| #[trigger] whole_usable_page(self.spans_view(), p) ==> covers_page(it.remaining(), p),
    {
        proof {
            lemma_reclaimable_ranges(self);
        }
        ReclaimableRangeIter { spans: &self.spans, node: 0 }
    }
}

/// The type that the first `i` entries of a memory map give address `a`: a usable entry makes
/// free what no earlier entry typed, any other entry makes its range reserved.
pub open spec fn map_type(entries: Seq<MultibootMmapEntry>, i: int, a: int) -> Option<SpanType>
    decreases i,
{
    if i <= 0 || i > entries.len() {
        None
    } else {
        let prev = map_type(entries, i - 1, a);
        let e = entries[i - 1];
        if e.addr <= a < e.addr + e.len {
            if e.mem_type == 1 {
                Some(
                    match prev {
                        Some(t) => t,
                        None => SpanType::Free,
                    },
                )
            } else {
                Some(SpanType::Reserved)
            }
        } else {
            prev
        }
    }
}

/// Type `t` after marking a range that holds `a`, or not, with `mark`, which does not
/// override reserved memory unless `mark` is itself reserved.
pub open spec fn marked(t: Option<SpanType>, inside: bool, mark: SpanType) -> Option<SpanType> {
    if !inside {
        t
    } else if mark != SpanType::Reserved && t == Some(SpanType::Reserved) {
        Some(SpanType::Reserved)
    } else {
        Some(mark)
    }
}

/// Where the kernel and the boot loader's data lie in physical memory, each as a start and a
/// length.
#[derive(Clone, Copy, Debug)]
pub struct BootRegions {
    /// The kernel image, from its code to the end of its zeroed data.
    pub kernel: (u64, u64),
    /// The boot loader's information block.
    pub info: (u64, u64),
    /// The boot loader's memory map.
    pub mmap: (u64, u64),
    /// The part of the kernel that is only needed while booting.
    pub reclaimable: (u64, u64),
}

/// Whether the region given as a start and a length holds `a`.
pub open spec fn region_has(r: (u64, u64), a: int) -> bool {
    r.0 <= a < r.0 + r.1
}

/// The type the boot memory map gives address `a`: the memory map's type, then the first page
/// reserved, the kernel image in use, and the boot loader's data and the boot-only part of the
/// kernel reclaimable.
pub open spec fn boot_type(entries: Seq<MultibootMmapEntry>, regions: BootRegions, a: int) -> Option<SpanType> {
    let t0 = map_type(entries, entries.len() as int, a);
    let t1 = marked(t0, 0 <= a < 4096, SpanType::Reserved);
    let t2 = marked(t1, region_has(regions.kernel, a), SpanType::InUse);
    let t3 = marked(t2, region_has(regions.info, a), SpanType::Reclaimable);
    let t4 = marked(t3, region_has(regions.mmap, a), SpanType::Reclaimable);
    marked(t4, region_has(regions.reclaimable, a), SpanType::Reclaimable)
}

impl BootAlloc {
    /// The boot memory map made from the boot loader's memory map `entries` and the places of
    /// the kernel and the boot loader's data.
    pub fn from_memory_map(entries: &Vec<MultibootMmapEntry>, regions: BootRegions) -> (b: BootAlloc)
        requires
            forall|k: int| 0 <= k < entries@.len() ==> (#[trigger] entries@[k]).addr + entries@[k].len <= u64::MAX,
            regions.kernel.0 + regions.kernel.1 <= u64::MAX,
            regions.info.0 + regions.info.1 <= u64::MAX,
            regions.mmap.0 + regions.mmap.1 <= u64::MAX,
            regions.reclaimable.0 + regions.reclaimable.1 <= u64::MAX,
        ensures
            b.wf(),
            forall|a: int| #[trigger] b.type_of(a) == boot_type(entries@, regions, a),
    {
        let mut b = BootAlloc::new();
        let mut i: usize = 0;
        while i < entries.len()
            invariant
                i <= entries@.len(),
                b.wf(),
                forall|k: int| 0 <= k < entries@.len() ==> (#[trigger] entries@[k]).addr + entries@[k].len <= u64::MAX,
                forall|a: int| #[trigger] b.type_of(a) == map_type(entries@, i as int, a),
            decreases entries@.len() - i,
        {
            let e = entries[i];
            let usable = e.is_usable();
            let f = |o: Option<SpanType>| -> (t: SpanType)
                ensures
                    t == if usable {
                        match o {
                            Some(t) => t,
                            None => SpanType::Free,
                        }
                    } else {
                        SpanType::Reserved
                    },
                {
                    if usable {
                        match o {
                            Some(t) => t,
                            None => SpanType::Free,
                        }
                    } else {
                        SpanType::Reserved
                    }
                };
            let ghost b0 = b;
            b.update(e.addr, e.len, f);
            proof {
                assert forall|a: int| #[trigger] b.type_of(a) == map_type(entries@, i + 1, a) by {
                    assert(updated_at(f, b0.spans_view(), b.spans_view(), e.addr as int, e.addr + e.len, a));
                    assert(b0.type_of(a) == map_type(entries@, i as int, a));
                }
            }
            i = i + 1;
        }
        b.mark_reserved(0, 4096);
        b.mark_used(regions.kernel.0, regions.kernel.1);
        b.mark_reclaimable(regions.info.0, regions.info.1);
        b.mark_reclaimable(regions.mmap.0, regions.mmap.1);
        b.mark_reclaimable(regions.reclaimable.0, regions.reclaimable.1);
        b
    }
}
} // verus!
