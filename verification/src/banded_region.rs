use vstd::prelude::*;

use crate::geometry::{spec_max, spec_min, Point, Rect};
use vstd::set_lib::{lemma_int_range, lemma_set_subset_finite, lemma_set_union_finite_iff, set_int_range};

verus! {

/// Values stored in a banded region: copied freely and compared for equality.
pub trait RegionValue: Copy {
    fn same(&self, other: &Self) -> (r: bool)
        ensures
            r == (*self == *other),
    ;
}

impl RegionValue for bool {
    fn same(&self, other: &Self) -> (r: bool) {
        *self == *other
    }
}

impl RegionValue for u32 {
    fn same(&self, other: &Self) -> (r: bool) {
        *self == *other
    }
}

/// A horizontal run `[x_start, x_end)` of one value inside a band.
#[derive(Clone, Copy)]
pub struct Region<V> {
    pub x_start: i32,
    pub x_end: i32,
    pub value: V,
}

/// A horizontal strip `[y_start, y_end)` of the plane, split into runs.
pub struct Band<V> {
    pub y_start: i32,
    pub y_end: i32,
    pub regions: Vec<Region<V>>,
}

/// A map from the points of the plane to values, stored as bands of runs.
pub struct BandedRegion<V> {
    pub bands: Vec<Band<V>>,
}

impl<V> Region<V> {
    pub open spec fn has(self, x: int) -> bool {
        self.x_start <= x < self.x_end
    }
}

pub open spec fn opt_ref<'a, V>(o: &'a Option<V>) -> Option<&'a V> {
    match o {
        Some(v) => Some(v),
        None => None,
    }
}

/// The runs are non-empty and strictly ordered from left to right.
pub open spec fn regions_wf<V>(s: Seq<Region<V>>) -> bool {
    &&& forall|i: int| 0 <= i < s.len() ==> (#[trigger] s[i]).x_start < s[i].x_end
    &&& forall|i: int, j: int| 0 <= i < j < s.len() ==> (#[trigger] s[i]).x_end <= (#[trigger] s[j]).x_start
}

/// The value of the run covering `x`, if any.
pub open spec fn lookup_x<V>(s: Seq<Region<V>>, x: int) -> Option<V> {
    if exists|k: int| 0 <= k < s.len() && (#[trigger] s[k]).has(x) {
        Some(s[choose|k: int| 0 <= k < s.len() && (#[trigger] s[k]).has(x)].value)
    } else {
        None
    }
}

/// What an update leaves at point `x` of a band: an output of `f` inside `[xs, xe)`, the old value outside.
pub open spec fn agrees_x<V, F: Fn(Option<&V>) -> Option<V>>(
    f: F,
    old: Seq<Region<V>>,
    new: Seq<Region<V>>,
    xs: int,
    xe: int,
    x: int,
) -> bool {
    if xs <= x < xe {
        f.ensures((opt_ref(&lookup_x(old, x)),), lookup_x(new, x))
    } else {
        lookup_x(new, x) == lookup_x(old, x)
    }
}

pub proof fn lemma_lookup_x_at<V>(s: Seq<Region<V>>, k: int, x: int)
    requires
        regions_wf(s),
        0 <= k < s.len(),
        s[k].has(x),
    ensures
        lookup_x(s, x) == Some(s[k].value),
{
    let c = choose|c: int| 0 <= c < s.len() && (#[trigger] s[c]).has(x);
    assert(0 <= c < s.len() && s[c].has(x));
    if c < k {
        assert(s[c].x_end <= s[k].x_start);
    } else if k < c {
        assert(s[k].x_end <= s[c].x_start);
    }
}

pub proof fn lemma_lookup_x_none<V>(s: Seq<Region<V>>, x: int)
    requires
        forall|k: int| 0 <= k < s.len() ==> !(#[trigger] s[k]).has(x),
    ensures
        lookup_x(s, x) == None::<V>,
{
}

/// Appending a run to the right of all runs keeps the band well formed and only adds its points.
pub proof fn lemma_push_region<V>(s: Seq<Region<V>>, p: Region<V>)
    requires
        regions_wf(s),
        p.x_start < p.x_end,
        forall|k: int| 0 <= k < s.len() ==> (#[trigger] s[k]).x_end <= p.x_start,
    ensures
        regions_wf(s.push(p)),
        forall|x: int|
            #[trigger] lookup_x(s.push(p), x) == if p.has(x) {
                Some(p.value)
            } else {
                lookup_x(s, x)
            },
{
    let t = s.push(p);
    assert forall|i: int, j: int| 0 <= i < j < t.len() implies (#[trigger] t[i]).x_end <= (
    #[trigger] t[j]).x_start by {
        if j == s.len() {
            assert(t[i] == s[i]);
        } else {
            assert(t[i] == s[i] && t[j] == s[j]);
        }
    }
    assert forall|x: int|
        #[trigger] lookup_x(s.push(p), x) == if p.has(x) {
            Some(p.value)
        } else {
            lookup_x(s, x)
        } by {
        if p.has(x) {
            lemma_lookup_x_at(t, s.len() as int, x);
        } else if exists|k: int| 0 <= k < s.len() && (#[trigger] s[k]).has(x) {
            let k = choose|k: int| 0 <= k < s.len() && (#[trigger] s[k]).has(x);
            lemma_lookup_x_at(s, k, x);
            assert(t[k] == s[k]);
            lemma_lookup_x_at(t, k, x);
        } else {
            assert forall|k: int| 0 <= k < t.len() implies !(#[trigger] t[k]).has(x) by {
                if k < s.len() {
                    assert(t[k] == s[k]);
                }
            }
        }
    }
}

/// Between two neighbouring runs, and left of the first, no run covers a point.
pub proof fn lemma_lookup_x_gap<V>(s: Seq<Region<V>>, i: int, lo: int, x: int)
    requires
        regions_wf(s),
        0 <= i <= s.len(),
        i > 0 ==> lo == s[i - 1].x_end,
        i == 0 ==> lo <= i32::MIN,
        lo <= x,
        i < s.len() ==> x < s[i].x_start,
    ensures
        lookup_x(s, x) == None::<V>,
{
    assert forall|k: int| 0 <= k < s.len() implies !(#[trigger] s[k]).has(x) by {
        if k < i {
            if k < i - 1 {
                assert(s[k].x_end <= s[i - 1].x_start);
            }
        } else {
            if k > i {
                assert(s[i].x_end <= s[k].x_start);
            }
        }
    }
}

pub fn copy_regions<V: Copy>(s: &Vec<Region<V>>) -> (r: Vec<Region<V>>)
    ensures
        r@ == s@,
{
    let mut r: Vec<Region<V>> = Vec::new();
    let mut i: usize = 0;
    while i < s.len()
        invariant
            0 <= i <= s.len(),
            r@ == s@.subrange(0, i as int),
        decreases s.len() - i,
    {
        let reg = s[i];
        r.push(reg);
        i = i + 1;
        assert(r@ == s@.subrange(0, i as int));
    }
    assert(s@.subrange(0, s.len() as int) == s@);
    r
}

impl<V: Copy> Band<V> {
    pub fn new(y_start: i32, y_end: i32) -> (b: Band<V>)
        ensures
            b.y_start == y_start,
            b.y_end == y_end,
            b.regions@.len() == 0,
    {
        Band { y_start, y_end, regions: Vec::new() }
    }

    /// Replaces the value of every point `x` in `[x_start, x_end)` of this band by an output of
    /// `update_fn` on its old value.
    pub fn update<F: Fn(Option<&V>) -> Option<V>>(&mut self, x_start: i32, x_end: i32, update_fn: &F)
        requires
            regions_wf(old(self).regions@),
            forall|o: Option<&V>| update_fn.requires((o,)),
        ensures
            regions_wf(final(self).regions@),
            final(self).y_start == old(self).y_start,
            final(self).y_end == old(self).y_end,
            forall|x: int|
                #[trigger] agrees_x(
                    *update_fn,
                    old(self).regions@,
                    final(self).regions@,
                    x_start as int,
                    x_end as int,
                    x,
                ),
    {
        let ghost s = self.regions@;
        let n = self.regions.len();
        let mut out: Vec<Region<V>> = Vec::new();
        let mut cur: i32 = x_start;
        let mut flushed = false;
        let ghost mut frontier: int = i32::MIN as int;
        let mut i: usize = 0;
        while i < n
            invariant
                s == self.regions@,
                n == s.len(),
                regions_wf(s),
                forall|o: Option<&V>| update_fn.requires((o,)),
                0 <= i <= n,
                i > 0 ==> frontier == s[i - 1].x_end,
                i == 0 ==> frontier == i32::MIN,
                cur == (if x_start >= frontier { x_start as int } else { frontier }),
                flushed ==> frontier >= x_end,
                regions_wf(out@),
                forall|k: int| 0 <= k < out@.len() ==> (#[trigger] out@[k]).x_end <= frontier,
                forall|x: int| x < frontier ==> agrees_x(*update_fn, s, out@, x_start as int, x_end as int, x),
            decreases n - i,
        {
            let r = self.regions[i];
            let ghost out0 = out@;
            proof {
                assert(s[i as int] == r);
                assert(r.x_start < r.x_end);
                assert(frontier <= r.x_start) by {
                    if i > 0 {
                        assert(s[i - 1].x_end <= s[i as int].x_start);
                    }
                }
            }
            if r.x_end <= x_start || x_end <= x_start {
                proof {
                    lemma_push_region(out@, r);
                }
                out.push(r);
                proof {
                    assert forall|x: int| x < r.x_end implies agrees_x(
                        *update_fn,
                        s,
                        out@,
                        x_start as int,
                        x_end as int,
                        x,
                    ) by {
                        if x >= frontier {
                            if x < r.x_start {
                                lemma_lookup_x_gap(s, i as int, frontier, x);
                            } else {
                                lemma_lookup_x_at(s, i as int, x);
                            }
                        } else {
                            assert(agrees_x(*update_fn, s, out0, x_start as int, x_end as int, x));
                        }
                    }
                }
            } else if x_end <= r.x_start {
                if !flushed {
                    if cur < x_end {
                        let res = update_fn(None);
                        match res {
                            Some(v) => {
                                let gap = Region { x_start: cur, x_end: x_end, value: v };
                                proof {
                                    lemma_push_region(out@, gap);
                                }
                                out.push(gap);
                            },
                            None => {},
                        }
                        proof {
                            let out1 = out@;
                            assert forall|x: int| x < x_end implies agrees_x(
                                *update_fn,
                                s,
                                out1,
                                x_start as int,
                                x_end as int,
                                x,
                            ) by {
                                if x >= frontier {
                                    lemma_lookup_x_gap(s, i as int, frontier, x);
                                    if x >= cur {
                                        if res is None {
                                            assert(out1 == out0);
                                            lemma_lookup_x_none(out0, x);
                                        }
                                    } else {
                                        if res is None {
                                            lemma_lookup_x_none(out0, x);
                                        }
                                    }
                                } else {
                                    assert(agrees_x(*update_fn, s, out0, x_start as int, x_end as int, x));
                                }
                            }
                            assert forall|k: int| 0 <= k < out1.len() implies (#[trigger] out1[k]).x_end <= x_end by {
                            }
                        }
                    }
                    flushed = true;
                }
                let ghost out1 = out@;
                proof {
                    lemma_push_region(out@, r);
                }
                out.push(r);
                proof {
                    assert forall|x: int| x < r.x_end implies agrees_x(
                        *update_fn,
                        s,
                        out@,
                        x_start as int,
                        x_end as int,
                        x,
                    ) by {
                        if x >= r.x_start {
                            lemma_lookup_x_at(s, i as int, x);
                        } else if x >= x_end && x >= frontier {
                            lemma_lookup_x_gap(s, i as int, frontier, x);
                            lemma_lookup_x_none(out1, x);
                        } else {
                            assert(agrees_x(*update_fn, s, out1, x_start as int, x_end as int, x));
                        }
                    }
                }
            } else {
                // the run overlaps [x_start, x_end)
                if cur < r.x_start {
                    let res = update_fn(None);
                    match res {
                        Some(v) => {
                            let gap = Region { x_start: cur, x_end: r.x_start, value: v };
                            proof {
                                lemma_push_region(out@, gap);
                            }
                            out.push(gap);
                        },
                        None => {},
                    }
                    proof {
                        let out1 = out@;
                        assert forall|x: int| x < r.x_start implies agrees_x(
                            *update_fn,
                            s,
                            out1,
                            x_start as int,
                            x_end as int,
                            x,
                        ) by {
                            if x >= frontier {
                                lemma_lookup_x_gap(s, i as int, frontier, x);
                                if res is None {
                                    lemma_lookup_x_none(out0, x);
                                }
                            } else {
                                assert(agrees_x(*update_fn, s, out0, x_start as int, x_end as int, x));
                            }
                        }
                    }
                } else {
                    proof {
                        assert forall|x: int| x < r.x_start implies agrees_x(
                            *update_fn,
                            s,
                            out@,
                            x_start as int,
                            x_end as int,
                            x,
                        ) by {
                            if x >= frontier {
                                lemma_lookup_x_gap(s, i as int, frontier, x);
                                lemma_lookup_x_none(out0, x);
                            } else {
                                assert(agrees_x(*update_fn, s, out0, x_start as int, x_end as int, x));
                            }
                        }
                    }
                }
                let ghost out2 = out@;
                assert(forall|k: int| 0 <= k < out2.len() ==> (#[trigger] out2[k]).x_end <= r.x_start);
                if r.x_start < x_start {
                    let left = Region { x_start: r.x_start, x_end: x_start, value: r.value };
                    proof {
                        lemma_push_region(out@, left);
                    }
                    out.push(left);
                }
                let ghost out3 = out@;
                let lo = if r.x_start >= x_start { r.x_start } else { x_start };
                let hi = if r.x_end <= x_end { r.x_end } else { x_end };
                assert(forall|k: int| 0 <= k < out3.len() ==> (#[trigger] out3[k]).x_end <= lo);
                let res = update_fn(Some(&r.value));
                match res {
                    Some(v) => {
                        let mid = Region { x_start: lo, x_end: hi, value: v };
                        proof {
                            lemma_push_region(out@, mid);
                        }
                        out.push(mid);
                    },
                    None => {},
                }
                let ghost out4 = out@;
                assert(forall|k: int| 0 <= k < out4.len() ==> (#[trigger] out4[k]).x_end <= hi);
                if x_end < r.x_end {
                    let right = Region { x_start: x_end, x_end: r.x_end, value: r.value };
                    proof {
                        lemma_push_region(out@, right);
                    }
                    out.push(right);
                }
                proof {
                    let out5 = out@;
                    assert forall|x: int| x < r.x_end implies agrees_x(
                        *update_fn,
                        s,
                        out5,
                        x_start as int,
                        x_end as int,
                        x,
                    ) by {
                        if x < r.x_start {
                            assert(agrees_x(*update_fn, s, out2, x_start as int, x_end as int, x));
                            if out3 != out2 {
                                assert(lookup_x(out3, x) == lookup_x(out2, x));
                            }
                            if out4 != out3 {
                                assert(lookup_x(out4, x) == lookup_x(out3, x));
                            }
                            if out5 != out4 {
                                assert(lookup_x(out5, x) == lookup_x(out4, x));
                            }
                        } else {
                            lemma_lookup_x_at(s, i as int, x);
                            lemma_lookup_x_none(out2, x);
                            if x < x_start {
                                assert(lookup_x(out3, x) == Some(r.value));
                                if out4 != out3 {
                                    assert(lookup_x(out4, x) == lookup_x(out3, x));
                                }
                                if out5 != out4 {
                                    assert(lookup_x(out5, x) == lookup_x(out4, x));
                                }
                            } else if x < hi {
                                if res is None {
                                    assert(out4 == out3);
                                    if out3 != out2 {
                                        assert(lookup_x(out3, x) == lookup_x(out2, x));
                                    }
                                    assert(lookup_x(out4, x) == None::<V>);
                                } else {
                                    assert(lookup_x(out4, x) == res);
                                }
                                if out5 != out4 {
                                    assert(lookup_x(out5, x) == lookup_x(out4, x));
                                }
                            } else {
                                assert(lookup_x(out5, x) == Some(r.value));
                            }
                        }
                    }
                }
            }
            proof {
                frontier = r.x_end as int;
            }
            if cur < r.x_end {
                cur = r.x_end;
            }
            i = i + 1;
        }
        if !flushed && cur < x_end {
            let ghost out0 = out@;
            let res = update_fn(None);
            match res {
                Some(v) => {
                    let gap = Region { x_start: cur, x_end: x_end, value: v };
                    proof {
                        lemma_push_region(out@, gap);
                    }
                    out.push(gap);
                },
                None => {},
            }
            proof {
                assert forall|x: int| x >= frontier implies agrees_x(
                    *update_fn,
                    s,
                    out@,
                    x_start as int,
                    x_end as int,
                    x,
                ) by {
                    lemma_lookup_x_gap(s, n as int, frontier, x);
                    lemma_lookup_x_none(out0, x);
                }
                assert forall|x: int| x < frontier implies agrees_x(
                    *update_fn,
                    s,
                    out@,
                    x_start as int,
                    x_end as int,
                    x,
                ) by {
                    assert(agrees_x(*update_fn, s, out0, x_start as int, x_end as int, x));
                }
            }
        } else {
            proof {
                assert forall|x: int| x >= frontier implies agrees_x(
                    *update_fn,
                    s,
                    out@,
                    x_start as int,
                    x_end as int,
                    x,
                ) by {
                    lemma_lookup_x_gap(s, n as int, frontier, x);
                    lemma_lookup_x_none(out@, x);
                }
            }
        }
        proof {
            assert forall|x: int|
                agrees_x(*update_fn, s, out@, x_start as int, x_end as int, x) by {
                if x < frontier {
                }
            }
        }
        self.regions = out;
    }
}


/// The bands are non-empty, well formed and strictly ordered from top to bottom.
pub open spec fn bands_wf<V>(s: Seq<Band<V>>) -> bool {
    &&& forall|i: int|
        0 <= i < s.len() ==> (#[trigger] s[i]).y_start < s[i].y_end && regions_wf(s[i].regions@)
    &&& forall|i: int, j: int| 0 <= i < j < s.len() ==> (#[trigger] s[i]).y_end <= (#[trigger] s[j]).y_start
}

/// Point `(x, y)` comes before cursor `c` in a walk whose current band ends at `c_end`: above
/// the cursor's row, or in its band left of it.
pub open spec fn walked(c: Point, c_end: int, x: int, y: int) -> bool {
    y < c.y || (c.y <= y < c_end && x < c.x)
}

/// Runs `i` to `j` of `regs` touch one another and hold the value of run `i`, `br` is where run
/// `j` ends or `bound`, whichever is less, and the runs go no further: `br` reached `bound`, or
/// run `j` is the last, or the next run does not touch it or holds another value.
pub open spec fn widest_run<V>(regs: Seq<Region<V>>, i: int, j: int, br: int, bound: int) -> bool {
    &&& 0 <= i <= j < regs.len()
    &&& br == spec_min(regs[j].x_end as int, bound)
    &&& forall|k: int| i <= k < j ==> (#[trigger] regs[k + 1]).x_start == regs[k].x_end && regs[k + 1].value == regs[i].value
    &&& (br == bound || j + 1 == regs.len() || regs[j + 1].x_start != regs[j].x_end || regs[j + 1].value != regs[i].value)
}

impl<V> Band<V> {
    pub open spec fn has_y(self, y: int) -> bool {
        self.y_start <= y < self.y_end
    }
}

/// The value at point `(x, y)`, if any.
pub open spec fn lookup<V>(s: Seq<Band<V>>, x: int, y: int) -> Option<V> {
    if exists|b: int| 0 <= b < s.len() && (#[trigger] s[b]).has_y(y) {
        lookup_x(s[choose|b: int| 0 <= b < s.len() && (#[trigger] s[b]).has_y(y)].regions@, x)
    } else {
        None
    }
}

/// What an update leaves at point `(x, y)`: an output of `f` inside `rect`, the old value outside.
pub open spec fn agrees<V, F: Fn(Option<&V>) -> Option<V>>(
    f: F,
    old: Seq<Band<V>>,
    new: Seq<Band<V>>,
    rect: Rect,
    x: int,
    y: int,
) -> bool {
    if rect.has(x, y) {
        f.ensures((opt_ref(&lookup(old, x, y)),), lookup(new, x, y))
    } else {
        lookup(new, x, y) == lookup(old, x, y)
    }
}

pub proof fn lemma_lookup_at<V>(s: Seq<Band<V>>, b: int, x: int, y: int)
    requires
        bands_wf(s),
        0 <= b < s.len(),
        s[b].has_y(y),
    ensures
        lookup(s, x, y) == lookup_x(s[b].regions@, x),
{
    let c = choose|c: int| 0 <= c < s.len() && (#[trigger] s[c]).has_y(y);
    assert(0 <= c < s.len() && s[c].has_y(y));
    if c < b {
        assert(s[c].y_end <= s[b].y_start);
    } else if b < c {
        assert(s[b].y_end <= s[c].y_start);
    }
}

pub proof fn lemma_lookup_none<V>(s: Seq<Band<V>>, x: int, y: int)
    requires
        forall|k: int| 0 <= k < s.len() ==> !(#[trigger] s[k]).has_y(y),
    ensures
        lookup(s, x, y) == None::<V>,
{
}

/// Between two neighbouring bands, and above the first, no point has a value.
pub proof fn lemma_lookup_gap<V>(s: Seq<Band<V>>, i: int, lo: int, x: int, y: int)
    requires
        bands_wf(s),
        0 <= i <= s.len(),
        i > 0 ==> lo == s[i - 1].y_end,
        i == 0 ==> lo <= i32::MIN,
        lo <= y,
        i < s.len() ==> y < s[i].y_start,
    ensures
        lookup(s, x, y) == None::<V>,
{
    assert forall|k: int| 0 <= k < s.len() implies !(#[trigger] s[k]).has_y(y) by {
        if k < i {
            if k < i - 1 {
                assert(s[k].y_end <= s[i - 1].y_start);
            }
        } else {
            if k > i {
                assert(s[i].y_end <= s[k].y_start);
            }
        }
    }
}

/// Appending a band below all bands keeps the region well formed and only adds its points.
pub proof fn lemma_push_band<V>(s: Seq<Band<V>>, p: Band<V>)
    requires
        bands_wf(s),
        p.y_start < p.y_end,
        regions_wf(p.regions@),
        forall|k: int| 0 <= k < s.len() ==> (#[trigger] s[k]).y_end <= p.y_start,
    ensures
        bands_wf(s.push(p)),
        forall|x: int, y: int|
            #[trigger] lookup(s.push(p), x, y) == if p.has_y(y) {
                lookup_x(p.regions@, x)
            } else {
                lookup(s, x, y)
            },
{
    let t = s.push(p);
    assert forall|i: int| 0 <= i < t.len() implies (#[trigger] t[i]).y_start < t[i].y_end
        && regions_wf(t[i].regions@) by {
        if i < s.len() {
            assert(t[i] == s[i]);
        }
    }
    assert forall|i: int, j: int| 0 <= i < j < t.len() implies (#[trigger] t[i]).y_end <= (
    #[trigger] t[j]).y_start by {
        if j == s.len() {
            assert(t[i] == s[i]);
        } else {
            assert(t[i] == s[i] && t[j] == s[j]);
        }
    }
    assert forall|x: int, y: int|
        #[trigger] lookup(s.push(p), x, y) == if p.has_y(y) {
            lookup_x(p.regions@, x)
        } else {
            lookup(s, x, y)
        } by {
        if p.has_y(y) {
            lemma_lookup_at(t, s.len() as int, x, y);
        } else if exists|k: int| 0 <= k < s.len() && (#[trigger] s[k]).has_y(y) {
            let k = choose|k: int| 0 <= k < s.len() && (#[trigger] s[k]).has_y(y);
            lemma_lookup_at(s, k, x, y);
            assert(t[k] == s[k]);
            lemma_lookup_at(t, k, x, y);
        } else {
            assert forall|k: int| 0 <= k < t.len() implies !(#[trigger] t[k]).has_y(y) by {
                if k < s.len() {
                    assert(t[k] == s[k]);
                }
            }
        }
    }
}

impl<V: Copy> BandedRegion<V> {
    /// The region is well formed: its bands and runs are ordered and disjoint.
    pub open spec fn wf(&self) -> bool {
        bands_wf(self.bands@)
    }

    /// The value the region holds at point `(x, y)`.
    pub open spec fn value_at(&self, x: int, y: int) -> Option<V> {
        lookup(self.bands@, x, y)
    }

    pub fn new() -> (r: BandedRegion<V>)
        ensures
            r.wf(),
            forall|x: int, y: int| r.value_at(x, y) == None::<V>,
    {
        BandedRegion { bands: Vec::new() }
    }

    /// A band covering `[y_start, y_end)` whose runs are `[x_start, x_end)` updated from nothing.
    fn fresh_band<F: Fn(Option<&V>) -> Option<V>>(
        y_start: i32,
        y_end: i32,
        x_start: i32,
        x_end: i32,
        update_fn: &F,
    ) -> (b: Band<V>)
        requires
            forall|o: Option<&V>| update_fn.requires((o,)),
        ensures
            b.y_start == y_start,
            b.y_end == y_end,
            regions_wf(b.regions@),
            forall|x: int|
                #[trigger] agrees_x(*update_fn, Seq::<Region<V>>::empty(), b.regions@, x_start as int, x_end as int, x),
    {
        let mut b: Band<V> = Band::new(y_start, y_end);
        assert(b.regions@ =~= Seq::<Region<V>>::empty());
        b.update(x_start, x_end, update_fn);
        b
    }

    /// Replaces the value of every point in `rect` by an output of `update_fn` on its old value;
    /// points outside `rect` keep their values.
    #[verifier::rlimit(40)]
    pub fn update<F: Fn(Option<&V>) -> Option<V>>(&mut self, rect: Rect, update_fn: F)
        requires
            old(self).wf(),
            forall|o: Option<&V>| update_fn.requires((o,)),
        ensures
            final(self).wf(),
            forall|x: int, y: int|
                agrees(update_fn, old(self).bands@, final(self).bands@, rect, x, y),
    {
        let ghost s = self.bands@;
        let xs = rect.tl.x;
        let xe = rect.br.x;
        let ys = rect.tl.y;
        let ye = rect.br.y;
        let n = self.bands.len();
        let mut out: Vec<Band<V>> = Vec::new();
        let mut cur: i32 = ys;
        let mut flushed = false;
        let ghost mut frontier: int = i32::MIN as int;
        let mut i: usize = 0;
        while i < n
            invariant
                s == self.bands@,
                n == s.len(),
                bands_wf(s),
                forall|o: Option<&V>| update_fn.requires((o,)),
                xs == rect.tl.x && xe == rect.br.x && ys == rect.tl.y && ye == rect.br.y,
                0 <= i <= n,
                i > 0 ==> frontier == s[i - 1].y_end,
                i == 0 ==> frontier == i32::MIN,
                cur == (if ys >= frontier { ys as int } else { frontier }),
                flushed ==> frontier >= ye,
                bands_wf(out@),
                forall|k: int| 0 <= k < out@.len() ==> (#[trigger] out@[k]).y_end <= frontier,
                forall|x: int, y: int| y < frontier ==> agrees(update_fn, s, out@, rect, x, y),
            decreases n - i,
        {
            let ghost out0 = out@;
            let ghost b = s[i as int];
            let b_start = self.bands[i].y_start;
            let b_end = self.bands[i].y_end;
            proof {
                assert(b_start < b_end && regions_wf(b.regions@));
                assert(frontier <= b_start) by {
                    if i > 0 {
                        assert(s[i - 1].y_end <= s[i as int].y_start);
                    }
                }
            }
            if b_end <= ys || ye <= ys {
                let copy = Band { y_start: b_start, y_end: b_end, regions: copy_regions(&self.bands[i].regions) };
                proof {
                    lemma_push_band(out@, copy);
                }
                out.push(copy);
                proof {
                    assert forall|x: int, y: int| y < b_end implies agrees(update_fn, s, out@, rect, x, y) by {
                        if y >= frontier {
                            if y < b_start {
                                lemma_lookup_gap(s, i as int, frontier, x, y);
                            } else {
                                lemma_lookup_at(s, i as int, x, y);
                            }
                        } else {
                            assert(agrees(update_fn, s, out0, rect, x, y));
                        }
                    }
                }
            } else if ye <= b_start {
                if !flushed {
                    if cur < ye {
                        let gap = Self::fresh_band(cur, ye, xs, xe, &update_fn);
                        proof {
                            lemma_push_band(out@, gap);
                        }
                        out.push(gap);
                        proof {
                            let out1 = out@;
                            assert forall|x: int, y: int| y < ye implies agrees(update_fn, s, out1, rect, x, y) by {
                                if y >= frontier {
                                    lemma_lookup_gap(s, i as int, frontier, x, y);
                                    if y < cur {
                                        lemma_lookup_none(out0, x, y);
                                    } else {
                                        assert(agrees_x(update_fn, Seq::<Region<V>>::empty(), gap.regions@, xs as int, xe as int, x));
                                        lemma_lookup_x_none(Seq::<Region<V>>::empty(), x);
                                    }
                                } else {
                                    assert(agrees(update_fn, s, out0, rect, x, y));
                                }
                            }
                        }
                    }
                    flushed = true;
                }
                let ghost out1 = out@;
                let copy = Band { y_start: b_start, y_end: b_end, regions: copy_regions(&self.bands[i].regions) };
                proof {
                    lemma_push_band(out@, copy);
                }
                out.push(copy);
                proof {
                    assert forall|x: int, y: int| y < b_end implies agrees(update_fn, s, out@, rect, x, y) by {
                        if y >= b_start {
                            lemma_lookup_at(s, i as int, x, y);
                        } else if y >= ye && y >= frontier {
                            lemma_lookup_gap(s, i as int, frontier, x, y);
                            lemma_lookup_none(out1, x, y);
                        } else {
                            assert(agrees(update_fn, s, out1, rect, x, y));
                        }
                    }
                }
            } else {
                // the band overlaps [ys, ye)
                if cur < b_start {
                    let gap = Self::fresh_band(cur, b_start, xs, xe, &update_fn);
                    if gap.regions.len() > 0 {
                        proof {
                            lemma_push_band(out@, gap);
                        }
                        out.push(gap);
                    }
                    proof {
                        let out1 = out@;
                        assert forall|x: int, y: int| y < b_start implies agrees(update_fn, s, out1, rect, x, y) by {
                            if y >= frontier {
                                lemma_lookup_gap(s, i as int, frontier, x, y);
                                if y < cur {
                                    lemma_lookup_none(out0, x, y);
                                } else {
                                    assert(agrees_x(update_fn, Seq::<Region<V>>::empty(), gap.regions@, xs as int, xe as int, x));
                                    lemma_lookup_x_none(Seq::<Region<V>>::empty(), x);
                                    if gap.regions@.len() == 0 {
                                        lemma_lookup_none(out0, x, y);
                                        lemma_lookup_x_none(gap.regions@, x);
                                    }
                                }
                            } else {
                                assert(agrees(update_fn, s, out0, rect, x, y));
                            }
                        }
                    }
                } else {
                    proof {
                        assert forall|x: int, y: int| y < b_start implies agrees(update_fn, s, out@, rect, x, y) by {
                            if y >= frontier {
                                lemma_lookup_gap(s, i as int, frontier, x, y);
                                lemma_lookup_none(out0, x, y);
                            } else {
                                assert(agrees(update_fn, s, out0, rect, x, y));
                            }
                        }
                    }
                }
                let ghost out2 = out@;
                assert(forall|k: int| 0 <= k < out2.len() ==> (#[trigger] out2[k]).y_end <= b_start);
                if b_start < ys {
                    let top = Band { y_start: b_start, y_end: ys, regions: copy_regions(&self.bands[i].regions) };
                    proof {
                        lemma_push_band(out@, top);
                    }
                    out.push(top);
                }
                let ghost out3 = out@;
                let lo = if b_start >= ys { b_start } else { ys };
                let hi = if b_end <= ye { b_end } else { ye };
                assert(forall|k: int| 0 <= k < out3.len() ==> (#[trigger] out3[k]).y_end <= lo);
                let mut mid = Band { y_start: lo, y_end: hi, regions: copy_regions(&self.bands[i].regions) };
                let ghost pre = mid.regions@;
                assert(pre == b.regions@);
                mid.update(xs, xe, &update_fn);
                let ghost mid_regions = mid.regions@;
                assert(forall|x: int| #[trigger] agrees_x(update_fn, pre, mid_regions, xs as int, xe as int, x));
                let mid_nonempty = mid.regions.len() > 0;
                if mid_nonempty {
                    proof {
                        lemma_push_band(out@, mid);
                    }
                    out.push(mid);
                }
                let ghost out4 = out@;
                assert(forall|k: int| 0 <= k < out4.len() ==> (#[trigger] out4[k]).y_end <= hi);
                if ye < b_end {
                    let bottom = Band { y_start: ye, y_end: b_end, regions: copy_regions(&self.bands[i].regions) };
                    proof {
                        lemma_push_band(out@, bottom);
                    }
                    out.push(bottom);
                }
                proof {
                    let out5 = out@;
                    assert forall|x: int, y: int| y < b_end implies agrees(update_fn, s, out5, rect, x, y) by {
                        if y < b_start {
                            assert(agrees(update_fn, s, out2, rect, x, y));
                            if out3 != out2 {
                                assert(lookup(out3, x, y) == lookup(out2, x, y));
                            }
                            if out4 != out3 {
                                assert(lookup(out4, x, y) == lookup(out3, x, y));
                            }
                            if out5 != out4 {
                                assert(lookup(out5, x, y) == lookup(out4, x, y));
                            }
                        } else {
                            lemma_lookup_at(s, i as int, x, y);
                            lemma_lookup_none(out2, x, y);
                            if y < ys {
                                assert(lookup(out3, x, y) == lookup_x(b.regions@, x));
                                if out4 != out3 {
                                    assert(lookup(out4, x, y) == lookup(out3, x, y));
                                }
                                if out5 != out4 {
                                    assert(lookup(out5, x, y) == lookup(out4, x, y));
                                }
                            } else if y < hi {
                                assert(agrees_x(update_fn, b.regions@, mid_regions, xs as int, xe as int, x));
                                if !mid_nonempty {
                                    assert(out4 == out3);
                                    if out3 != out2 {
                                        assert(lookup(out3, x, y) == lookup(out2, x, y));
                                    }
                                    lemma_lookup_x_none(mid_regions, x);
                                } else {
                                    assert(lookup(out4, x, y) == lookup_x(mid_regions, x));
                                }
                                if out5 != out4 {
                                    assert(lookup(out5, x, y) == lookup(out4, x, y));
                                }
                            } else {
                                assert(lookup(out5, x, y) == lookup_x(b.regions@, x));
                            }
                        }
                    }
                }
            }
            proof {
                frontier = b_end as int;
            }
            if cur < b_end {
                cur = b_end;
            }
            i = i + 1;
        }
        if !flushed && cur < ye {
            let ghost out0 = out@;
            let gap = Self::fresh_band(cur, ye, xs, xe, &update_fn);
            proof {
                lemma_push_band(out@, gap);
            }
            out.push(gap);
            proof {
                assert forall|x: int, y: int| y >= frontier implies agrees(update_fn, s, out@, rect, x, y) by {
                    lemma_lookup_gap(s, n as int, frontier, x, y);
                    lemma_lookup_none(out0, x, y);
                    if y >= cur && y < ye {
                        assert(agrees_x(update_fn, Seq::<Region<V>>::empty(), gap.regions@, xs as int, xe as int, x));
                        lemma_lookup_x_none(Seq::<Region<V>>::empty(), x);
                    }
                }
                assert forall|x: int, y: int| y < frontier implies agrees(update_fn, s, out@, rect, x, y) by {
                    assert(agrees(update_fn, s, out0, rect, x, y));
                }
            }
        } else {
            proof {
                assert forall|x: int, y: int| y >= frontier implies agrees(update_fn, s, out@, rect, x, y) by {
                    lemma_lookup_gap(s, n as int, frontier, x, y);
                    lemma_lookup_none(out@, x, y);
                }
            }
        }
        proof {
            assert forall|x: int, y: int| agrees(update_fn, s, out@, rect, x, y) by {
                if y < frontier {
                }
            }
        }
        self.bands = out;
    }
}


/// The points of a rectangle.
pub open spec fn box_set(r: Rect) -> Set<(int, int)> {
    Set::new(|p: (int, int)| r.has(p.0, p.1))
}

proof fn lemma_rows_finite(x0: int, x1: int, y0: int, h: nat)
    ensures
        Set::new(|p: (int, int)| x0 <= p.0 < x1 && y0 <= p.1 < y0 + h).finite(),
    decreases h,
{
    let full = Set::new(|p: (int, int)| x0 <= p.0 < x1 && y0 <= p.1 < y0 + h);
    if h == 0 {
        assert(full =~= Set::<(int, int)>::empty());
    } else {
        let prev = Set::new(|p: (int, int)| x0 <= p.0 < x1 && y0 <= p.1 < y0 + (h - 1) as nat);
        lemma_rows_finite(x0, x1, y0, (h - 1) as nat);
        let row = Set::new(|x: int| x0 <= x < x1);
        if x0 <= x1 {
            lemma_int_range(x0, x1);
            assert(row =~= set_int_range(x0, x1));
        } else {
            assert(row =~= Set::<int>::empty());
        }
        let y = y0 + h - 1;
        let rowp = row.map(|x: int| (x, y));
        row.lemma_map_finite(|x: int| (x, y));
        assert forall|p: (int, int)| full.contains(p) == prev.union(rowp).contains(p) by {
            if full.contains(p) && p.1 == y {
                assert(row.contains(p.0) && (p.0, y) == p);
            }
        }
        assert(full =~= prev.union(rowp));
        lemma_set_union_finite_iff(prev, rowp);
    }
}

/// A rectangle holds finitely many points.
pub proof fn lemma_box_finite(r: Rect)
    ensures
        box_set(r).finite(),
{
    if r.br.y <= r.tl.y {
        assert(box_set(r) =~= Set::<(int, int)>::empty());
    } else {
        let h = (r.br.y - r.tl.y) as nat;
        lemma_rows_finite(r.tl.x as int, r.br.x as int, r.tl.y as int, h);
        assert(box_set(r) =~= Set::new(
            |p: (int, int)| r.tl.x <= p.0 < r.br.x && r.tl.y <= p.1 < r.tl.y + h,
        ));
    }
}

impl<V: Copy> Band<V> {
    /// Index of the first run meeting `[x_start, x_end)`, if one does.
    fn first_region_in_range(&self, x_start: i32, x_end: i32) -> (r: Option<usize>)
        requires
            regions_wf(self.regions@),
        ensures
            match r {
                Some(i) => {
                    &&& x_start < x_end
                    &&& i < self.regions@.len()
                    &&& x_start < self.regions@[i as int].x_end
                    &&& self.regions@[i as int].x_start < x_end
                    &&& forall|k: int| 0 <= k < i ==> (#[trigger] self.regions@[k]).x_end <= x_start
                },
                None => forall|x: int| x_start <= x < x_end ==> lookup_x(self.regions@, x) == None::<V>,
            },
    {
        if x_start >= x_end {
            return None;
        }
        let n = self.regions.len();
        let mut i: usize = 0;
        while i < n && self.regions[i].x_end <= x_start
            invariant
                0 <= i <= n,
                n == self.regions@.len(),
                regions_wf(self.regions@),
                forall|k: int| 0 <= k < i ==> (#[trigger] self.regions@[k]).x_end <= x_start,
            decreases n - i,
        {
            i = i + 1;
        }
        if i < n && self.regions[i].x_start < x_end {
            Some(i)
        } else {
            proof {
                assert forall|x: int| x_start <= x < x_end implies lookup_x(self.regions@, x) == None::<V> by {
                    assert forall|k: int| 0 <= k < self.regions@.len() implies !(#[trigger] self.regions@[k]).has(x) by {
                        if k > i as int {
                            assert(self.regions@[i as int].x_end <= self.regions@[k].x_start);
                        }
                    }
                }
            }
            None
        }
    }

    /// Whether every point of `[x_start, x_end)` holds exactly `value`.
    fn all_in_range(&self, x_start: i32, x_end: i32, value: &V) -> (r: bool)
        where V: RegionValue,
        requires
            regions_wf(self.regions@),
        ensures
            r == forall|x: int| x_start <= x < x_end ==> lookup_x(self.regions@, x) == Some(*value),
    {
        let n = self.regions.len();
        let mut i: usize = 0;
        while i < n && self.regions[i].x_end <= x_start
            invariant
                0 <= i <= n,
                n == self.regions@.len(),
                regions_wf(self.regions@),
                forall|k: int| 0 <= k < i ==> (#[trigger] self.regions@[k]).x_end <= x_start,
            decreases n - i,
        {
            i = i + 1;
        }
        let mut x = x_start;
        while x < x_end
            invariant
                0 <= i <= n,
                n == self.regions@.len(),
                regions_wf(self.regions@),
                x_start <= x,
                forall|k: int| 0 <= k < i ==> (#[trigger] self.regions@[k]).x_end <= x,
                i < n ==> x < self.regions@[i as int].x_end,
                forall|y: int| x_start <= y < x ==> lookup_x(self.regions@, y) == Some(*value),
            decreases n - i,
        {
            if i >= n {
                proof {
                    lemma_lookup_x_gap(self.regions@, n as int, if n > 0 { self.regions@[n - 1].x_end as int } else { i32::MIN as int }, x as int);
                }
                return false;
            }
            let r = self.regions[i];
            if r.x_start > x {
                proof {
                    assert forall|k: int| 0 <= k < n implies !(#[trigger] self.regions@[k]).has(x as int) by {
                        if k > i as int {
                            assert(self.regions@[i as int].x_end <= self.regions@[k].x_start);
                        }
                    }
                }
                return false;
            }
            if !r.value.same(value) {
                proof {
                    lemma_lookup_x_at(self.regions@, i as int, x as int);
                }
                return false;
            }
            proof {
                assert forall|y: int| x <= y < r.x_end implies lookup_x(self.regions@, y) == Some(*value) by {
                    lemma_lookup_x_at(self.regions@, i as int, y);
                }
                if i + 1 < n {
                    assert(self.regions@[i as int].x_end <= self.regions@[i + 1].x_start);
                }
            }
            x = r.x_end;
            i = i + 1;
        }
        true
    }
}

impl<V: Copy + RegionValue> BandedRegion<V> {
    /// Puts `value` on every point of `rect`; other points keep their values.
    pub fn insert(&mut self, rect: Rect, value: V)
        requires
            old(self).wf(),
        ensures
            final(self).wf(),
            forall|x: int, y: int|
                #[trigger] final(self).value_at(x, y) == if rect.has(x, y) {
                    Some(value)
                } else {
                    old(self).value_at(x, y)
                },
    {
        let f = |o: Option<&V>| -> (r: Option<V>)
            ensures
                r == Some(value),
            { Some(value) };
        self.update(rect, f);
        proof {
            assert forall|x: int, y: int|
                #[trigger] self.value_at(x, y) == if rect.has(x, y) {
                    Some(value)
                } else {
                    old(self).value_at(x, y)
                } by {
                assert(agrees(f, old(self).bands@, self.bands@, rect, x, y));
            }
        }
    }

    /// Clears every point of `rect`; other points keep their values.
    pub fn remove(&mut self, rect: Rect)
        requires
            old(self).wf(),
        ensures
            final(self).wf(),
            forall|x: int, y: int|
                #[trigger] final(self).value_at(x, y) == if rect.has(x, y) {
                    None
                } else {
                    old(self).value_at(x, y)
                },
    {
        let f = |o: Option<&V>| -> (r: Option<V>)
            ensures
                r == None::<V>,
            { None };
        self.update(rect, f);
        proof {
            assert forall|x: int, y: int|
                #[trigger] self.value_at(x, y) == if rect.has(x, y) {
                    None
                } else {
                    old(self).value_at(x, y)
                } by {
                assert(agrees(f, old(self).bands@, self.bands@, rect, x, y));
            }
        }
    }

    /// The points of `boundary` that hold a value.
    pub open spec fn points_in(&self, boundary: Rect) -> Set<(int, int)> {
        Set::new(|p: (int, int)| boundary.has(p.0, p.1) && self.value_at(p.0, p.1) is Some)
    }

    /// Index of the first band meeting `[y_start, y_end)`, if one does.
    fn first_band_in_range(&self, y_start: i32, y_end: i32) -> (r: Option<usize>)
        requires
            self.wf(),
        ensures
            match r {
                Some(b) => {
                    &&& y_start < y_end
                    &&& b < self.bands@.len()
                    &&& y_start < self.bands@[b as int].y_end
                    &&& self.bands@[b as int].y_start < y_end
                    &&& forall|k: int| 0 <= k < b ==> (#[trigger] self.bands@[k]).y_end <= y_start
                },
                None => forall|x: int, y: int| y_start <= y < y_end ==> lookup(self.bands@, x, y) == None::<V>,
            },
    {
        if y_start >= y_end {
            return None;
        }
        let n = self.bands.len();
        let mut i: usize = 0;
        while i < n && self.bands[i].y_end <= y_start
            invariant
                0 <= i <= n,
                n == self.bands@.len(),
                self.wf(),
                forall|k: int| 0 <= k < i ==> (#[trigger] self.bands@[k]).y_end <= y_start,
            decreases n - i,
        {
            i = i + 1;
        }
        if i < n && self.bands[i].y_start < y_end {
            Some(i)
        } else {
            proof {
                assert forall|x: int, y: int| y_start <= y < y_end implies lookup(self.bands@, x, y) == None::<V> by {
                    assert forall|k: int| 0 <= k < self.bands@.len() implies !(#[trigger] self.bands@[k]).has_y(y) by {
                        if k > i as int {
                            assert(self.bands@[i as int].y_end <= self.bands@[k].y_start);
                        }
                    }
                }
            }
            None
        }
    }

    /// Finds the next run at or after `cursor` inside `boundary` and the part of it that lies
    /// inside both.  Bands without such a run move the cursor to their end.
    fn find_next_rect(&self, boundary: Rect, cursor: &mut Point, Ghost(c_end): Ghost<int>) -> (r: Option<(usize, usize, Rect)>)
        requires
            self.wf(),
            boundary.tl.x <= old(cursor).x,
            old(cursor).x != boundary.tl.x ==> exists|jj: int|
                0 <= jj < self.bands@.len() && (#[trigger] self.bands@[jj]).y_start == old(cursor).y && self.bands@[jj].y_end
                    == c_end,
        ensures
            forall|x: int, y: int|
                boundary.has(x, y) && y < final(cursor).y && !walked(*old(cursor), c_end, x, y) ==> #[trigger] lookup(
                    self.bands@,
                    x,
                    y,
                ) == None::<V>,
            boundary.tl.x <= final(cursor).x,
            old(cursor).y <= final(cursor).y,
            final(cursor).x == old(cursor).x || final(cursor).x == boundary.tl.x,
            old(cursor).x == boundary.tl.x ==> forall|x: int, y: int|
                boundary.has(x, y) && old(cursor).y <= y < final(cursor).y
                    ==> lookup(self.bands@, x, y) == None::<V>,
            match r {
                Some((b, i, rect)) => {
                    &&& b < self.bands@.len()
                    &&& forall|k: int| 0 <= k < b ==> (#[trigger] self.bands@[k]).y_end <= final(cursor).y
                    &&& (*final(cursor) != *old(cursor) ==> exists|k: int|
                        0 <= k < b && old(cursor).y < (#[trigger] self.bands@[k]).y_end)
                    &&& i < self.bands@[b as int].regions@.len()
                    &&& !rect.spec_is_empty()
                    &&& rect.tl.x >= final(cursor).x
                    &&& rect.tl.y >= final(cursor).y
                    &&& rect.br.x == spec_min(self.bands@[b as int].regions@[i as int].x_end as int, boundary.br.x as int)
                    &&& rect.br.y == spec_min(self.bands@[b as int].y_end as int, boundary.br.y as int)
                    &&& rect.tl.x >= self.bands@[b as int].regions@[i as int].x_start
                    &&& rect.tl.y >= self.bands@[b as int].y_start
                    &&& rect.tl.y == spec_max(self.bands@[b as int].y_start as int, final(cursor).y as int)
                    &&& forall|x: int, y: int|
                        boundary.has(x, y) && final(cursor).y <= y < rect.br.y && final(cursor).x <= x < rect.tl.x
                            ==> #[trigger] lookup(self.bands@, x, y) == None::<V>
                    &&& *final(cursor) != *old(cursor) ==> final(cursor).x == boundary.tl.x
                    &&& *final(cursor) != *old(cursor) && old(cursor).x != boundary.tl.x ==> final(cursor).y >= c_end
                    &&& final(cursor).x != boundary.tl.x ==> self.bands@[b as int].y_start == old(cursor).y
                        && self.bands@[b as int].y_end == c_end && *final(cursor) == *old(cursor)
                },
                None => {
                    &&& old(cursor).x == boundary.tl.x ==> forall|x: int, y: int|
                        boundary.has(x, y) && old(cursor).y <= y ==> lookup(self.bands@, x, y) == None::<V>
                    &&& forall|x: int, y: int|
                        boundary.has(x, y) && !walked(*old(cursor), c_end, x, y) ==> #[trigger] lookup(self.bands@, x, y)
                            == None::<V>
                },
            },
    {
        let ghost c0 = *cursor;
        loop
            invariant
                self.wf(),
                c0 == *old(cursor),
                c0.x != boundary.tl.x ==> exists|jj: int|
                    0 <= jj < self.bands@.len() && (#[trigger] self.bands@[jj]).y_start == c0.y && self.bands@[jj].y_end
                        == c_end,
                *cursor != c0 ==> cursor.x == boundary.tl.x,
                *cursor != c0 && c0.x != boundary.tl.x ==> cursor.y >= c_end,
                forall|x: int, y: int|
                    boundary.has(x, y) && y < cursor.y && !walked(c0, c_end, x, y) ==> #[trigger] lookup(self.bands@, x, y)
                        == None::<V>,
                *cursor != c0 ==> exists|k: int|
                    0 <= k < self.bands@.len() && c0.y < (#[trigger] self.bands@[k]).y_end <= cursor.y,
                boundary.tl.x <= cursor.x,
                c0.y <= cursor.y,
                cursor.x == c0.x || cursor.x == boundary.tl.x,
                c0.x == boundary.tl.x ==> cursor.x == boundary.tl.x,
                c0.x == boundary.tl.x ==> forall|x: int, y: int|
                    boundary.has(x, y) && c0.y <= y < cursor.y ==> lookup(self.bands@, x, y) == None::<V>,
            decreases (if cursor.y < boundary.br.y { boundary.br.y - cursor.y } else { 0 }),
        {
            let band_opt = self.first_band_in_range(cursor.y, boundary.br.y);
            match band_opt {
                None => {
                    proof {
                        if c0.x == boundary.tl.x {
                            assert forall|x: int, y: int| boundary.has(x, y) && c0.y <= y
                                implies lookup(self.bands@, x, y) == None::<V> by {
                                if y >= cursor.y {
                                }
                            }
                        }
                    }
                    if cursor.y < boundary.br.y {
                        cursor.y = boundary.br.y;
                    }
                    proof {
                        if c0.x == boundary.tl.x {
                            assert forall|x: int, y: int| boundary.has(x, y) && c0.y <= y < cursor.y
                                implies lookup(self.bands@, x, y) == None::<V> by {
                                if y >= cursor.y {
                                }
                            }
                        }
                    }
                    return None;
                },
                Some(b) => {
                    let ghost band = self.bands@[b as int];
                    let reg_opt = self.bands[b].first_region_in_range(cursor.x, boundary.br.x);
                    match reg_opt {
                        None => {
                            let b_end = self.bands[b].y_end;
                            assert(c0.y < self.bands@[b as int].y_end);
                            proof {
                                if c0.x == boundary.tl.x {
                                    assert forall|x: int, y: int| boundary.has(x, y) && c0.y <= y < b_end
                                        implies lookup(self.bands@, x, y) == None::<V> by {
                                        if y >= cursor.y {
                                            if y < band.y_start {
                                                lemma_lookup_gap(self.bands@, b as int,
                                                    if b > 0 { self.bands@[b - 1].y_end as int } else { i32::MIN as int }, x, y);
                                            } else {
                                                lemma_lookup_at(self.bands@, b as int, x, y);
                                            }
                                        }
                                    }
                                }
                            }
                            cursor.x = boundary.tl.x;
                            cursor.y = b_end;
                        },
                        Some(i) => {
                            let reg = self.bands[b].regions[i];
                            let b_start = self.bands[b].y_start;
                            let b_end = self.bands[b].y_end;
                            let outer = Rect::new(reg.x_start, b_start, reg.x_end, b_end);
                            let inner = Rect { tl: *cursor, br: boundary.br };
                            let rect = match outer.intersect(inner) {
                                Some(q) => q,
                                None => {
                                    proof {
                                        assert(band.regions@[i as int].x_start < band.regions@[i as int].x_end);
                                        assert(outer.has(spec_max(reg.x_start as int, cursor.x as int), spec_max(b_start as int, cursor.y as int)));
                                        assert(inner.has(spec_max(reg.x_start as int, cursor.x as int), spec_max(b_start as int, cursor.y as int)));
                                    }
                                    return None;
                                },
                            };
                            proof {
                                if *cursor != c0 {
                                    let k = choose|k: int|
                                        0 <= k < self.bands@.len() && c0.y < (#[trigger] self.bands@[k]).y_end <= cursor.y;
                                    if k >= b {
                                        if k > b {
                                            assert(self.bands@[b as int].y_end <= self.bands@[k].y_start);
                                        }
                                    }
                                }
                            }
                            return Some((b, i, rect));
                        },
                    }
                },
            }
        }
    }

    /// Widens `rect` to the right over neighbouring runs of the same value, within `boundary`.
    fn rect_grow_x(&self, boundary: Rect, b: usize, i: usize, rect: &mut Rect)
        requires
            self.wf(),
            b < self.bands@.len(),
            i < self.bands@[b as int].regions@.len(),
            old(rect).br.x == spec_min(self.bands@[b as int].regions@[i as int].x_end as int, boundary.br.x as int),
            !old(rect).spec_is_empty(),
            self.bands@[b as int].y_start <= old(rect).tl.y,
            old(rect).br.y <= self.bands@[b as int].y_end,
            forall|x: int, y: int| old(rect).has(x, y) ==> lookup(self.bands@, x, y) == Some(self.bands@[b as int].regions@[i as int].value),
        ensures
            final(rect).tl == old(rect).tl,
            final(rect).br.y == old(rect).br.y,
            old(rect).br.x <= final(rect).br.x <= boundary.br.x,
            forall|x: int, y: int| final(rect).has(x, y) ==> lookup(self.bands@, x, y) == Some(self.bands@[b as int].regions@[i as int].value),
            exists|j: int| #[trigger] widest_run(self.bands@[b as int].regions@, i as int, j, final(rect).br.x as int, boundary.br.x as int),
    {
        let ghost v = self.bands@[b as int].regions@[i as int].value;
        let ghost r0 = *rect;
        let ghost regs = self.bands@[b as int].regions@;
        let n = self.bands[b].regions.len();
        let mut j = i;
        while rect.br.x < boundary.br.x
            invariant
                self.wf(),
                b < self.bands@.len(),
                regs == self.bands@[b as int].regions@,
                n == regs.len(),
                i <= j < n,
                regs[j as int].value == v,
                rect.br.x == spec_min(regs[j as int].x_end as int, boundary.br.x as int),
                rect.tl == r0.tl,
                rect.br.y == r0.br.y,
                r0.br.x <= rect.br.x,
                self.bands@[b as int].y_start <= r0.tl.y,
                r0.br.y <= self.bands@[b as int].y_end,
                forall|x: int, y: int| rect.has(x, y) ==> lookup(self.bands@, x, y) == Some(v),
                forall|k: int| i <= k < j ==> (#[trigger] regs[k + 1]).x_start == regs[k].x_end && regs[k + 1].value == v,
            ensures
                i <= j < n,
                rect.br.x == spec_min(regs[j as int].x_end as int, boundary.br.x as int),
                rect.tl == r0.tl,
                rect.br.y == r0.br.y,
                r0.br.x <= rect.br.x <= boundary.br.x,
                forall|x: int, y: int| rect.has(x, y) ==> lookup(self.bands@, x, y) == Some(v),
                forall|k: int| i <= k < j ==> (#[trigger] regs[k + 1]).x_start == regs[k].x_end && regs[k + 1].value == v,
                rect.br.x == boundary.br.x || j + 1 == n || regs[j + 1].x_start != regs[j as int].x_end || regs[j
                    + 1].value != v,
            decreases n - j,
        {
            if j + 1 >= n {
                break;
            }
            let cur = self.bands[b].regions[j];
            let succ = self.bands[b].regions[j + 1];
            if succ.x_start != cur.x_end || !succ.value.same(&cur.value) {
                break;
            }
            let new_br = if boundary.br.x <= succ.x_end { boundary.br.x } else { succ.x_end };
            proof {
                let old_rect = *rect;
                assert forall|x: int, y: int| old_rect.tl.x <= x < new_br && old_rect.tl.y <= y < old_rect.br.y
                    implies lookup(self.bands@, x, y) == Some(v) by {
                    if x >= old_rect.br.x {
                        lemma_lookup_at(self.bands@, b as int, x, y);
                        lemma_lookup_x_at(regs, j + 1, x);
                    } else {
                        assert(old_rect.has(x, y));
                    }
                }
            }
            rect.br.x = new_br;
            j = j + 1;
        }
        proof {
            assert(widest_run(regs, i as int, j as int, rect.br.x as int, boundary.br.x as int));
        }
    }

    /// Extends `rect` downwards over neighbouring bands holding `rect_value` across its width,
    /// within `boundary`; returns the start of the last band taken.  Unless draining, a band is
    /// only taken when nothing lies right of `rect` in the band above and left of it in the band
    /// below.
    fn rect_grow_y(&self, boundary: Rect, b: usize, rect: &mut Rect, rect_value: &V, is_draining: bool) -> (r: i32)
        requires
            self.wf(),
            b < self.bands@.len(),
            old(rect).br.y == spec_min(self.bands@[b as int].y_end as int, boundary.br.y as int),
            old(rect).tl.x < old(rect).br.x,
            self.bands@[b as int].y_start <= old(rect).br.y,
            forall|x: int, y: int| old(rect).has(x, y) ==> lookup(self.bands@, x, y) == Some(*rect_value),
        ensures
            final(rect).tl == old(rect).tl,
            final(rect).br.x == old(rect).br.x,
            old(rect).br.y <= final(rect).br.y <= boundary.br.y || final(rect).br.y == old(rect).br.y,
            forall|x: int, y: int| final(rect).has(x, y) ==> lookup(self.bands@, x, y) == Some(*rect_value),
            exists|k: int| b <= k < self.bands@.len() && r == (#[trigger] self.bands@[k]).y_start && r <= final(rect).br.y,
            exists|k: int| {
                &&& b <= k < self.bands@.len()
                &&& r == (#[trigger] self.bands@[k]).y_start
                &&& final(rect).br.y == spec_min(self.bands@[k].y_end as int, boundary.br.y as int)
                &&& forall|m: int| b <= m < k ==> (#[trigger] self.bands@[m]).y_end == self.bands@[m + 1].y_start
                &&& !is_draining ==> forall|m: int, x: int|
                    b <= m < k && old(rect).br.x <= x < boundary.br.x ==> #[trigger] lookup_x(self.bands@[m].regions@, x)
                        == None::<V>
                &&& !is_draining ==> forall|m: int, x: int|
                    b < m <= k && boundary.tl.x <= x < old(rect).tl.x ==> #[trigger] lookup_x(self.bands@[m].regions@, x)
                        == None::<V>
            },
    {
        let ghost r0 = *rect;
        let n = self.bands.len();
        let mut j = b;
        while rect.br.y < boundary.br.y
            invariant
                self.wf(),
                n == self.bands@.len(),
                b <= j < n,
                rect.br.y == spec_min(self.bands@[j as int].y_end as int, boundary.br.y as int),
                rect.tl == r0.tl,
                rect.br.x == r0.br.x,
                r0.br.y <= rect.br.y,
                self.bands@[j as int].y_start <= rect.br.y,
                forall|x: int, y: int| rect.has(x, y) ==> lookup(self.bands@, x, y) == Some(*rect_value),
                forall|m: int| b <= m < j ==> (#[trigger] self.bands@[m]).y_end == self.bands@[m + 1].y_start,
                !is_draining ==> forall|m: int, x: int|
                    b <= m < j && r0.br.x <= x < boundary.br.x ==> #[trigger] lookup_x(self.bands@[m].regions@, x)
                        == None::<V>,
                !is_draining ==> forall|m: int, x: int|
                    b < m <= j && boundary.tl.x <= x < r0.tl.x ==> #[trigger] lookup_x(self.bands@[m].regions@, x)
                        == None::<V>,
            decreases n - j,
        {
            if j + 1 >= n {
                break;
            }
            let succ_start = self.bands[j + 1].y_start;
            let succ_end = self.bands[j + 1].y_end;
            if succ_start != self.bands[j].y_end {
                break;
            }
            if !is_draining {
                if self.bands[j].first_region_in_range(rect.br.x, boundary.br.x).is_some() {
                    break;
                }
                if self.bands[j + 1].first_region_in_range(boundary.tl.x, rect.tl.x).is_some() {
                    break;
                }
            }
            if !self.bands[j + 1].all_in_range(rect.tl.x, rect.br.x, rect_value) {
                break;
            }
            let new_br = if boundary.br.y <= succ_end { boundary.br.y } else { succ_end };
            proof {
                let old_rect = *rect;
                assert forall|x: int, y: int| old_rect.tl.x <= x < old_rect.br.x && old_rect.tl.y <= y < new_br
                    implies lookup(self.bands@, x, y) == Some(*rect_value) by {
                    if y >= old_rect.br.y {
                        lemma_lookup_at(self.bands@, b as int + (j - b) + 1, x, y);
                    } else {
                        assert(old_rect.has(x, y));
                    }
                }
            }
            rect.br.y = new_br;
            j = j + 1;
        }
        let r = self.bands[j].y_start;
        proof {
            assert(self.bands@[j as int].y_start < self.bands@[j as int].y_end);
            assert(b <= j && r == self.bands@[j as int].y_start);
        }
        r
    }

    /// Removes every value inside `boundary` and returns it as disjoint rectangles, each holding
    /// one value, that together cover exactly the points of `boundary` that held a value.
    pub fn drain(&mut self, boundary: Rect) -> (res: Vec<(Rect, V)>)
        requires
            old(self).wf(),
        ensures
            final(self).wf(),
            forall|x: int, y: int|
                #[trigger] final(self).value_at(x, y) == if boundary.has(x, y) {
                    None
                } else {
                    old(self).value_at(x, y)
                },
            forall|k: int|
                0 <= k < res@.len() ==> {
                    &&& !(#[trigger] res@[k]).0.spec_is_empty()
                    &&& res@[k].0.within(boundary)
                    &&& forall|x: int, y: int| res@[k].0.has(x, y) ==> old(self).value_at(x, y) == Some(res@[k].1)
                },
            forall|j: int, k: int, x: int, y: int|
                0 <= j < k < res@.len() ==> !((#[trigger] res@[j].0.has(x, y)) && (#[trigger] res@[k].0.has(x, y))),
            forall|x: int, y: int|
                boundary.has(x, y) && old(self).value_at(x, y) is Some ==> exists|k: int|
                    0 <= k < res@.len() && (#[trigger] res@[k]).0.has(x, y),
    {
        let ghost orig = self.bands@;
        let mut res: Vec<(Rect, V)> = Vec::new();
        let mut cursor = boundary.tl;
        proof {
            lemma_box_finite(boundary);
            lemma_set_subset_finite(box_set(boundary), self.points_in(boundary));
        }
        loop
            invariant
                self.wf(),
                cursor.x == boundary.tl.x,
                boundary.tl.y <= cursor.y,
                self.points_in(boundary).finite(),
                box_set(boundary).finite(),
                forall|x: int, y: int|
                    #[trigger] lookup(self.bands@, x, y) == if exists|k: int| 0 <= k < res@.len() && (#[trigger] res@[k]).0.has(x, y) {
                        None
                    } else {
                        lookup(orig, x, y)
                    },
                forall|x: int, y: int| boundary.has(x, y) && y < cursor.y ==> lookup(self.bands@, x, y) == None::<V>,
                forall|k: int|
                    0 <= k < res@.len() ==> {
                        &&& !(#[trigger] res@[k]).0.spec_is_empty()
                        &&& res@[k].0.within(boundary)
                        &&& forall|x: int, y: int| res@[k].0.has(x, y) ==> lookup(orig, x, y) == Some(res@[k].1)
                    },
                forall|j: int, k: int, x: int, y: int|
                    0 <= j < k < res@.len() ==> !((#[trigger] res@[j].0.has(x, y)) && (#[trigger] res@[k].0.has(x, y))),
            ensures
                forall|x: int, y: int| boundary.has(x, y) ==> lookup(self.bands@, x, y) == None::<V>,
            decreases self.points_in(boundary).len(),
        {
            let ghost before = self.bands@;
            let ghost c_before = cursor;
            let found = self.find_next_rect(boundary, &mut cursor, Ghost(0));
            match found {
                None => {
                    proof {
                        assert forall|x: int, y: int| boundary.has(x, y) implies lookup(self.bands@, x, y) == None::<V> by {
                            if y >= c_before.y {
                            }
                        }
                    }
                    break;
                },
                Some((b, i, rect0)) => {
                    let value = self.bands[b].regions[i].value;
                    let mut rect = rect0;
                    proof {
                        assert forall|x: int, y: int| rect.has(x, y) implies lookup(self.bands@, x, y) == Some(value) by {
                            lemma_lookup_at(self.bands@, b as int, x, y);
                            lemma_lookup_x_at(self.bands@[b as int].regions@, i as int, x);
                        }
                    }
                    self.rect_grow_x(boundary, b, i, &mut rect);
                    self.rect_grow_y(boundary, b, &mut rect, &value, true);
                    let ghost old_points = self.points_in(boundary);
                    let ghost res0 = res@;
                    proof {
                        assert(rect.has(rect.tl.x as int, rect.tl.y as int));
                        assert(rect.within(boundary));
                        assert forall|x: int, y: int| rect.has(x, y) implies lookup(orig, x, y) == Some(value)
                            && !(exists|k: int| 0 <= k < res0.len() && (#[trigger] res0[k]).0.has(x, y)) by {
                            assert(lookup(self.bands@, x, y) == Some(value));
                        }
                    }
                    self.remove(rect);
                    res.push((rect, value));
                    proof {
                        let new_points = self.points_in(boundary);
                        assert(new_points.subset_of(old_points));
                        assert(!new_points.contains((rect.tl.x as int, rect.tl.y as int)));
                        assert(old_points.contains((rect.tl.x as int, rect.tl.y as int)));
                        new_points.lemma_subset_not_in_lt(old_points, (rect.tl.x as int, rect.tl.y as int));
                        lemma_set_subset_finite(box_set(boundary), new_points);
                        assert forall|x: int, y: int|
                            #[trigger] lookup(self.bands@, x, y) == if exists|k: int| 0 <= k < res@.len() && (#[trigger] res@[k]).0.has(x, y) {
                                None
                            } else {
                                lookup(orig, x, y)
                            } by {
                            assert(self.value_at(x, y) == if rect.has(x, y) { None } else { lookup(before, x, y) });
                            assert(lookup(before, x, y) == if exists|k: int| 0 <= k < res0.len() && (#[trigger] res0[k]).0.has(x, y) {
                                None
                            } else {
                                lookup(orig, x, y)
                            });
                            if rect.has(x, y) {
                                assert(res@[res@.len() - 1].0.has(x, y));
                            } else {
                                if exists|k: int| 0 <= k < res@.len() && (#[trigger] res@[k]).0.has(x, y) {
                                    let k = choose|k: int| 0 <= k < res@.len() && (#[trigger] res@[k]).0.has(x, y);
                                    assert(res0[k] == res@[k]);
                                }
                                if exists|k: int| 0 <= k < res0.len() && (#[trigger] res0[k]).0.has(x, y) {
                                    let k = choose|k: int| 0 <= k < res0.len() && (#[trigger] res0[k]).0.has(x, y);
                                    assert(res0[k] == res@[k]);
                                }
                            }
                        }
                        assert forall|x: int, y: int| boundary.has(x, y) && y < cursor.y implies lookup(self.bands@, x, y) == None::<V> by {
                            assert(self.value_at(x, y) == if rect.has(x, y) { None } else { lookup(before, x, y) });
                            if y >= c_before.y {
                            }
                        }
                        assert forall|k: int| 0 <= k < res@.len() implies {
                            &&& !(#[trigger] res@[k]).0.spec_is_empty()
                            &&& res@[k].0.within(boundary)
                            &&& forall|x: int, y: int| res@[k].0.has(x, y) ==> lookup(orig, x, y) == Some(res@[k].1)
                        } by {
                            if k < res0.len() {
                                assert(res0[k] == res@[k]);
                            }
                        }
                        assert forall|j: int, k: int, x: int, y: int|
                            0 <= j < k < res@.len() implies !((#[trigger] res@[j].0.has(x, y)) && (#[trigger] res@[k].0.has(x, y))) by {
                            assert(res0[j] == res@[j]);
                            if k < res0.len() {
                                assert(res0[k] == res@[k]);
                            } else if res@[j].0.has(x, y) && rect.has(x, y) {
                                assert(0 <= j < res0.len() && res0[j].0.has(x, y));
                            }
                        }
                    }
                },
            }
        }
        proof {
            assert forall|x: int, y: int|
                #[trigger] self.value_at(x, y) == if boundary.has(x, y) {
                    None
                } else {
                    lookup(orig, x, y)
                } by {
                if !boundary.has(x, y) {
                    if exists|k: int| 0 <= k < res@.len() && (#[trigger] res@[k]).0.has(x, y) {
                        let k = choose|k: int| 0 <= k < res@.len() && (#[trigger] res@[k]).0.has(x, y);
                        assert(res@[k].0.within(boundary));
                    }
                }
            }
            assert forall|x: int, y: int|
                boundary.has(x, y) && lookup(orig, x, y) is Some implies exists|k: int|
                    0 <= k < res@.len() && (#[trigger] res@[k]).0.has(x, y) by {
                assert(lookup(self.bands@, x, y) == None::<V>);
            }
        }
        res
    }
}



impl<V: Copy + RegionValue> BandedRegion<V> {
    /// Walks `boundary` from the top left, returning disjoint rectangles that each hold one
    /// value, widened over neighbouring runs and bands of the same value; together they cover
    /// every point of `boundary` that holds a value. Their left, right and bottom edges stay
    /// within `boundary`; the top edge is that of the band a rectangle starts in, and can lie
    /// above `boundary`.
    pub fn query(&self, boundary: Rect) -> (res: Vec<(Rect, V)>)
        requires
            self.wf(),
        ensures
            forall|k: int|
                0 <= k < res@.len() ==> {
                    &&& !(#[trigger] res@[k]).0.spec_is_empty()
                    &&& boundary.tl.x <= res@[k].0.tl.x
                    &&& res@[k].0.br.x <= boundary.br.x
                    &&& res@[k].0.br.y <= boundary.br.y
                    &&& forall|x: int, y: int| res@[k].0.has(x, y) ==> self.value_at(x, y) == Some(res@[k].1)
                },
            forall|x: int, y: int|
                boundary.has(x, y) && #[trigger] self.value_at(x, y) is Some ==> exists|k: int|
                    0 <= k < res@.len() && (#[trigger] res@[k]).0.has(x, y),
            forall|j: int, k: int, x: int, y: int|
                0 <= j < k < res@.len() ==> !((#[trigger] res@[j].0.has(x, y)) && (#[trigger] res@[k].0.has(x, y))),
    {
        let mut res: Vec<(Rect, V)> = Vec::new();
        let mut cursor = boundary.tl;
        let ghost mut lo: int = 0;
        let ghost mut c_end: int = 0;
        let n = self.bands.len();
        loop
            invariant_except_break
                cursor.x != boundary.tl.x ==> exists|jj: int|
                    0 <= jj < self.bands@.len() && (#[trigger] self.bands@[jj]).y_start == cursor.y && self.bands@[jj].y_end
                        == c_end,
                forall|x: int, y: int|
                    boundary.has(x, y) && walked(cursor, c_end, x, y) && #[trigger] lookup(self.bands@, x, y) is Some
                        ==> exists|k: int| 0 <= k < res@.len() && (#[trigger] res@[k]).0.has(x, y),
                forall|k: int, x: int, y: int|
                    0 <= k < res@.len() && #[trigger] res@[k].0.has(x, y) ==> walked(cursor, c_end, x, y),
                res@.len() > 0 ==> cursor.x != boundary.tl.x,
            invariant
                forall|j: int, k: int, x: int, y: int|
                    0 <= j < k < res@.len() ==> !((#[trigger] res@[j].0.has(x, y)) && (#[trigger] res@[k].0.has(x, y))),
                self.wf(),
                n == self.bands@.len(),
                boundary.tl.x <= cursor.x,
                0 <= lo <= n,
                forall|k: int| 0 <= k < lo ==> (#[trigger] self.bands@[k]).y_end <= cursor.y,
                forall|k: int|
                    0 <= k < res@.len() ==> {
                        &&& !(#[trigger] res@[k]).0.spec_is_empty()
                        &&& boundary.tl.x <= res@[k].0.tl.x
                        &&& res@[k].0.br.x <= boundary.br.x
                        &&& res@[k].0.br.y <= boundary.br.y
                        &&& forall|x: int, y: int| res@[k].0.has(x, y) ==> self.value_at(x, y) == Some(res@[k].1)
                    },
            ensures
                forall|k: int|
                    0 <= k < res@.len() ==> {
                        &&& !(#[trigger] res@[k]).0.spec_is_empty()
                        &&& boundary.tl.x <= res@[k].0.tl.x
                        &&& res@[k].0.br.x <= boundary.br.x
                        &&& res@[k].0.br.y <= boundary.br.y
                        &&& forall|x: int, y: int| res@[k].0.has(x, y) ==> self.value_at(x, y) == Some(res@[k].1)
                    },
                forall|x: int, y: int|
                    boundary.has(x, y) && #[trigger] self.value_at(x, y) is Some ==> exists|k: int|
                        0 <= k < res@.len() && (#[trigger] res@[k]).0.has(x, y),
                forall|j: int, k: int, x: int, y: int|
                    0 <= j < k < res@.len() ==> !((#[trigger] res@[j].0.has(x, y)) && (#[trigger] res@[k].0.has(x, y))),
            decreases n - lo, (if cursor.x <= boundary.br.x { boundary.br.x - cursor.x } else { 0 }),
        {
            let ghost c_before = cursor;
            let found = self.find_next_rect(boundary, &mut cursor, Ghost(c_end));
            let ghost c1 = cursor;
            match found {
                None => {
                    proof {
                        assert forall|x: int, y: int|
                            boundary.has(x, y) && #[trigger] self.value_at(x, y) is Some implies exists|k: int|
                                0 <= k < res@.len() && (#[trigger] res@[k]).0.has(x, y) by {
                            assert(walked(c_before, c_end, x, y));
                            assert(lookup(self.bands@, x, y) is Some);
                        }
                    }
                    break;
                },
                Some((b, i, rect0)) => {
                    let value = self.bands[b].regions[i].value;
                    let mut rect = rect0;
                    proof {
                        assert forall|x: int, y: int| rect.has(x, y) implies lookup(self.bands@, x, y) == Some(value) by {
                            lemma_lookup_at(self.bands@, b as int, x, y);
                            lemma_lookup_x_at(self.bands@[b as int].regions@, i as int, x);
                        }
                        if cursor != c_before {
                            let k = choose|k: int| 0 <= k < b && c_before.y < (#[trigger] self.bands@[k]).y_end;
                            assert(k >= lo);
                        } else {
                            if b < lo {
                                assert(self.bands@[b as int].y_end <= cursor.y);
                            }
                        }
                    }
                    self.rect_grow_x(boundary, b, i, &mut rect);
                    let ghost rect_x = rect;
                    let y = self.rect_grow_y(boundary, b, &mut rect, &value, false);
                    let ghost j = choose|k: int| {
                        &&& b <= k < self.bands@.len()
                        &&& y == (#[trigger] self.bands@[k]).y_start
                        &&& rect.br.y == spec_min(self.bands@[k].y_end as int, boundary.br.y as int)
                        &&& forall|m: int| b <= m < k ==> (#[trigger] self.bands@[m]).y_end == self.bands@[m + 1].y_start
                        &&& !false ==> forall|m: int, x: int|
                            b <= m < k && rect_x.br.x <= x < boundary.br.x ==> #[trigger] lookup_x(self.bands@[m].regions@, x)
                                == None::<V>
                        &&& !false ==> forall|m: int, x: int|
                            b < m <= k && boundary.tl.x <= x < rect_x.tl.x ==> #[trigger] lookup_x(self.bands@[m].regions@, x)
                                == None::<V>
                    };
                    proof {
                        assert forall|k: int| 0 <= k < j implies (#[trigger] self.bands@[k]).y_end <= y by {
                            assert(self.bands@[k].y_end <= self.bands@[j].y_start);
                        }
                        lo = j;
                    }
                    let ghost res0 = res@;
                    let ghost c_end0 = c_end;
                    let ghost jj0 = if c_before.x != boundary.tl.x {
                        choose|jj: int|
                            0 <= jj < self.bands@.len() && (#[trigger] self.bands@[jj]).y_start == c_before.y
                                && self.bands@[jj].y_end == c_end0
                    } else {
                        0
                    };
                    cursor.y = y;
                    cursor.x = rect.br.x;
                    res.push((rect, value));
                    proof {
                        c_end = self.bands@[j].y_end as int;
                        let c2 = cursor;
                        assert forall|x: int, yy: int|
                            boundary.has(x, yy) && walked(c2, c_end, x, yy) && #[trigger] lookup(self.bands@, x, yy) is Some
                                implies exists|k: int| 0 <= k < res@.len() && (#[trigger] res@[k]).0.has(x, yy) by {
                            if walked(c_before, c_end0, x, yy) {
                                let k = choose|k: int| 0 <= k < res0.len() && (#[trigger] res0[k]).0.has(x, yy);
                                assert(res@[k] == res0[k]);
                            } else {
                                assert(yy >= c1.y);
                                let m = choose|m: int| 0 <= m < self.bands@.len() && (#[trigger] self.bands@[m]).has_y(yy);
                                lemma_lookup_at(self.bands@, m, x, yy);
                                if m < b {
                                    assert(self.bands@[m].y_end <= c1.y);
                                }
                                if m > j {
                                    assert(self.bands@[j].y_end <= self.bands@[m].y_start);
                                }
                                assert(b <= m <= j);
                                if rect.has(x, yy) {
                                    assert(res@[res@.len() - 1].0.has(x, yy));
                                } else if x < rect.tl.x {
                                    if m == b {
                                        assert(lookup(self.bands@, x, yy) == None::<V>);
                                    } else {
                                        assert(lookup_x(self.bands@[m].regions@, x) == None::<V>);
                                    }
                                } else {
                                    assert(x >= rect.br.x);
                                    assert(m < j);
                                    assert(lookup_x(self.bands@[m].regions@, x) == None::<V>);
                                }
                            }
                        }
                        assert forall|x: int, yy: int| rect.has(x, yy) implies !walked(c_before, c_end0, x, yy) by {
                            assert(yy >= c1.y);
                        }
                        assert forall|k: int, x: int, yy: int|
                            0 <= k < res@.len() && #[trigger] res@[k].0.has(x, yy) implies walked(c2, c_end, x, yy) by {
                            if k < res0.len() {
                                assert(res@[k] == res0[k]);
                                assert(walked(c_before, c_end0, x, yy));
                                if c1 == c_before {
                                    if j > b {
                                        assert(self.bands@[b as int].y_end <= self.bands@[j].y_start);
                                    }
                                } else {
                                    if b <= jj0 {
                                        assert(self.bands@[jj0].y_end > c1.y);
                                        assert(false);
                                    }
                                    assert(self.bands@[jj0].y_end <= self.bands@[b as int].y_start);
                                }
                            }
                        }
                        assert forall|j1: int, k: int, x: int, yy: int|
                            0 <= j1 < k < res@.len() implies !((#[trigger] res@[j1].0.has(x, yy)) && (#[trigger] res@[k].0.has(x, yy))) by {
                            assert(res@[j1] == res0[j1]);
                            if k < res0.len() {
                                assert(res@[k] == res0[k]);
                            } else if res@[j1].0.has(x, yy) && rect.has(x, yy) {
                                assert(walked(c_before, c_end0, x, yy));
                            }
                        }
                    }
                    proof {
                        assert forall|k: int| 0 <= k < res@.len() implies {
                            &&& !(#[trigger] res@[k]).0.spec_is_empty()
                            &&& boundary.tl.x <= res@[k].0.tl.x
                            &&& res@[k].0.br.x <= boundary.br.x
                            &&& res@[k].0.br.y <= boundary.br.y
                            &&& forall|x: int, y: int| res@[k].0.has(x, y) ==> self.value_at(x, y) == Some(res@[k].1)
                        } by {
                            if k < res@.len() - 1 {
                                assert(res@[k] == old_res_at(res@, k));
                            }
                        }
                    }
                },
            }
        }
        res
    }
}

spec fn old_res_at<V>(s: Seq<(Rect, V)>, k: int) -> (Rect, V) {
    s[k]
}


/// `c` has the bands and runs of `a`, each run with `f` applied to its value.
pub open spec fn mapped_shape<V, F: Fn(Rect, V) -> V>(f: F, a: Seq<Band<V>>, c: Seq<Band<V>>) -> bool {
    &&& a.len() == c.len()
    &&& forall|b: int|
        0 <= b < a.len() ==> {
            &&& (#[trigger] c[b]).y_start == a[b].y_start
            &&& c[b].y_end == a[b].y_end
            &&& c[b].regions@.len() == a[b].regions@.len()
            &&& forall|k: int|
                0 <= k < a[b].regions@.len() ==> {
                    &&& (#[trigger] c[b].regions@[k]).x_start == a[b].regions@[k].x_start
                    &&& c[b].regions@[k].x_end == a[b].regions@[k].x_end
                    &&& f.ensures(
                        (
                            Rect {
                                tl: Point { x: a[b].regions@[k].x_start, y: a[b].y_start },
                                br: Point { x: a[b].regions@[k].x_end, y: a[b].y_end },
                            },
                            a[b].regions@[k].value,
                        ),
                        c[b].regions@[k].value,
                    )
                }
        }
}

proof fn lemma_mapped_shape<V, F: Fn(Rect, V) -> V>(f: F, a: Seq<Band<V>>, c: Seq<Band<V>>, x: int, y: int)
    requires
        bands_wf(a),
        mapped_shape(f, a, c),
    ensures
        bands_wf(c),
        lookup(a, x, y) is None ==> lookup(c, x, y) is None,
        lookup(a, x, y) matches Some(v) ==> exists|r: Rect|
            r.has(x, y) && f.ensures((r, v), #[trigger] lookup(c, x, y).unwrap()) && lookup(c, x, y) is Some,
{
    assert forall|i: int| 0 <= i < c.len() implies (#[trigger] c[i]).y_start < c[i].y_end && regions_wf(c[i].regions@) by {
        let ra = a[i].regions@;
        let rc = c[i].regions@;
        assert forall|p: int, q: int| 0 <= p < q < rc.len() implies (#[trigger] rc[p]).x_end <= (#[trigger] rc[q]).x_start by {
            assert(ra[p].x_end <= ra[q].x_start);
        }
        assert forall|p: int| 0 <= p < rc.len() implies (#[trigger] rc[p]).x_start < rc[p].x_end by {
            assert(ra[p].x_start < ra[p].x_end);
        }
    }
    assert forall|i: int, j: int| 0 <= i < j < c.len() implies (#[trigger] c[i]).y_end <= (#[trigger] c[j]).y_start by {
        assert(a[i].y_end <= a[j].y_start);
    }
    if exists|b: int| 0 <= b < a.len() && (#[trigger] a[b]).has_y(y) {
        let b = choose|b: int| 0 <= b < a.len() && (#[trigger] a[b]).has_y(y);
        lemma_lookup_at(a, b, x, y);
        assert(c[b].has_y(y));
        lemma_lookup_at(c, b, x, y);
        let ra = a[b].regions@;
        let rc = c[b].regions@;
        if exists|k: int| 0 <= k < ra.len() && (#[trigger] ra[k]).has(x) {
            let k = choose|k: int| 0 <= k < ra.len() && (#[trigger] ra[k]).has(x);
            lemma_lookup_x_at(ra, k, x);
            assert(rc[k].has(x));
            lemma_lookup_x_at(rc, k, x);
            let r = Rect {
                tl: Point { x: ra[k].x_start, y: a[b].y_start },
                br: Point { x: ra[k].x_end, y: a[b].y_end },
            };
            assert(r.has(x, y));
        } else {
            assert forall|k: int| 0 <= k < rc.len() implies !(#[trigger] rc[k]).has(x) by {
                assert(!ra[k].has(x));
            }
        }
    } else {
        assert forall|b: int| 0 <= b < c.len() implies !(#[trigger] c[b]).has_y(y) by {
            assert(!a[b].has_y(y));
        }
    }
}

impl<V: Copy> BandedRegion<V> {
    /// Replaces the value of each run by `update_fn` applied to the run's rectangle and value;
    /// the points that hold a value stay the same.
    pub fn update_values<F: Fn(Rect, V) -> V>(&mut self, update_fn: F)
        requires
            old(self).wf(),
            forall|r: Rect, v: V| update_fn.requires((r, v)),
        ensures
            final(self).wf(),
            mapped_shape(update_fn, old(self).bands@, final(self).bands@),
            forall|x: int, y: int| #[trigger] old(self).value_at(x, y) is None ==> final(self).value_at(x, y) is None,
            forall|x: int, y: int|
                #[trigger] old(self).value_at(x, y) matches Some(v) ==> final(self).value_at(x, y) is Some
                    && exists|r: Rect| r.has(x, y) && update_fn.ensures((r, v), final(self).value_at(x, y).unwrap()),
    {
        let ghost a = self.bands@;
        let n = self.bands.len();
        let mut out: Vec<Band<V>> = Vec::new();
        let mut i: usize = 0;
        while i < n
            invariant
                a == self.bands@,
                n == a.len(),
                bands_wf(a),
                forall|r: Rect, v: V| update_fn.requires((r, v)),
                0 <= i <= n,
                mapped_shape(update_fn, a.subrange(0, i as int), out@),
            decreases n - i,
        {
            let y_start = self.bands[i].y_start;
            let y_end = self.bands[i].y_end;
            let m = self.bands[i].regions.len();
            let ghost ra = a[i as int].regions@;
            let mut regs: Vec<Region<V>> = Vec::new();
            let mut k: usize = 0;
            while k < m
                invariant
                    a == self.bands@,
                    0 <= i < n,
                    n == a.len(),
                    ra == a[i as int].regions@,
                    m == ra.len(),
                    y_start == a[i as int].y_start,
                    y_end == a[i as int].y_end,
                    forall|r: Rect, v: V| update_fn.requires((r, v)),
                    0 <= k <= m,
                    regs@.len() == k,
                    forall|q: int|
                        0 <= q < k ==> {
                            &&& (#[trigger] regs@[q]).x_start == ra[q].x_start
                            &&& regs@[q].x_end == ra[q].x_end
                            &&& update_fn.ensures(
                                (
                                    Rect {
                                        tl: Point { x: ra[q].x_start, y: y_start },
                                        br: Point { x: ra[q].x_end, y: y_end },
                                    },
                                    ra[q].value,
                                ),
                                regs@[q].value,
                            )
                        },
                decreases m - k,
            {
                let r = self.bands[i].regions[k];
                let rect = Rect::new(r.x_start, y_start, r.x_end, y_end);
                let v = update_fn(rect, r.value);
                regs.push(Region { x_start: r.x_start, x_end: r.x_end, value: v });
                k = k + 1;
            }
            let ghost out0 = out@;
            out.push(Band { y_start, y_end, regions: regs });
            i = i + 1;
            proof {
                let sub = a.subrange(0, i as int);
                assert forall|b: int| 0 <= b < sub.len() implies {
                    &&& (#[trigger] out@[b]).y_start == sub[b].y_start
                    &&& out@[b].y_end == sub[b].y_end
                    &&& out@[b].regions@.len() == sub[b].regions@.len()
                    &&& forall|k: int|
                        0 <= k < sub[b].regions@.len() ==> {
                            &&& (#[trigger] out@[b].regions@[k]).x_start == sub[b].regions@[k].x_start
                            &&& out@[b].regions@[k].x_end == sub[b].regions@[k].x_end
                            &&& update_fn.ensures(
                                (
                                    Rect {
                                        tl: Point { x: sub[b].regions@[k].x_start, y: sub[b].y_start },
                                        br: Point { x: sub[b].regions@[k].x_end, y: sub[b].y_end },
                                    },
                                    sub[b].regions@[k].value,
                                ),
                                out@[b].regions@[k].value,
                            )
                        }
                } by {
                    if b < i - 1 {
                        assert(out@[b] == out0[b]);
                        assert(sub[b] == a.subrange(0, i - 1)[b]);
                    }
                }
            }
        }
        assert(a.subrange(0, n as int) == a);
        self.bands = out;
        proof {
            assert forall|x: int, y: int| #[trigger] old(self).value_at(x, y) is None implies self.value_at(x, y) is None by {
                lemma_mapped_shape(update_fn, a, self.bands@, x, y);
            }
            assert forall|x: int, y: int| #[trigger] old(self).value_at(x, y) is Some implies self.value_at(x, y) is Some
                && exists|r: Rect| r.has(x, y) && update_fn.ensures((r, old(self).value_at(x, y).unwrap()), self.value_at(x, y).unwrap()) by {
                lemma_mapped_shape(update_fn, a, self.bands@, x, y);
            }
            lemma_mapped_shape(update_fn, a, self.bands@, 0, 0);
        }
    }
}

/// No two neighbouring runs touch and hold the same value.
pub open spec fn regions_maximal<V>(s: Seq<Region<V>>) -> bool {
    forall|i: int, j: int| 0 <= i && j == i + 1 && j < s.len()
        ==> !((#[trigger] s[i]).x_end == (#[trigger] s[j]).x_start && s[i].value == s[j].value)
}

/// No two neighbouring bands touch and hold the same runs, and every band's runs are merged.
pub open spec fn bands_maximal<V>(s: Seq<Band<V>>) -> bool {
    &&& forall|i: int| 0 <= i < s.len() ==> regions_maximal((#[trigger] s[i]).regions@)
    &&& forall|i: int, j: int| 0 <= i && j == i + 1 && j < s.len()
        ==> !((#[trigger] s[i]).y_end == (#[trigger] s[j]).y_start && s[i].regions@ == s[j].regions@)
}

/// Stretching the last run rightwards keeps the band well formed and only adds the new points.
proof fn lemma_extend_last_region<V>(s: Seq<Region<V>>, m: Region<V>)
    requires
        regions_wf(s),
        s.len() > 0,
        m.x_start == s.last().x_start,
        m.x_end >= s.last().x_end,
        m.value == s.last().value,
    ensures
        regions_wf(s.update(s.len() - 1, m)),
        forall|x: int| #[trigger] lookup_x(s.update(s.len() - 1, m), x) == if m.has(x) {
            Some(m.value)
        } else {
            lookup_x(s, x)
        },
{
    let d = s.drop_last();
    assert(s.update(s.len() - 1, m) =~= d.push(m));
    assert(s =~= d.push(s.last()));
    assert(regions_wf(d)) by {
        assert forall|i: int, j: int| 0 <= i < j < d.len() implies (#[trigger] d[i]).x_end <= (#[trigger] d[j]).x_start by {
            assert(d[i] == s[i] && d[j] == s[j]);
        }
    }
    assert forall|k: int| 0 <= k < d.len() implies (#[trigger] d[k]).x_end <= m.x_start by {
        assert(d[k] == s[k]);
        assert(s[k].x_end <= s[s.len() - 1].x_start);
    }
    lemma_push_region(d, m);
    lemma_push_region(d, s.last());
}

/// Stretching the last band downwards over a band with the same runs keeps the region well
/// formed and gives the new rows those runs.
proof fn lemma_extend_last_band<V>(s: Seq<Band<V>>, m: Band<V>)
    requires
        bands_wf(s),
        s.len() > 0,
        m.y_start == s.last().y_start,
        m.y_end >= s.last().y_end,
        m.regions@ == s.last().regions@,
    ensures
        bands_wf(s.update(s.len() - 1, m)),
        forall|x: int, y: int| #[trigger] lookup(s.update(s.len() - 1, m), x, y) == if m.has_y(y) {
            lookup_x(m.regions@, x)
        } else {
            lookup(s, x, y)
        },
{
    let d = s.drop_last();
    assert(s.update(s.len() - 1, m) =~= d.push(m));
    assert(s =~= d.push(s.last()));
    assert(bands_wf(d)) by {
        assert forall|i: int| 0 <= i < d.len() implies (#[trigger] d[i]).y_start < d[i].y_end && regions_wf(d[i].regions@) by {
            assert(d[i] == s[i]);
        }
        assert forall|i: int, j: int| 0 <= i < j < d.len() implies (#[trigger] d[i]).y_end <= (#[trigger] d[j]).y_start by {
            assert(d[i] == s[i] && d[j] == s[j]);
        }
    }
    assert forall|k: int| 0 <= k < d.len() implies (#[trigger] d[k]).y_end <= m.y_start by {
        assert(d[k] == s[k]);
        assert(s[k].y_end <= s[s.len() - 1].y_start);
    }
    assert(regions_wf(s[s.len() - 1].regions@));
    lemma_push_band(d, m);
    lemma_push_band(d, s.last());
}

/// The runs of a band with every run of touching runs of one value merged into one.
fn coalesce_regions<V: Copy + RegionValue>(s: &Vec<Region<V>>) -> (out: Vec<Region<V>>)
    requires
        regions_wf(s@),
    ensures
        regions_wf(out@),
        regions_maximal(out@),
        forall|x: int| #[trigger] lookup_x(out@, x) == lookup_x(s@, x),
{
    let n = s.len();
    let mut out: Vec<Region<V>> = Vec::new();
    let ghost mut frontier: int = i32::MIN as int;
    let mut i: usize = 0;
    while i < n
        invariant
            n == s@.len(),
            regions_wf(s@),
            0 <= i <= n,
            regions_wf(out@),
            regions_maximal(out@),
            i > 0 ==> frontier == s@[i - 1].x_end && out@.len() > 0 && out@.last().x_end == frontier,
            i == 0 ==> frontier == i32::MIN && out@.len() == 0,
            forall|k: int| 0 <= k < out@.len() ==> (#[trigger] out@[k]).x_end <= frontier,
            forall|x: int| x < frontier ==> #[trigger] lookup_x(out@, x) == lookup_x(s@, x),
        decreases n - i,
    {
        let r = s[i];
        let ghost out0 = out@;
        proof {
            assert(s@[i as int] == r);
            assert(frontier <= r.x_start) by {
                if i > 0 {
                    assert(s@[i - 1].x_end <= s@[i as int].x_start);
                }
            }
        }
        let l = out.len();
        if l > 0 && out[l - 1].x_end == r.x_start && out[l - 1].value.same(&r.value) {
            let m = Region { x_start: out[l - 1].x_start, x_end: r.x_end, value: r.value };
            proof {
                lemma_extend_last_region(out@, m);
            }
            out.set(l - 1, m);
            proof {
                assert forall|x: int| x < r.x_end implies #[trigger] lookup_x(out@, x) == lookup_x(s@, x) by {
                    if x >= frontier {
                        lemma_lookup_x_at(s@, i as int, x);
                    } else if m.has(x) {
                        lemma_lookup_x_at(out0, l - 1, x);
                    }
                }
                assert forall|a: int, b: int| 0 <= a && b == a + 1 && b < out@.len()
                    implies !((#[trigger] out@[a]).x_end == (#[trigger] out@[b]).x_start && out@[a].value == out@[b].value) by {
                    assert(out@[a] == out0[a]);
                    assert(out0[a].x_end == out0[b].x_start && out0[a].value == out0[b].value
                        ==> out@[a].x_end == out@[b].x_start && out@[a].value == out@[b].value);
                }
            }
        } else {
            proof {
                lemma_push_region(out@, r);
            }
            out.push(r);
            proof {
                assert forall|x: int| x < r.x_end implies #[trigger] lookup_x(out@, x) == lookup_x(s@, x) by {
                    if x >= frontier {
                        if x < r.x_start {
                            lemma_lookup_x_gap(s@, i as int, frontier, x);
                        } else {
                            lemma_lookup_x_at(s@, i as int, x);
                        }
                        lemma_lookup_x_none(out0, x);
                    }
                }
                assert forall|a: int, b: int| 0 <= a && b == a + 1 && b < out@.len()
                    implies !((#[trigger] out@[a]).x_end == (#[trigger] out@[b]).x_start && out@[a].value == out@[b].value) by {
                    assert(out@[a] == out0[a]);
                    if b < l {
                        assert(out@[b] == out0[b]);
                    }
                }
            }
        }
        proof {
            frontier = r.x_end as int;
        }
        i = i + 1;
    }
    proof {
        assert forall|x: int| #[trigger] lookup_x(out@, x) == lookup_x(s@, x) by {
            if x >= frontier {
                lemma_lookup_x_gap(s@, n as int, frontier, x);
                lemma_lookup_x_none(out@, x);
            }
        }
    }
    out
}

/// Two run lists are the same.
fn same_regions<V: Copy + RegionValue>(a: &Vec<Region<V>>, b: &Vec<Region<V>>) -> (r: bool)
    ensures
        r == (a@ == b@),
{
    if a.len() != b.len() {
        return false;
    }
    let mut i: usize = 0;
    while i < a.len()
        invariant
            a@.len() == b@.len(),
            0 <= i <= a@.len(),
            forall|q: int| 0 <= q < i ==> a@[q] == b@[q],
        decreases a@.len() - i,
    {
        if a[i].x_start != b[i].x_start || a[i].x_end != b[i].x_end || !a[i].value.same(&b[i].value) {
            return false;
        }
        i = i + 1;
    }
    assert(a@ =~= b@);
    true
}

impl<V: Copy + RegionValue> BandedRegion<V> {
    /// Merges touching runs of one value within every band, then touching bands with the same
    /// runs; the value at every point stays.
    pub fn coalesce(&mut self)
        requires
            old(self).wf(),
        ensures
            final(self).wf(),
            bands_maximal(final(self).bands@),
            forall|x: int, y: int| #[trigger] final(self).value_at(x, y) == old(self).value_at(x, y),
    {
        let ghost s = self.bands@;
        let n = self.bands.len();
        let mut out: Vec<Band<V>> = Vec::new();
        let ghost mut frontier: int = i32::MIN as int;
        let mut i: usize = 0;
        while i < n
            invariant
                s == self.bands@,
                n == s.len(),
                bands_wf(s),
                0 <= i <= n,
                bands_wf(out@),
                bands_maximal(out@),
                i > 0 ==> frontier == s[i - 1].y_end && out@.len() > 0 && out@.last().y_end == frontier,
                i == 0 ==> frontier == i32::MIN && out@.len() == 0,
                forall|k: int| 0 <= k < out@.len() ==> (#[trigger] out@[k]).y_end <= frontier,
                forall|x: int, y: int| y < frontier ==> #[trigger] lookup(out@, x, y) == lookup(s, x, y),
            decreases n - i,
        {
            let regions = coalesce_regions(&self.bands[i].regions);
            let ys = self.bands[i].y_start;
            let ye = self.bands[i].y_end;
            let ghost out0 = out@;
            proof {
                assert(frontier <= ys) by {
                    if i > 0 {
                        assert(s[i - 1].y_end <= s[i as int].y_start);
                    }
                }
            }
            let l = out.len();
            if l > 0 && out[l - 1].y_end == ys && same_regions(&out[l - 1].regions, &regions) {
                let y0 = out[l - 1].y_start;
                let m = Band { y_start: y0, y_end: ye, regions };
                proof {
                    lemma_extend_last_band(out@, m);
                }
                out.set(l - 1, m);
                proof {
                    assert forall|x: int, y: int| y < ye implies #[trigger] lookup(out@, x, y) == lookup(s, x, y) by {
                        if y >= frontier {
                            lemma_lookup_at(s, i as int, x, y);
                        } else if m.has_y(y) {
                            lemma_lookup_at(out0, l - 1, x, y);
                        }
                    }
                    assert forall|a: int| 0 <= a < out@.len() implies regions_maximal((#[trigger] out@[a]).regions@) by {
                        if a < l - 1 {
                            assert(out@[a] == out0[a]);
                        }
                    }
                    assert forall|a: int, b: int| 0 <= a && b == a + 1 && b < out@.len()
                        implies !((#[trigger] out@[a]).y_end == (#[trigger] out@[b]).y_start && out@[a].regions@ == out@[b].regions@) by {
                        assert(out@[a] == out0[a]);
                        assert(out@[b].y_start == out0[b].y_start && out@[b].regions@ == out0[b].regions@);
                    }
                }
            } else {
                let band = Band { y_start: ys, y_end: ye, regions };
                proof {
                    lemma_push_band(out@, band);
                }
                out.push(band);
                proof {
                    assert forall|x: int, y: int| y < ye implies #[trigger] lookup(out@, x, y) == lookup(s, x, y) by {
                        if y >= frontier {
                            if y < ys {
                                lemma_lookup_gap(s, i as int, frontier, x, y);
                            } else {
                                lemma_lookup_at(s, i as int, x, y);
                            }
                            lemma_lookup_none(out0, x, y);
                        }
                    }
                    assert forall|a: int| 0 <= a < out@.len() implies regions_maximal((#[trigger] out@[a]).regions@) by {
                        if a < l {
                            assert(out@[a] == out0[a]);
                        }
                    }
                    assert forall|a: int, b: int| 0 <= a && b == a + 1 && b < out@.len()
                        implies !((#[trigger] out@[a]).y_end == (#[trigger] out@[b]).y_start && out@[a].regions@ == out@[b].regions@) by {
                        assert(out@[a] == out0[a]);
                        if b < l {
                            assert(out@[b] == out0[b]);
                        }
                    }
                }
            }
            proof {
                frontier = ye as int;
            }
            i = i + 1;
        }
        proof {
            assert forall|x: int, y: int| #[trigger] lookup(out@, x, y) == lookup(s, x, y) by {
                if y >= frontier {
                    lemma_lookup_gap(s, n as int, frontier, x, y);
                    lemma_lookup_none(out@, x, y);
                }
            }
        }
        self.bands = out;
    }
}

} // verus!
