use vstd::prelude::*;

use crate::banded_region::{agrees, opt_ref, BandedRegion, RegionValue};
use crate::geometry::{Color, Rect};
use crate::id_vec::{IdSparseVec, SparseId, WindowId};
use crate::surface::{blit_source, Surface};

verus! {

/// A window: an image placed on the screen at a depth (`z_index` 0 is the front).
pub struct Window {
    surface: Surface,
    z_index: usize,
}

impl Window {
    pub closed spec fn spec_surface(&self) -> Surface {
        self.surface
    }

    pub closed spec fn spec_z_index(&self) -> usize {
        self.z_index
    }

    pub open spec fn spec_rect(&self) -> Rect {
        self.spec_surface().spec_rect()
    }

    pub fn rect(&self) -> (r: Rect)
        ensures
            r == self.spec_rect(),
    {
        self.surface.rect()
    }

    pub fn surface_mut(&mut self) -> (s: &mut Surface)
        ensures
            *s == old(self).spec_surface(),
            final(self).spec_surface() == *final(s),
            final(self).spec_z_index() == old(self).spec_z_index(),
    {
        &mut self.surface
    }
}

/// What the screen knows about a point: the depth of the window shown there (`usize::MAX` for
/// the background) and whether the point must be redrawn.
#[derive(Clone, Copy, PartialEq, Eq, Debug)]
pub struct Region {
    pub z_index: usize,
    pub dirty: bool,
}

impl RegionValue for Region {
    fn same(&self, other: &Self) -> (r: bool) {
        self.z_index == other.z_index && self.dirty == other.dirty
    }
}

/// A set of windows stacked on a screen, with the damage that still has to be drawn.
pub struct Screen {
    windows: IdSparseVec<WindowId, Window>,
    visible: Vec<WindowId>,
    damage_tracker: BandedRegion<Region>,
}

/// The front-most position at or after `i` in `vis` whose window covers `(x, y)`.
pub open spec fn cover_from(vis: Seq<WindowId>, wins: Map<nat, Window>, i: int, x: int, y: int) -> Option<int>
    decreases vis.len() - i,
{
    if i < 0 || i >= vis.len() {
        None
    } else if wins[vis[i].id_index()].spec_rect().has(x, y) {
        Some(i)
    } else {
        cover_from(vis, wins, i + 1, x, y)
    }
}

/// The colour a damaged point shows: the background or the window at depth `r.z_index`.
pub open spec fn paint(vis: Seq<WindowId>, wins: Map<nat, Window>, r: Region, x: int, y: int) -> Color {
    if r.z_index == usize::MAX {
        Color { r: 0xff, g: 0xff, b: 0xff, a: 0xff }
    } else {
        let s = wins[vis[r.z_index as int].id_index()].spec_surface();
        if s.spec_rect().has(x, y) {
            s.pixel(x, y)
        } else {
            s.spec_fill()
        }
    }
}

/// A damage record names the background or one of the `n` visible depths.
pub open spec fn region_ok(o: Option<Region>, n: nat) -> bool {
    match o {
        Some(r) => r.z_index == usize::MAX || r.z_index < n,
        None => true,
    }
}

impl Screen {
    pub closed spec fn windows_view(&self) -> Map<nat, Window> {
        self.windows@
    }

    pub closed spec fn visible_view(&self) -> Seq<WindowId> {
        self.visible@
    }

    /// The damage record of point `(x, y)`.
    pub closed spec fn damage(&self, x: int, y: int) -> Option<Region> {
        self.damage_tracker.value_at(x, y)
    }

    /// The screen is consistent: the windows are exactly the visible ones, each knows its
    /// depth, and every damage record names the background or a visible depth.
    pub closed spec fn wf(&self) -> bool {
        &&& self.windows.wf()
        &&& self.damage_tracker.wf()
        &&& forall|i: int|
            0 <= i < self.visible@.len() ==> self.windows@.contains_key((#[trigger] self.visible@[i]).id_index())
                && self.windows@[self.visible@[i].id_index()].spec_z_index() == i
        &&& forall|k: nat| #[trigger] self.windows@.contains_key(k) ==> exists|i: int|
            0 <= i < self.visible@.len() && (#[trigger] self.visible@[i]).id_index() == k
        &&& forall|x: int, y: int| region_ok(#[trigger] self.damage_tracker.value_at(x, y), self.visible@.len())
    }

    /// In a well-formed screen the window at position `i` of the front-to-back order exists and
    /// has depth `i`, and every window has a position in that order.
    pub proof fn lemma_z_order(&self)
        requires
            self.wf(),
        ensures
            forall|i: int|
                0 <= i < self.visible_view().len() ==> self.windows_view().contains_key((#[trigger] self.visible_view()[i]).id_index())
                    && self.windows_view()[self.visible_view()[i].id_index()].spec_z_index() == i,
            forall|k: nat| #[trigger] self.windows_view().contains_key(k) ==> exists|i: int|
                0 <= i < self.visible_view().len() && (#[trigger] self.visible_view()[i]).id_index() == k,
    {
        assert forall|k: nat| #[trigger] self.windows_view().contains_key(k) implies exists|i: int|
            0 <= i < self.visible_view().len() && (#[trigger] self.visible_view()[i]).id_index() == k by {
            assert(self.windows@.contains_key(k));
            let i = choose|i: int| 0 <= i < self.visible@.len() && (#[trigger] self.visible@[i]).id_index() == k;
            assert(self.visible_view()[i] == self.visible@[i]);
        }
    }

    /// The damage record a full redraw leaves at `(x, y)`: the front-most window there, else the
    /// background inside `rect`, all clean.
    pub open spec fn composed(&self, rect: Rect, x: int, y: int) -> Option<Region> {
        match cover_from(self.visible_view(), self.windows_view(), 0, x, y) {
            Some(j) => Some(Region { z_index: j as usize, dirty: false }),
            None => if rect.has(x, y) {
                Some(Region { z_index: usize::MAX, dirty: false })
            } else {
                None
            },
        }
    }

    /// An empty screen over `rect`, all of it to be drawn.
    pub fn new(rect: Rect) -> (screen: Screen)
        ensures
            screen.wf(),
            screen.windows_view() == Map::<nat, Window>::empty(),
            screen.visible_view().len() == 0,
            forall|x: int, y: int| #[trigger] screen.damage(x, y) == if rect.has(x, y) {
                Some(Region { z_index: usize::MAX, dirty: true })
            } else {
                None
            },
    {
        let mut screen = Screen { windows: IdSparseVec::new(), visible: Vec::new(), damage_tracker: BandedRegion::new() };
        screen.damage_tracker.insert(rect, Region { z_index: usize::MAX, dirty: true });
        screen
    }

    /// Rebuilds the damage record from the window stack, with nothing left to draw.
    fn reset_damage_tracker(&mut self, rect: Rect)
        requires
            old(self).wf(),
        ensures
            final(self).wf(),
            final(self).windows_view() == old(self).windows_view(),
            final(self).visible_view() == old(self).visible_view(),
            forall|x: int, y: int| #[trigger] final(self).damage(x, y) == old(self).composed(rect, x, y),
    {
        let mut tracker: BandedRegion<Region> = BandedRegion::new();
        tracker.insert(rect, Region { z_index: usize::MAX, dirty: false });
        let n = self.visible.len();
        let mut i: usize = n;
        while i > 0
            invariant
                self.wf(),
                self.windows@ == old(self).windows@,
                self.visible@ == old(self).visible@,
                self.damage_tracker == old(self).damage_tracker,
                n == self.visible@.len(),
                0 <= i <= n,
                tracker.wf(),
                forall|x: int, y: int| #[trigger] tracker.value_at(x, y) == match cover_from(self.visible@, self.windows@, i as int, x, y) {
                    Some(j) => Some(Region { z_index: j as usize, dirty: false }),
                    None => if rect.has(x, y) {
                        Some(Region { z_index: usize::MAX, dirty: false })
                    } else {
                        None
                    },
                },
            decreases i,
        {
            i = i - 1;
            let id = self.visible[i];
            let window = self.windows.get(id).unwrap();
            let wrect = window.rect();
            let z = window.z_index;
            assert(z == i);
            let ghost before = tracker;
            tracker.insert(wrect, Region { z_index: z, dirty: false });
            proof {
                assert forall|x: int, y: int| #[trigger] tracker.value_at(x, y) == match cover_from(self.visible@, self.windows@, i as int, x, y) {
                    Some(j) => Some(Region { z_index: j as usize, dirty: false }),
                    None => if rect.has(x, y) {
                        Some(Region { z_index: usize::MAX, dirty: false })
                    } else {
                        None
                    },
                } by {
                    assert(before.value_at(x, y) == before.value_at(x, y));
                    assert(cover_from(self.visible@, self.windows@, i as int, x, y) == if wrect.has(x, y) {
                        Some(i as int)
                    } else {
                        cover_from(self.visible@, self.windows@, i + 1, x, y)
                    });
                }
            }
        }
        self.damage_tracker = tracker;
        proof {
            assert forall|x: int, y: int| region_ok(#[trigger] self.damage_tracker.value_at(x, y), self.visible@.len()) by {
                lemma_cover_from_bound(self.visible@, self.windows@, 0, x, y);
            }
        }
    }
}

impl Screen {
    /// Draws every damaged point of `frame_buffer` (the background white, a window its own
    /// colour or its fill), then rebuilds the damage record with nothing left to draw.
    pub fn update(&mut self, frame_buffer: &mut Surface)
        requires
            old(self).wf(),
        ensures
            final(self).wf(),
            final(self).windows_view() == old(self).windows_view(),
            final(self).visible_view() == old(self).visible_view(),
            final(frame_buffer).spec_rect() == old(frame_buffer).spec_rect(),
            forall|x: int, y: int|
                old(frame_buffer).spec_rect().has(x, y) ==> #[trigger] final(frame_buffer).pixel(x, y) == match old(
                    self,
                ).damage(x, y) {
                    Some(r) => if r.dirty {
                        paint(old(self).visible_view(), old(self).windows_view(), r, x, y)
                    } else {
                        old(frame_buffer).pixel(x, y)
                    },
                    None => old(frame_buffer).pixel(x, y),
                },
            forall|x: int, y: int| #[trigger] final(self).damage(x, y) == old(self).composed(old(frame_buffer).spec_rect(), x, y),
    {
        let fb_rect = frame_buffer.rect();
        let ghost fb0 = *frame_buffer;
        let ghost s0 = *self;
        let drained = self.damage_tracker.drain(fb_rect);
        proof {
            assert forall|x: int, y: int| region_ok(#[trigger] self.damage_tracker.value_at(x, y), self.visible@.len()) by {
                assert(region_ok(s0.damage_tracker.value_at(x, y), self.visible@.len()));
            }
        }
        let n = drained.len();
        let mut k: usize = 0;
        while k < n
            invariant
                self.wf(),
                self.windows@ == s0.windows@,
                self.visible@ == s0.visible@,
                n == drained@.len(),
                0 <= k <= n,
                frame_buffer.spec_rect() == fb_rect,
                fb_rect == fb0.spec_rect(),
                forall|j: int|
                    0 <= j < drained@.len() ==> {
                        &&& !(#[trigger] drained@[j]).0.spec_is_empty()
                        &&& drained@[j].0.within(fb_rect)
                        &&& forall|x: int, y: int| drained@[j].0.has(x, y) ==> s0.damage_tracker.value_at(x, y) == Some(drained@[j].1)
                    },
                forall|j: int, l: int, x: int, y: int|
                    0 <= j < l < drained@.len() ==> !((#[trigger] drained@[j].0.has(x, y)) && (#[trigger] drained@[l].0.has(x, y))),
                forall|x: int, y: int| s0.damage_tracker.value_at(x, y) is Some ==> region_ok(s0.damage_tracker.value_at(x, y), s0.visible@.len()),
                forall|x: int, y: int|
                    fb_rect.has(x, y) ==> #[trigger] frame_buffer.pixel(x, y) == if exists|j: int|
                        0 <= j < k && (#[trigger] drained@[j]).0.has(x, y) && drained@[j].1.dirty {
                        paint(s0.visible@, s0.windows@, drained@[choose|j: int| 0 <= j < k && (#[trigger] drained@[j]).0.has(x, y) && drained@[j].1.dirty].1, x, y)
                    } else {
                        fb0.pixel(x, y)
                    },
            decreases n - k,
        {
            let (rect, region) = drained[k];
            let ghost before = *frame_buffer;
            proof {
                assert(drained@[k as int].0.has(rect.tl.x as int, rect.tl.y as int));
                assert(region_ok(s0.damage_tracker.value_at(rect.tl.x as int, rect.tl.y as int), s0.visible@.len()));
            }
            if region.dirty {
                if region.z_index == usize::MAX {
                    frame_buffer.fill(rect, Color::white());
                } else {
                    let id = self.visible[region.z_index];
                    let window = self.windows.get(id).unwrap();
                    frame_buffer.blit(rect, &window.surface, rect.tl);
                }
            }
            proof {
                assert forall|x: int, y: int|
                    fb_rect.has(x, y) implies #[trigger] frame_buffer.pixel(x, y) == if exists|j: int|
                        0 <= j < k + 1 && (#[trigger] drained@[j]).0.has(x, y) && drained@[j].1.dirty {
                        paint(s0.visible@, s0.windows@, drained@[choose|j: int| 0 <= j < k + 1 && (#[trigger] drained@[j]).0.has(x, y) && drained@[j].1.dirty].1, x, y)
                    } else {
                        fb0.pixel(x, y)
                    } by {
                    assert(before.pixel(x, y) == if exists|j: int|
                        0 <= j < k && (#[trigger] drained@[j]).0.has(x, y) && drained@[j].1.dirty {
                        paint(s0.visible@, s0.windows@, drained@[choose|j: int| 0 <= j < k && (#[trigger] drained@[j]).0.has(x, y) && drained@[j].1.dirty].1, x, y)
                    } else {
                        fb0.pixel(x, y)
                    });
                    if rect.has(x, y) {
                        assert forall|j: int| 0 <= j < k implies !(#[trigger] drained@[j]).0.has(x, y) by {
                            assert(!(drained@[j].0.has(x, y) && drained@[k as int].0.has(x, y)));
                        }
                        if region.dirty {
                            let c = choose|j: int| 0 <= j < k + 1 && (#[trigger] drained@[j]).0.has(x, y) && drained@[j].1.dirty;
                            assert(drained@[k as int].0.has(x, y));
                            assert(c == k);
                        }
                    } else {
                        if exists|j: int| 0 <= j < k + 1 && (#[trigger] drained@[j]).0.has(x, y) && drained@[j].1.dirty {
                            let c = choose|j: int| 0 <= j < k + 1 && (#[trigger] drained@[j]).0.has(x, y) && drained@[j].1.dirty;
                            assert(c != k);
                            assert(0 <= c < k && drained@[c].0.has(x, y) && drained@[c].1.dirty);
                        }
                    }
                }
            }
            k = k + 1;
        }
        proof {
            assert forall|x: int, y: int|
                fb0.spec_rect().has(x, y) implies #[trigger] frame_buffer.pixel(x, y) == match s0.damage(x, y) {
                    Some(r) => if r.dirty {
                        paint(s0.visible_view(), s0.windows_view(), r, x, y)
                    } else {
                        fb0.pixel(x, y)
                    },
                    None => fb0.pixel(x, y),
                } by {
                if s0.damage_tracker.value_at(x, y) is Some {
                    let j = choose|j: int| 0 <= j < drained@.len() && (#[trigger] drained@[j]).0.has(x, y);
                    assert(drained@[j].0.has(x, y));
                    if exists|l: int| 0 <= l < n && (#[trigger] drained@[l]).0.has(x, y) && drained@[l].1.dirty {
                        let c = choose|l: int| 0 <= l < n && (#[trigger] drained@[l]).0.has(x, y) && drained@[l].1.dirty;
                        if c != j {
                            if c < j {
                                assert(!(drained@[c].0.has(x, y) && drained@[j].0.has(x, y)));
                            } else {
                                assert(!(drained@[j].0.has(x, y) && drained@[c].0.has(x, y)));
                            }
                        }
                    }
                } else {
                    assert forall|l: int| 0 <= l < n implies !(#[trigger] drained@[l]).0.has(x, y) by {
                        if drained@[l].0.has(x, y) {
                            assert(s0.damage_tracker.value_at(x, y) == Some(drained@[l].1));
                        }
                    }
                }
            }
        }
        self.reset_damage_tracker(fb_rect);
    }

    /// Marks the points of `rect` shown by windows at depth `z_index` or behind as to be drawn.
    pub fn mark_dirty_beyond(&mut self, z_index: usize, rect: Rect)
        requires
            old(self).wf(),
        ensures
            final(self).wf(),
            final(self).windows_view() == old(self).windows_view(),
            final(self).visible_view() == old(self).visible_view(),
            forall|x: int, y: int| #[trigger] final(self).damage(x, y) == if rect.has(x, y) {
                match old(self).damage(x, y) {
                    Some(r) => Some(Region { z_index: r.z_index, dirty: r.dirty || r.z_index >= z_index }),
                    None => None,
                }
            } else {
                old(self).damage(x, y)
            },
    {
        let f = |region: Option<&Region>| -> (o: Option<Region>)
            ensures
                o == match region {
                    Some(r) => Some(Region { z_index: r.z_index, dirty: r.dirty || r.z_index >= z_index }),
                    None => None,
                },
            {
                match region {
                    Some(r) => Some(Region { z_index: r.z_index, dirty: r.dirty || r.z_index >= z_index }),
                    None => None,
                }
            };
        let ghost s0 = *self;
        self.damage_tracker.update(rect, f);
        proof {
            assert forall|x: int, y: int| #[trigger] self.damage(x, y) == if rect.has(x, y) {
                match s0.damage(x, y) {
                    Some(r) => Some(Region { z_index: r.z_index, dirty: r.dirty || r.z_index >= z_index }),
                    None => None,
                }
            } else {
                s0.damage(x, y)
            } by {
                assert(agrees(f, s0.damage_tracker.bands@, self.damage_tracker.bands@, rect, x, y));
            }
            assert forall|x: int, y: int| region_ok(#[trigger] self.damage_tracker.value_at(x, y), self.visible@.len()) by {
                assert(region_ok(s0.damage_tracker.value_at(x, y), self.visible@.len()));
                assert(agrees(f, s0.damage_tracker.bands@, self.damage_tracker.bands@, rect, x, y));
            }
        }
    }

    /// Gives the part of `rect` inside window `window_id` to that window wherever no window in
    /// front of it shows, and marks it to be drawn.
    pub fn mark_dirty(&mut self, window_id: WindowId, rect: Rect)
        requires
            old(self).wf(),
            old(self).windows_view().contains_key(window_id.id_index()),
        ensures
            final(self).wf(),
            final(self).windows_view() == old(self).windows_view(),
            final(self).visible_view() == old(self).visible_view(),
            forall|x: int, y: int| #[trigger] final(self).damage(x, y) == {
                let z = old(self).windows_view()[window_id.id_index()].spec_z_index();
                if rect.has(x, y) && old(self).windows_view()[window_id.id_index()].spec_rect().has(x, y) {
                    match old(self).damage(x, y) {
                        Some(r) => if r.z_index < z {
                            Some(r)
                        } else {
                            Some(Region { z_index: z, dirty: true })
                        },
                        None => Some(Region { z_index: z, dirty: true }),
                    }
                } else {
                    old(self).damage(x, y)
                }
            },
    {
        let ghost s0 = *self;
        let window = self.windows.get(window_id).unwrap();
        let wz = window.z_index;
        let wrect = window.rect();
        proof {
            let i = choose|i: int| 0 <= i < self.visible@.len() && (#[trigger] self.visible@[i]).id_index() == window_id.id_index();
            assert(self.windows@[self.visible@[i].id_index()].spec_z_index() == i);
        }
        match rect.intersect(wrect) {
            Some(r) => {
                let f = |region: Option<&Region>| -> (o: Option<Region>)
                    ensures
                        o == match region {
                            Some(q) => if q.z_index < wz {
                                Some(*q)
                            } else {
                                Some(Region { z_index: wz, dirty: true })
                            },
                            None => Some(Region { z_index: wz, dirty: true }),
                        },
                    {
                        match region {
                            Some(q) => if q.z_index < wz {
                                Some(*q)
                            } else {
                                Some(Region { z_index: wz, dirty: true })
                            },
                            None => Some(Region { z_index: wz, dirty: true }),
                        }
                    };
                self.damage_tracker.update(r, f);
                proof {
                    assert forall|x: int, y: int| #[trigger] self.damage(x, y) == {
                        let z = s0.windows_view()[window_id.id_index()].spec_z_index();
                        if rect.has(x, y) && s0.windows_view()[window_id.id_index()].spec_rect().has(x, y) {
                            match s0.damage(x, y) {
                                Some(q) => if q.z_index < z {
                                    Some(q)
                                } else {
                                    Some(Region { z_index: z, dirty: true })
                                },
                                None => Some(Region { z_index: z, dirty: true }),
                            }
                        } else {
                            s0.damage(x, y)
                        }
                    } by {
                        assert(agrees(f, s0.damage_tracker.bands@, self.damage_tracker.bands@, r, x, y));
                    }
                    assert forall|x: int, y: int| region_ok(#[trigger] self.damage_tracker.value_at(x, y), self.visible@.len()) by {
                        assert(region_ok(s0.damage_tracker.value_at(x, y), self.visible@.len()));
                        assert(agrees(f, s0.damage_tracker.bands@, self.damage_tracker.bands@, r, x, y));
                    }
                }
            },
            None => {},
        }
    }

    /// Mutable access to window `window_id`, which must exist. The screen stays well formed
    /// where the window keeps its depth.
    pub fn window_mut(&mut self, window_id: WindowId) -> (w: &mut Window)
        requires
            old(self).windows_view().contains_key(window_id.id_index()),
        ensures
            *w == old(self).windows_view()[window_id.id_index()],
            final(self).windows_view() == old(self).windows_view().insert(window_id.id_index(), *final(w)),
            final(self).visible_view() == old(self).visible_view(),
            forall|x: int, y: int| #[trigger] final(self).damage(x, y) == old(self).damage(x, y),
            old(self).wf() && final(w).spec_z_index() == w.spec_z_index() ==> final(self).wf(),
    {
        proof {
            if self.wf() {
                lemma_same_depth_keeps_order(*self, window_id.id_index());
            }
        }
        self.windows.get_mut(window_id).unwrap()
    }
}

/// A screen that differs from a well-formed one only in window `k`, which keeps its depth, is
/// well formed.
proof fn lemma_same_depth_keeps_order(s0: Screen, k: nat)
    requires
        s0.wf(),
        s0.windows@.contains_key(k),
    ensures
        forall|s1: Screen| ({
            &&& s1.windows.wf()
            &&& s1.damage_tracker == s0.damage_tracker
            &&& s1.visible@ == s0.visible@
            &&& s1.windows@.contains_key(k)
            &&& s1.windows@ == s0.windows@.insert(k, s1.windows@[k])
            &&& s1.windows@[k].spec_z_index() == s0.windows@[k].spec_z_index()
        }) ==> #[trigger] s1.wf(),
{
    assert forall|s1: Screen| ({
        &&& s1.windows.wf()
        &&& s1.damage_tracker == s0.damage_tracker
        &&& s1.visible@ == s0.visible@
        &&& s1.windows@.contains_key(k)
        &&& s1.windows@ == s0.windows@.insert(k, s1.windows@[k])
        &&& s1.windows@[k].spec_z_index() == s0.windows@[k].spec_z_index()
    }) implies #[trigger] s1.wf() by {
        let ws = s1.windows@;
        assert forall|i: int| 0 <= i < s1.visible@.len() implies ws.contains_key((#[trigger] s1.visible@[i]).id_index())
            && ws[s1.visible@[i].id_index()].spec_z_index() == i by {
            assert(s0.visible@[i] == s1.visible@[i]);
            assert(s0.windows@.contains_key(s0.visible@[i].id_index()));
        }
        assert forall|j: nat| #[trigger] ws.contains_key(j) implies exists|i: int|
            0 <= i < s1.visible@.len() && (#[trigger] s1.visible@[i]).id_index() == j by {
            assert(s0.windows@.contains_key(j));
            let i = choose|i: int| 0 <= i < s0.visible@.len() && (#[trigger] s0.visible@[i]).id_index() == j;
            assert(s1.visible@[i] == s0.visible@[i]);
        }
        assert forall|x: int, y: int| region_ok(#[trigger] s1.damage_tracker.value_at(x, y), s1.visible@.len()) by {
            assert(region_ok(s0.damage_tracker.value_at(x, y), s0.visible@.len()));
        }
    }
}

impl Screen {
    /// Applies `update_fn` to the depth of every window and every damage record.
    fn z_index_update<F: Fn(usize) -> usize>(&mut self, update_fn: F)
        requires
            old(self).wf(),
            forall|z: usize| update_fn.requires((z,)),
        ensures
            final(self).windows.wf(),
            final(self).damage_tracker.wf(),
            final(self).visible@ == old(self).visible@,
            forall|k: nat| #[trigger] final(self).windows@.contains_key(k) == old(self).windows@.contains_key(k),
            forall|k: nat| #[trigger] old(self).windows@.contains_key(k) ==> final(self).windows@[k].spec_surface()
                == old(self).windows@[k].spec_surface() && update_fn.ensures(
                (old(self).windows@[k].spec_z_index(),),
                final(self).windows@[k].spec_z_index(),
            ),
            forall|x: int, y: int| #[trigger] old(self).damage(x, y) is None ==> final(self).damage(x, y) is None,
            forall|x: int, y: int| #[trigger] old(self).damage(x, y) is Some ==> final(self).damage(x, y) is Some
                && final(self).damage(x, y).unwrap().dirty == old(self).damage(x, y).unwrap().dirty
                && update_fn.ensures((old(self).damage(x, y).unwrap().z_index,), final(self).damage(x, y).unwrap().z_index),
    {
        let ghost s0 = *self;
        let n = self.visible.len();
        let mut i: usize = 0;
        while i < n
            invariant
                s0.wf(),
                self.windows.wf(),
                self.damage_tracker == s0.damage_tracker,
                self.visible@ == s0.visible@,
                n == s0.visible@.len(),
                0 <= i <= n,
                forall|z: usize| update_fn.requires((z,)),
                forall|k: nat| #[trigger] self.windows@.contains_key(k) == s0.windows@.contains_key(k),
                forall|k: nat| #[trigger] s0.windows@.contains_key(k) ==> self.windows@[k].spec_surface()
                    == s0.windows@[k].spec_surface() && if s0.windows@[k].spec_z_index() < i {
                    update_fn.ensures((s0.windows@[k].spec_z_index(),), self.windows@[k].spec_z_index())
                } else {
                    self.windows@[k].spec_z_index() == s0.windows@[k].spec_z_index()
                },
            decreases n - i,
        {
            let id = self.visible[i];
            let ghost key = id.id_index();
            assert(s0.windows@.contains_key(key) && s0.windows@[key].spec_z_index() == i);
            let ghost w0 = self.windows@[key];
            let w = self.windows.get_mut(id).unwrap();
            let z = update_fn(w.z_index);
            w.z_index = z;
            proof {
                assert forall|k: nat| #[trigger] s0.windows@.contains_key(k) implies self.windows@[k].spec_surface()
                    == s0.windows@[k].spec_surface() && if s0.windows@[k].spec_z_index() < i + 1 {
                    update_fn.ensures((s0.windows@[k].spec_z_index(),), self.windows@[k].spec_z_index())
                } else {
                    self.windows@[k].spec_z_index() == s0.windows@[k].spec_z_index()
                } by {
                    if k == key {
                    } else {
                        let j = choose|j: int| 0 <= j < s0.visible@.len() && (#[trigger] s0.visible@[j]).id_index() == k;
                        assert(s0.windows@[s0.visible@[j].id_index()].spec_z_index() == j);
                    }
                }
            }
            i = i + 1;
        }
        proof {
            assert forall|k: nat| #[trigger] s0.windows@.contains_key(k) implies s0.windows@[k].spec_z_index() < n by {
                let j = choose|j: int| 0 <= j < s0.visible@.len() && (#[trigger] s0.visible@[j]).id_index() == k;
                assert(s0.windows@[s0.visible@[j].id_index()].spec_z_index() == j);
            }
        }
        let fr = &update_fn;
        let g = |_r: Rect, region: Region| -> (o: Region)
            requires
                forall|z: usize| fr.requires((z,)),
            ensures
                o.dirty == region.dirty,
                fr.ensures((region.z_index,), o.z_index),
            { Region { z_index: fr(region.z_index), dirty: region.dirty } };
        self.damage_tracker.update_values(g);
        proof {
            assert forall|x: int, y: int| #[trigger] s0.damage(x, y) is Some implies self.damage(x, y) is Some
                && self.damage(x, y).unwrap().dirty == s0.damage(x, y).unwrap().dirty
                && update_fn.ensures((s0.damage(x, y).unwrap().z_index,), self.damage(x, y).unwrap().z_index) by {
                assert(s0.damage_tracker.value_at(x, y) is Some);
                let r = choose|r: Rect| r.has(x, y) && g.ensures((r, s0.damage_tracker.value_at(x, y).unwrap()), self.damage_tracker.value_at(x, y).unwrap());
            }
            assert forall|x: int, y: int| #[trigger] s0.damage(x, y) is None implies self.damage(x, y) is None by {
                assert(s0.damage_tracker.value_at(x, y) is None);
            }
        }
    }

    /// Opens a white window over `rect` at depth `z_index` (at most one past the back), pushing
    /// the windows at that depth and behind one step back; returns its identifier.
    pub fn new_window(&mut self, rect: Rect, z_index: usize) -> (window_id: WindowId)
        requires
            old(self).wf(),
            old(self).visible_view().len() + 2 < usize::MAX,
            rect.tl.x <= rect.br.x,
            rect.tl.y <= rect.br.y,
            rect.spec_width() * rect.spec_height() <= usize::MAX,
        ensures
            final(self).wf(),
            ({
                let zi = if z_index <= old(self).visible_view().len() { z_index as int } else { old(self).visible_view().len() as int };
                &&& !old(self).windows_view().contains_key(window_id.id_index())
                &&& final(self).visible_view() == old(self).visible_view().insert(zi, window_id)
                &&& final(self).windows_view().contains_key(window_id.id_index())
                &&& final(self).windows_view()[window_id.id_index()].spec_rect() == rect
                &&& final(self).windows_view()[window_id.id_index()].spec_surface().spec_fill() == (Color { r: 0xff, g: 0xff, b: 0xff, a: 0xff })
                &&& forall|x: int, y: int| rect.has(x, y) ==> #[trigger] final(self).windows_view()[window_id.id_index()].spec_surface().pixel(x, y)
                    == (Color { r: 0xff, g: 0xff, b: 0xff, a: 0xff })
                &&& forall|k: nat| #[trigger] old(self).windows_view().contains_key(k) ==> final(self).windows_view().contains_key(k)
                    && final(self).windows_view()[k].spec_surface() == old(self).windows_view()[k].spec_surface()
                &&& forall|k: nat| #[trigger] final(self).windows_view().contains_key(k) ==> k == window_id.id_index()
                    || old(self).windows_view().contains_key(k)
                &&& forall|x: int, y: int| #[trigger] final(self).damage(x, y) == {
                    let shifted = match old(self).damage(x, y) {
                        Some(r) => Some(Region {
                            z_index: if r.z_index >= zi && r.z_index != usize::MAX { (r.z_index + 1) as usize } else { r.z_index },
                            dirty: r.dirty,
                        }),
                        None => None,
                    };
                    if rect.has(x, y) {
                        match shifted {
                            Some(r) => if r.z_index < zi {
                                Some(r)
                            } else {
                                Some(Region { z_index: zi as usize, dirty: true })
                            },
                            None => Some(Region { z_index: zi as usize, dirty: true }),
                        }
                    } else {
                        shifted
                    }
                }
            }),
    {
        let ghost s0 = *self;
        let len = self.visible.len();
        let zi = if z_index <= len { z_index } else { len };
        let surface = Surface::new(rect, Color::white());
        let shift = |v: usize| -> (o: usize)
            ensures
                o == if v >= zi && v != usize::MAX { (v + 1) as usize } else { v },
            {
                if v >= zi && v != usize::MAX {
                    v + 1
                } else {
                    v
                }
            };
        self.z_index_update(shift);
        let ghost s1 = *self;
        let window_id = self.windows.insert(Window { surface, z_index: zi });
        self.visible.insert(zi, window_id);
        proof {
            let key = window_id.id_index();
            assert forall|i: int| 0 <= i < self.visible@.len() implies self.windows@.contains_key((#[trigger] self.visible@[i]).id_index())
                && self.windows@[self.visible@[i].id_index()].spec_z_index() == i by {
                if i < zi {
                    assert(self.visible@[i] == s0.visible@[i]);
                    assert(s0.windows@.contains_key(s0.visible@[i].id_index()));
                    assert(s0.visible@[i].id_index() != key);
                } else if i > zi {
                    assert(self.visible@[i] == s0.visible@[i - 1]);
                    assert(s0.windows@.contains_key(s0.visible@[i - 1].id_index()));
                    assert(s0.visible@[i - 1].id_index() != key);
                }
            }
            assert forall|k: nat| #[trigger] self.windows@.contains_key(k) implies exists|i: int|
                0 <= i < self.visible@.len() && (#[trigger] self.visible@[i]).id_index() == k by {
                if k == key {
                    assert(self.visible@[zi as int] == window_id);
                } else {
                    assert(s0.windows@.contains_key(k));
                    let j = choose|j: int| 0 <= j < s0.visible@.len() && (#[trigger] s0.visible@[j]).id_index() == k;
                    if j < zi {
                        assert(self.visible@[j] == s0.visible@[j]);
                    } else {
                        assert(self.visible@[j + 1] == s0.visible@[j]);
                    }
                }
            }
            assert forall|x: int, y: int| region_ok(#[trigger] self.damage_tracker.value_at(x, y), self.visible@.len()) by {
                assert(region_ok(s0.damage_tracker.value_at(x, y), s0.visible@.len()));
                assert(s0.damage(x, y) == s0.damage_tracker.value_at(x, y));
                assert(s1.damage(x, y) == self.damage_tracker.value_at(x, y));
            }
        }
        self.mark_dirty(window_id, rect);
        proof {
            let key = window_id.id_index();
            assert forall|x: int, y: int| #[trigger] s1.damage(x, y) == match s0.damage(x, y) {
                Some(r) => Some(Region {
                    z_index: if r.z_index >= zi && r.z_index != usize::MAX { (r.z_index + 1) as usize } else { r.z_index },
                    dirty: r.dirty,
                }),
                None => None,
            } by {
                if s0.damage(x, y) is Some {
                    let a = s1.damage(x, y).unwrap();
                    let b = s0.damage(x, y).unwrap();
                    assert(a.dirty == b.dirty);
                    assert(a == Region {
                        z_index: if b.z_index >= zi && b.z_index != usize::MAX { (b.z_index + 1) as usize } else { b.z_index },
                        dirty: b.dirty,
                    });
                }
            }
        }
        window_id
    }
}

impl Screen {
    /// Hands the points of `rect` that the window at depth `z_index` showed to the front-most window behind it, marking them to be drawn.
    #[verifier::spinoff_prover]
    #[verifier::rlimit(40)]
    fn rebuild_damage_tracker_move(&mut self, z_index: usize, rect: Rect)
        requires
            old(self).wf(),
        ensures
            final(self).wf(),
            final(self).windows_view() == old(self).windows_view(),
            final(self).visible_view() == old(self).visible_view(),
            forall|x: int, y: int| #[trigger] final(self).damage(x, y) == if rect.has(x, y) && !(old(self).damage(x, y) matches Some(q) && q.z_index < z_index) {
                match cover_between(old(self).visible_view(), old(self).windows_view(), z_index + 1, old(self).visible_view().len() as int, x, y) {
                    Some(j) => Some(Region { z_index: j as usize, dirty: true }),
                    None => old(self).damage(x, y),
                }
            } else {
                old(self).damage(x, y)
            },
    {
        let ghost s0 = *self;
        let n = self.visible.len();
        let mut i: usize = n;
        while i > 0
            invariant
                s0.wf(),
                self.wf(),
                self.windows@ == s0.windows@,
                self.visible@ == s0.visible@,
                n == s0.visible@.len(),
                0 <= i <= n,
                forall|x: int, y: int| #[trigger] self.damage(x, y) == if rect.has(x, y) && !(s0.damage(x, y) matches Some(q) && q.z_index < z_index) {
                    match cover_between(s0.visible@, s0.windows@, if i as int >= z_index + 1 { i as int } else { z_index + 1 }, n as int, x, y) {
                        Some(j) => Some(Region { z_index: j as usize, dirty: true }),
                        None => s0.damage(x, y),
                    }
                } else {
                    s0.damage(x, y)
                },
            decreases i,
        {
            i = i - 1;
            let id = self.visible[i];
            let window = self.windows.get(id).unwrap();
            let wz = window.z_index;
            let wrect = window.rect();
            assert(wz == i);
            if wz <= z_index {
                proof {
                    assert forall|x: int, y: int| #[trigger] self.damage(x, y) == if rect.has(x, y) && !(s0.damage(x, y) matches Some(q) && q.z_index < z_index) {
                        match cover_between(s0.visible@, s0.windows@, if i as int >= z_index + 1 { i as int } else { z_index + 1 }, n as int, x, y) {
                            Some(j) => Some(Region { z_index: j as usize, dirty: true }),
                            None => s0.damage(x, y),
                        }
                    } else {
                        s0.damage(x, y)
                    } by {
                        if i as int >= z_index + 1 && i as int >= n as int {
                            assert(cover_between(s0.visible@, s0.windows@, i as int, n as int, x, y) is None);
                            assert(cover_between(s0.visible@, s0.windows@, i + 1, n as int, x, y) is None);
                        }
                    }
                    assert(self.wf());
                }
                continue;
            }
            match wrect.intersect(rect) {
                Some(r) => {
                    let f = |region: Option<&Region>| -> (o: Option<Region>)
                        ensures
                            o == match region {
                                Some(q) => if q.z_index < z_index {
                                    Some(*q)
                                } else {
                                    Some(Region { z_index: wz, dirty: true })
                                },
                                None => Some(Region { z_index: wz, dirty: true }),
                            },
                        {
                            match region {
                                Some(q) => if q.z_index < z_index {
                                    Some(*q)
                                } else {
                                    Some(Region { z_index: wz, dirty: true })
                                },
                                None => Some(Region { z_index: wz, dirty: true }),
                            }
                        };
                    let ghost before = *self;
                    self.damage_tracker.update(r, f);
                    proof {
                        assert forall|x: int, y: int| #[trigger] self.damage(x, y) == if rect.has(x, y) && !(s0.damage(x, y) matches Some(q) && q.z_index < z_index) {
                            match cover_between(s0.visible@, s0.windows@, i as int, n as int, x, y) {
                                Some(j) => Some(Region { z_index: j as usize, dirty: true }),
                                None => s0.damage(x, y),
                            }
                        } else {
                            s0.damage(x, y)
                        } by {
                            assert(agrees(f, before.damage_tracker.bands@, self.damage_tracker.bands@, r, x, y));
                            assert(s0.windows@[s0.visible@[i as int].id_index()].spec_rect() == wrect);
                            lemma_cover_between_bound(s0.visible@, s0.windows@, i + 1, n as int, x, y);
                            if rect.has(x, y) && !wrect.has(x, y) {
                                assert(cover_between(s0.visible@, s0.windows@, i as int, n as int, x, y)
                                    == cover_between(s0.visible@, s0.windows@, i + 1, n as int, x, y));
                            }
                            if rect.has(x, y) && wrect.has(x, y) {
                                assert(r.has(x, y));
                                assert(cover_between(s0.visible@, s0.windows@, i as int, n as int, x, y) == Some(i as int));
                                if !(s0.damage(x, y) matches Some(q) && q.z_index < z_index) {
                                    assert(!(before.damage(x, y) matches Some(q) && q.z_index < z_index));
                                    assert(self.damage(x, y) == Some(Region { z_index: wz, dirty: true }));
                                }
                            }
                            let lo = z_index + 1;
                            assert((if (i + 1) as int >= lo { (i + 1) as int } else { lo }) == i + 1);
                            assert(before.damage(x, y) == if rect.has(x, y) && !(s0.damage(x, y) matches Some(q) && q.z_index < z_index) {
                                match cover_between(s0.visible@, s0.windows@, i + 1, n as int, x, y) {
                                    Some(j) => Some(Region { z_index: j as usize, dirty: true }),
                                    None => s0.damage(x, y),
                                }
                            } else {
                                s0.damage(x, y)
                            });
                        }
                        assert forall|x: int, y: int| region_ok(#[trigger] self.damage_tracker.value_at(x, y), self.visible@.len()) by {
                            assert(region_ok(before.damage_tracker.value_at(x, y), self.visible@.len()));
                            assert(agrees(f, before.damage_tracker.bands@, self.damage_tracker.bands@, r, x, y));
                        }
                        assert(self.wf());
                    }
                },
                None => {
                    proof {
                        assert forall|x: int, y: int| #[trigger] self.damage(x, y) == if rect.has(x, y) && !(s0.damage(x, y) matches Some(q) && q.z_index < z_index) {
                            match cover_between(s0.visible@, s0.windows@, i as int, n as int, x, y) {
                                Some(j) => Some(Region { z_index: j as usize, dirty: true }),
                                None => s0.damage(x, y),
                            }
                        } else {
                            s0.damage(x, y)
                        } by {
                            if rect.has(x, y) {
                                assert(!wrect.has(x, y));
                                assert(s0.windows@[s0.visible@[i as int].id_index()].spec_rect() == wrect);
                                assert(cover_between(s0.visible@, s0.windows@, i as int, n as int, x, y)
                                    == cover_between(s0.visible@, s0.windows@, i + 1, n as int, x, y));
                            }
                            let lo = z_index + 1;
                            assert((if (i + 1) as int >= lo { (i + 1) as int } else { lo }) == i + 1);
                            assert(self.damage(x, y) == if rect.has(x, y) && !(s0.damage(x, y) matches Some(q) && q.z_index < z_index) {
                                match cover_between(s0.visible@, s0.windows@, i + 1, n as int, x, y) {
                                    Some(j) => Some(Region { z_index: j as usize, dirty: true }),
                                    None => s0.damage(x, y),
                                }
                            } else {
                                s0.damage(x, y)
                            });
                        }
                    }
                },
            }
        }
    }

    /// After the window at depth `old_z_index` moved back to `new_z_index`, hands the points of `rect` to the front-most window that moved forward, marking them to be drawn.
    fn rebuild_damage_tracker_move_to_back(&mut self, old_z_index: usize, new_z_index: usize, rect: Rect)
        requires
            old(self).wf(),
        ensures
            final(self).wf(),
            final(self).windows_view() == old(self).windows_view(),
            final(self).visible_view() == old(self).visible_view(),
            forall|x: int, y: int| #[trigger] final(self).damage(x, y) == if rect.has(x, y) && !(old(self).damage(x, y) matches Some(q) && (q.z_index < old_z_index || q.z_index >= new_z_index)) {
                match cover_between(old(self).visible_view(), old(self).windows_view(), old_z_index as int, new_z_index as int, x, y) {
                    Some(j) => Some(Region { z_index: j as usize, dirty: true }),
                    None => old(self).damage(x, y),
                }
            } else {
                old(self).damage(x, y)
            },
    {
        let ghost s0 = *self;
        let n = self.visible.len();
        let mut i: usize = n;
        while i > 0
            invariant
                s0.wf(),
                self.wf(),
                self.windows@ == s0.windows@,
                self.visible@ == s0.visible@,
                n == s0.visible@.len(),
                0 <= i <= n,
                forall|x: int, y: int| #[trigger] self.damage(x, y) == if rect.has(x, y) && !(s0.damage(x, y) matches Some(q) && (q.z_index < old_z_index || q.z_index >= new_z_index)) {
                    match cover_between(s0.visible@, s0.windows@, if i as int >= old_z_index as int { i as int } else { old_z_index as int }, new_z_index as int, x, y) {
                        Some(j) => Some(Region { z_index: j as usize, dirty: true }),
                        None => s0.damage(x, y),
                    }
                } else {
                    s0.damage(x, y)
                },
            decreases i,
        {
            i = i - 1;
            let id = self.visible[i];
            let window = self.windows.get(id).unwrap();
            let wz = window.z_index;
            let wrect = window.rect();
            assert(wz == i);
            if wz < old_z_index || wz >= new_z_index {
                proof {
                    assert forall|x: int, y: int| #[trigger] self.damage(x, y) == if rect.has(x, y) && !(s0.damage(x, y) matches Some(q) && (q.z_index < old_z_index || q.z_index >= new_z_index)) {
                        match cover_between(s0.visible@, s0.windows@, if i as int >= old_z_index as int { i as int } else { old_z_index as int }, new_z_index as int, x, y) {
                            Some(j) => Some(Region { z_index: j as usize, dirty: true }),
                            None => s0.damage(x, y),
                        }
                    } else {
                        s0.damage(x, y)
                    } by {
                        if i as int >= old_z_index as int && i as int >= new_z_index as int {
                            assert(cover_between(s0.visible@, s0.windows@, i as int, new_z_index as int, x, y) is None);
                            assert(cover_between(s0.visible@, s0.windows@, i + 1, new_z_index as int, x, y) is None);
                        }
                    }
                    assert(self.wf());
                }
                continue;
            }
            match wrect.intersect(rect) {
                Some(r) => {
                    let f = |region: Option<&Region>| -> (o: Option<Region>)
                        ensures
                            o == match region {
                                Some(q) => if q.z_index < old_z_index || q.z_index >= new_z_index {
                                    Some(*q)
                                } else {
                                    Some(Region { z_index: wz, dirty: true })
                                },
                                None => Some(Region { z_index: wz, dirty: true }),
                            },
                        {
                            match region {
                                Some(q) => if q.z_index < old_z_index || q.z_index >= new_z_index {
                                    Some(*q)
                                } else {
                                    Some(Region { z_index: wz, dirty: true })
                                },
                                None => Some(Region { z_index: wz, dirty: true }),
                            }
                        };
                    let ghost before = *self;
                    self.damage_tracker.update(r, f);
                    proof {
                        assert forall|x: int, y: int| #[trigger] self.damage(x, y) == if rect.has(x, y) && !(s0.damage(x, y) matches Some(q) && (q.z_index < old_z_index || q.z_index >= new_z_index)) {
                            match cover_between(s0.visible@, s0.windows@, i as int, new_z_index as int, x, y) {
                                Some(j) => Some(Region { z_index: j as usize, dirty: true }),
                                None => s0.damage(x, y),
                            }
                        } else {
                            s0.damage(x, y)
                        } by {
                            assert(agrees(f, before.damage_tracker.bands@, self.damage_tracker.bands@, r, x, y));
                            assert(s0.windows@[s0.visible@[i as int].id_index()].spec_rect() == wrect);
                            lemma_cover_between_bound(s0.visible@, s0.windows@, i + 1, new_z_index as int, x, y);
                            if rect.has(x, y) && !wrect.has(x, y) {
                                assert(cover_between(s0.visible@, s0.windows@, i as int, new_z_index as int, x, y)
                                    == cover_between(s0.visible@, s0.windows@, i + 1, new_z_index as int, x, y));
                            }
                            if rect.has(x, y) && wrect.has(x, y) {
                                assert(r.has(x, y));
                                assert(cover_between(s0.visible@, s0.windows@, i as int, new_z_index as int, x, y) == Some(i as int));
                            }
                            let lo = old_z_index as int;
                            assert((if (i + 1) as int >= lo { (i + 1) as int } else { lo }) == i + 1);
                            assert(before.damage(x, y) == if rect.has(x, y) && !(s0.damage(x, y) matches Some(q) && (q.z_index < old_z_index || q.z_index >= new_z_index)) {
                                match cover_between(s0.visible@, s0.windows@, i + 1, new_z_index as int, x, y) {
                                    Some(j) => Some(Region { z_index: j as usize, dirty: true }),
                                    None => s0.damage(x, y),
                                }
                            } else {
                                s0.damage(x, y)
                            });
                        }
                        assert forall|x: int, y: int| region_ok(#[trigger] self.damage_tracker.value_at(x, y), self.visible@.len()) by {
                            assert(region_ok(before.damage_tracker.value_at(x, y), self.visible@.len()));
                            assert(agrees(f, before.damage_tracker.bands@, self.damage_tracker.bands@, r, x, y));
                        }
                        assert(self.wf());
                    }
                },
                None => {
                    proof {
                        assert forall|x: int, y: int| #[trigger] self.damage(x, y) == if rect.has(x, y) && !(s0.damage(x, y) matches Some(q) && (q.z_index < old_z_index || q.z_index >= new_z_index)) {
                            match cover_between(s0.visible@, s0.windows@, i as int, new_z_index as int, x, y) {
                                Some(j) => Some(Region { z_index: j as usize, dirty: true }),
                                None => s0.damage(x, y),
                            }
                        } else {
                            s0.damage(x, y)
                        } by {
                            if rect.has(x, y) {
                                assert(!wrect.has(x, y));
                                assert(s0.windows@[s0.visible@[i as int].id_index()].spec_rect() == wrect);
                                assert(cover_between(s0.visible@, s0.windows@, i as int, new_z_index as int, x, y)
                                    == cover_between(s0.visible@, s0.windows@, i + 1, new_z_index as int, x, y));
                            }
                            let lo = old_z_index as int;
                            assert((if (i + 1) as int >= lo { (i + 1) as int } else { lo }) == i + 1);
                        }
                    }
                },
            }
        }
    }

    /// Moves window `window_id` to `new_rect` with a fresh white image: the points it showed pass to the windows behind it, and its new area is marked to be drawn.
    /// Points of the old area that no window behind it covers are not repainted: they keep
    /// the record they had, which can still name this window. A point of the new area that a
    /// nearer window holds keeps that window's record as it was, clean or dirty.
    pub fn move_window(&mut self, window_id: WindowId, new_rect: Rect)
        requires
            old(self).wf(),
            old(self).windows_view().contains_key(window_id.id_index()),
            new_rect.tl.x <= new_rect.br.x,
            new_rect.tl.y <= new_rect.br.y,
            new_rect.spec_width() * new_rect.spec_height() <= usize::MAX,
        ensures
            final(self).wf(),
            final(self).visible_view() == old(self).visible_view(),
            forall|k: nat| #[trigger] final(self).windows_view().contains_key(k) == old(self).windows_view().contains_key(k),
            forall|k: nat| #[trigger] old(self).windows_view().contains_key(k) && k != window_id.id_index()
                ==> final(self).windows_view()[k] == old(self).windows_view()[k],
            ({
                let w = final(self).windows_view()[window_id.id_index()];
                &&& w.spec_z_index() == old(self).windows_view()[window_id.id_index()].spec_z_index()
                &&& w.spec_rect() == new_rect
                &&& w.spec_surface().spec_fill() == (Color { r: 0xff, g: 0xff, b: 0xff, a: 0xff })
                &&& forall|x: int, y: int| new_rect.has(x, y) ==> #[trigger] w.spec_surface().pixel(x, y) == (Color { r: 0xff, g: 0xff, b: 0xff, a: 0xff })
            }),
            forall|x: int, y: int| #[trigger] final(self).damage(x, y) == {
                let z = old(self).windows_view()[window_id.id_index()].spec_z_index();
                let orect = old(self).windows_view()[window_id.id_index()].spec_rect();
                let mid = if orect.has(x, y) && !(old(self).damage(x, y) matches Some(q) && q.z_index < z) {
                    match cover_between(old(self).visible_view(), old(self).windows_view(), z + 1, old(self).visible_view().len() as int, x, y) {
                        Some(j) => Some(Region { z_index: j as usize, dirty: true }),
                        None => old(self).damage(x, y),
                    }
                } else {
                    old(self).damage(x, y)
                };
                if new_rect.has(x, y) {
                    match mid {
                        Some(r) => if r.z_index < z {
                            Some(r)
                        } else {
                            Some(Region { z_index: z, dirty: true })
                        },
                        None => Some(Region { z_index: z, dirty: true }),
                    }
                } else {
                    mid
                }
            },
    {
        let ghost s0 = *self;
        let window = self.windows.get(window_id).unwrap();
        let z = window.z_index;
        let orect = window.rect();
        self.rebuild_damage_tracker_move(z, orect);
        let ghost s1 = *self;
        let surface = Surface::new(new_rect, Color::white());
        let window = self.windows.get_mut(window_id).unwrap();
        window.surface = surface;
        proof {
            let key = window_id.id_index();
            assert forall|i: int| 0 <= i < self.visible@.len() implies self.windows@.contains_key((#[trigger] self.visible@[i]).id_index())
                && self.windows@[self.visible@[i].id_index()].spec_z_index() == i by {
                assert(s1.windows@.contains_key(s1.visible@[i].id_index()));
            }
            assert forall|k: nat| #[trigger] self.windows@.contains_key(k) implies exists|i: int|
                0 <= i < self.visible@.len() && (#[trigger] self.visible@[i]).id_index() == k by {
                assert(s1.windows@.contains_key(k));
                let j = choose|j: int| 0 <= j < s1.visible@.len() && (#[trigger] s1.visible@[j]).id_index() == k;
                assert(self.visible@[j].id_index() == k);
            }
            assert(self.wf());
        }
        let ghost s2 = *self;
        self.mark_dirty(window_id, new_rect);
        proof {
            assert(s2.damage_tracker == s1.damage_tracker);
            assert forall|x: int, y: int| #[trigger] self.damage(x, y) == {
                let mid = s1.damage(x, y);
                if new_rect.has(x, y) {
                    match mid {
                        Some(r) => if r.z_index < z {
                            Some(r)
                        } else {
                            Some(Region { z_index: z, dirty: true })
                        },
                        None => Some(Region { z_index: z, dirty: true }),
                    }
                } else {
                    mid
                }
            } by {
                assert(s2.damage(x, y) == s1.damage(x, y));
            }
        }
    }

    /// Moves window `window_id` to depth `new_z_index` (at most the back), shifting the windows
    /// in between one step the other way, and hands the window's points over accordingly.
    pub fn set_window_z_index(&mut self, window_id: WindowId, new_z_index: usize)
        requires
            old(self).wf(),
            old(self).windows_view().contains_key(window_id.id_index()),
        ensures
            final(self).wf(),
            ({
                let n = old(self).visible_view().len();
                let oz = old(self).windows_view()[window_id.id_index()].spec_z_index();
                let nz = if new_z_index < n - 1 { new_z_index } else { (n - 1) as usize };
                let rect = old(self).windows_view()[window_id.id_index()].spec_rect();
                &&& final(self).visible_view() == old(self).visible_view().remove(oz as int).insert(nz as int, old(self).visible_view()[oz as int])
                &&& forall|k: nat| #[trigger] final(self).windows_view().contains_key(k) == old(self).windows_view().contains_key(k)
                &&& forall|k: nat| #[trigger] old(self).windows_view().contains_key(k) ==> final(self).windows_view()[k].spec_surface()
                    == old(self).windows_view()[k].spec_surface() && final(self).windows_view()[k].spec_z_index()
                    == restack(old(self).windows_view()[k].spec_z_index(), oz, nz)
                &&& forall|x: int, y: int| #[trigger] final(self).damage(x, y) == {
                    let d1 = match old(self).damage(x, y) {
                        Some(r) => Some(Region { z_index: restack(r.z_index, oz, nz), dirty: r.dirty }),
                        None => None,
                    };
                    if oz < nz {
                        if rect.has(x, y) && !(d1 matches Some(q) && (q.z_index < oz || q.z_index >= nz)) {
                            match cover_between(final(self).visible_view(), final(self).windows_view(), oz as int, nz as int, x, y) {
                                Some(j) => Some(Region { z_index: j as usize, dirty: true }),
                                None => d1,
                            }
                        } else {
                            d1
                        }
                    } else if nz < oz {
                        if rect.has(x, y) {
                            match d1 {
                                Some(r) => if r.z_index <= nz {
                                    Some(r)
                                } else {
                                    Some(Region { z_index: nz, dirty: true })
                                },
                                None => Some(Region { z_index: nz, dirty: true }),
                            }
                        } else {
                            d1
                        }
                    } else {
                        d1
                    }
                }
            }),
    {
        let ghost s0 = *self;
        let n = self.visible.len();
        let window = self.windows.get(window_id).unwrap();
        let oz = window.z_index;
        let rect = window.rect();
        proof {
            let i = choose|i: int| 0 <= i < s0.visible@.len() && (#[trigger] s0.visible@[i]).id_index() == window_id.id_index();
            assert(s0.windows@[s0.visible@[i].id_index()].spec_z_index() == i);
        }
        let nz = if new_z_index < n - 1 { new_z_index } else { n - 1 };
        if nz == oz {
            proof {
                assert(s0.visible@.remove(oz as int).insert(nz as int, s0.visible@[oz as int]) =~= s0.visible@);
                assert forall|x: int, y: int| #[trigger] self.damage(x, y) == match s0.damage(x, y) {
                    Some(r) => Some(Region { z_index: restack(r.z_index, oz, nz), dirty: r.dirty }),
                    None => None,
                } by {}
            }
            return;
        }
        let f = |z: usize| -> (o: usize)
            ensures
                o == restack(z, oz, nz),
            {
                if z == oz {
                    nz
                } else if oz < nz && oz < z && z <= nz {
                    z - 1
                } else if nz < oz && nz <= z && z < oz {
                    z + 1
                } else {
                    z
                }
            };
        self.z_index_update(f);
        let ghost s1 = *self;
        let id = self.visible.remove(oz);
        self.visible.insert(nz, id);
        proof {
            let v0 = s0.visible@;
            let v2 = self.visible@;
            assert(id == v0[oz as int]);
            assert(v2 == v0.remove(oz as int).insert(nz as int, v0[oz as int]));
            assert(v2.len() == n);
            assert forall|i: int| 0 <= i < n implies #[trigger] v2[i] == v0[src_index(i, oz as int, nz as int)] by {
                lemma_rotate_index(v0, oz as int, nz as int, i);
            }
            assert forall|i: int| 0 <= i < v2.len() implies self.windows@.contains_key((#[trigger] v2[i]).id_index())
                && self.windows@[v2[i].id_index()].spec_z_index() == i by {
                let j = src_index(i, oz as int, nz as int);
                assert(v2[i] == v0[j]);
                assert(s0.windows@.contains_key(v0[j].id_index()) && s0.windows@[v0[j].id_index()].spec_z_index() == j);
            }
            assert forall|k: nat| #[trigger] self.windows@.contains_key(k) implies exists|i: int|
                0 <= i < v2.len() && (#[trigger] v2[i]).id_index() == k by {
                assert(s0.windows@.contains_key(k));
                let j = choose|j: int| 0 <= j < v0.len() && (#[trigger] v0[j]).id_index() == k;
                let i = dst_index(j, oz as int, nz as int);
                assert(src_index(i, oz as int, nz as int) == j);
                assert(v2[i] == v0[j]);
            }
            assert forall|x: int, y: int| region_ok(#[trigger] self.damage_tracker.value_at(x, y), v2.len()) by {
                assert(region_ok(s0.damage_tracker.value_at(x, y), n as nat));
                if s0.damage(x, y) is Some {
                    assert(s1.damage(x, y) is Some);
                }
                if s0.damage(x, y) is None {
                    assert(s1.damage(x, y) is None);
                }
            }
            assert(self.wf());
        }
        let ghost s2 = *self;
        if oz < nz {
            self.rebuild_damage_tracker_move_to_back(oz, nz, rect);
            proof {
                assert forall|x: int, y: int| #[trigger] s2.damage(x, y) == match s0.damage(x, y) {
                    Some(r) => Some(Region { z_index: restack(r.z_index, oz, nz), dirty: r.dirty }),
                    None => None,
                } by {
                    if s0.damage(x, y) is Some {
                        assert(s1.damage(x, y) is Some);
                    }
                    if s0.damage(x, y) is None {
                        assert(s1.damage(x, y) is None);
                    }
                }
            }
        } else {
            let g = |region: Option<&Region>| -> (o: Option<Region>)
                ensures
                    o == match region {
                        Some(q) => if q.z_index <= nz {
                            Some(*q)
                        } else {
                            Some(Region { z_index: nz, dirty: true })
                        },
                        None => Some(Region { z_index: nz, dirty: true }),
                    },
                {
                    match region {
                        Some(q) => if q.z_index <= nz {
                            Some(*q)
                        } else {
                            Some(Region { z_index: nz, dirty: true })
                        },
                        None => Some(Region { z_index: nz, dirty: true }),
                    }
                };
            self.damage_tracker.update(rect, g);
            proof {
                assert forall|x: int, y: int| #[trigger] s2.damage(x, y) == match s0.damage(x, y) {
                    Some(r) => Some(Region { z_index: restack(r.z_index, oz, nz), dirty: r.dirty }),
                    None => None,
                } by {
                    if s0.damage(x, y) is Some {
                        assert(s1.damage(x, y) is Some);
                    }
                    if s0.damage(x, y) is None {
                        assert(s1.damage(x, y) is None);
                    }
                }
                assert forall|x: int, y: int| #[trigger] self.damage(x, y) == if rect.has(x, y) {
                    match s2.damage(x, y) {
                        Some(r) => if r.z_index <= nz {
                            Some(r)
                        } else {
                            Some(Region { z_index: nz, dirty: true })
                        },
                        None => Some(Region { z_index: nz, dirty: true }),
                    }
                } else {
                    s2.damage(x, y)
                } by {
                    assert(agrees(g, s2.damage_tracker.bands@, self.damage_tracker.bands@, rect, x, y));
                }
                assert forall|x: int, y: int| region_ok(#[trigger] self.damage_tracker.value_at(x, y), self.visible@.len()) by {
                    assert(region_ok(s2.damage_tracker.value_at(x, y), self.visible@.len()));
                    assert(agrees(g, s2.damage_tracker.bands@, self.damage_tracker.bands@, rect, x, y));
                }
                assert(self.wf());
            }
        }
    }

}

/// The front-most position in `[i, hi)` of `vis` whose window covers `(x, y)`.
pub open spec fn cover_between(vis: Seq<WindowId>, wins: Map<nat, Window>, i: int, hi: int, x: int, y: int) -> Option<int>
    decreases hi - i,
{
    if i < 0 || i >= hi || i >= vis.len() {
        None
    } else if wins[vis[i].id_index()].spec_rect().has(x, y) {
        Some(i)
    } else {
        cover_between(vis, wins, i + 1, hi, x, y)
    }
}

proof fn lemma_cover_between_bound(vis: Seq<WindowId>, wins: Map<nat, Window>, i: int, hi: int, x: int, y: int)
    ensures
        cover_between(vis, wins, i, hi, x, y) matches Some(j) ==> i <= j < hi && j < vis.len() && 0 <= j,
    decreases hi - i,
{
    if 0 <= i < hi && i < vis.len() && !wins[vis[i].id_index()].spec_rect().has(x, y) {
        lemma_cover_between_bound(vis, wins, i + 1, hi, x, y);
    }
}

proof fn lemma_cover_from_bound(vis: Seq<WindowId>, wins: Map<nat, Window>, i: int, x: int, y: int)
    ensures
        cover_from(vis, wins, i, x, y) matches Some(j) ==> i <= j < vis.len(),
    decreases vis.len() - i,
{
    if 0 <= i < vis.len() && !wins[vis[i].id_index()].spec_rect().has(x, y) {
        lemma_cover_from_bound(vis, wins, i + 1, x, y);
    }
}

/// The depth a window at depth `z` takes when the window at depth `oz` moves to depth `nz`.
pub open spec fn restack(z: usize, oz: usize, nz: usize) -> usize {
    if z == oz {
        nz
    } else if oz < nz && oz < z && z <= nz {
        (z - 1) as usize
    } else if nz < oz && nz <= z && z < oz {
        (z + 1) as usize
    } else {
        z
    }
}

/// The position before the move of the entry at position `i` after moving the entry at `oz` to `nz`.
spec fn src_index(i: int, oz: int, nz: int) -> int {
    if i == nz {
        oz
    } else if oz < nz && oz <= i < nz {
        i + 1
    } else if nz < oz && nz < i <= oz {
        i - 1
    } else {
        i
    }
}

/// The position after the move of the entry at position `j` before it.
spec fn dst_index(j: int, oz: int, nz: int) -> int {
    if j == oz {
        nz
    } else if oz < nz && oz < j <= nz {
        j - 1
    } else if nz < oz && nz <= j < oz {
        j + 1
    } else {
        j
    }
}

proof fn lemma_rotate_index<T>(v: Seq<T>, oz: int, nz: int, i: int)
    requires
        0 <= oz < v.len(),
        0 <= nz < v.len(),
        0 <= i < v.len(),
    ensures
        v.remove(oz).insert(nz, v[oz]).len() == v.len(),
        v.remove(oz).insert(nz, v[oz])[i] == v[src_index(i, oz, nz)],
{
    let r = v.remove(oz);
    assert(r.len() == v.len() - 1);
    assert(forall|k: int| 0 <= k < r.len() ==> #[trigger] r[k] == if k < oz { v[k] } else { v[k + 1] });
    let w = r.insert(nz, v[oz]);
    assert(forall|k: int| 0 <= k < w.len() ==> #[trigger] w[k] == if k < nz { r[k] } else if k == nz { v[oz] } else { r[k - 1] });
}

} // verus!
