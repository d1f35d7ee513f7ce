use vstd::prelude::*;

verus! {

/// An RGBA colour as stored in a frame buffer.
#[derive(Clone, Copy, Debug, PartialEq, Eq)]
pub struct Color {
    pub r: u8,
    pub g: u8,
    pub b: u8,
    pub a: u8,
}

impl Color {
    pub fn black() -> (c: Color)
        ensures
            c == (Color { r: 0, g: 0, b: 0, a: 0xff }),
    {
        Color { r: 0, g: 0, b: 0, a: 0xff }
    }

    pub fn white() -> (c: Color)
        ensures
            c == (Color { r: 0xff, g: 0xff, b: 0xff, a: 0xff }),
    {
        Color { r: 0xff, g: 0xff, b: 0xff, a: 0xff }
    }

    pub fn red() -> (c: Color)
        ensures
            c == (Color { r: 0xff, g: 0, b: 0, a: 0xff }),
    {
        Color { r: 0xff, g: 0, b: 0, a: 0xff }
    }

    pub fn green() -> (c: Color)
        ensures
            c == (Color { r: 0, g: 0xff, b: 0, a: 0xff }),
    {
        Color { r: 0, g: 0xff, b: 0, a: 0xff }
    }

    pub fn blue() -> (c: Color)
        ensures
            c == (Color { r: 0, g: 0, b: 0xff, a: 0xff }),
    {
        Color { r: 0, g: 0, b: 0xff, a: 0xff }
    }
}

/// A point on the screen; `x` grows to the right and `y` downwards.
#[derive(Clone, Copy, Debug)]
pub struct Point {
    pub x: i32,
    pub y: i32,
}

/// A half-open rectangle: `tl` is the first point inside, `br` the first point past it.
#[derive(Clone, Copy, Debug)]
pub struct Rect {
    pub tl: Point,
    pub br: Point,
}

pub open spec fn spec_max(a: int, b: int) -> int {
    if a >= b { a } else { b }
}

pub open spec fn spec_min(a: int, b: int) -> int {
    if a <= b { a } else { b }
}

pub open spec fn fits_i32(v: int) -> bool {
    i32::MIN <= v <= i32::MAX
}

impl Point {
    pub fn new(x: i32, y: i32) -> (p: Point)
        ensures
            p.x == x,
            p.y == y,
    {
        Point { x, y }
    }

    pub fn zero() -> (p: Point)
        ensures
            p.x == 0,
            p.y == 0,
    {
        Point { x: 0, y: 0 }
    }

    /// Component-wise sum of two points.
    pub fn add_point(self, rhs: Point) -> (p: Point)
        requires
            fits_i32(self.x + rhs.x),
            fits_i32(self.y + rhs.y),
        ensures
            p.x == self.x + rhs.x,
            p.y == self.y + rhs.y,
    {
        Point { x: self.x + rhs.x, y: self.y + rhs.y }
    }

    /// Component-wise difference of two points.
    pub fn sub_point(self, rhs: Point) -> (p: Point)
        requires
            fits_i32(self.x - rhs.x),
            fits_i32(self.y - rhs.y),
        ensures
            p.x == self.x - rhs.x,
            p.y == self.y - rhs.y,
    {
        Point { x: self.x - rhs.x, y: self.y - rhs.y }
    }
}

impl Rect {
    /// Whether the point `(x, y)` lies inside the rectangle.
    pub open spec fn has(self, x: int, y: int) -> bool {
        &&& self.tl.x <= x < self.br.x
        &&& self.tl.y <= y < self.br.y
    }

    /// A rectangle holds no point exactly when one of its sides is not positive.
    pub open spec fn spec_is_empty(self) -> bool {
        self.br.x <= self.tl.x || self.br.y <= self.tl.y
    }

    pub open spec fn spec_width(self) -> int {
        self.br.x - self.tl.x
    }

    pub open spec fn spec_height(self) -> int {
        self.br.y - self.tl.y
    }

    /// Both sides of the rectangle fit in an `i32`.
    pub open spec fn sides_fit(self) -> bool {
        fits_i32(self.spec_width()) && fits_i32(self.spec_height())
    }

    pub open spec fn within(self, outer: Rect) -> bool {
        &&& outer.tl.x <= self.tl.x
        &&& outer.tl.y <= self.tl.y
        &&& self.br.x <= outer.br.x
        &&& self.br.y <= outer.br.y
    }

    pub fn empty() -> (r: Rect)
        ensures
            r.tl.x == 0 && r.tl.y == 0 && r.br.x == 0 && r.br.y == 0,
    {
        Rect { tl: Point::zero(), br: Point::zero() }
    }

    pub fn new(x0: i32, y0: i32, x1: i32, y1: i32) -> (r: Rect)
        ensures
            r.tl.x == x0,
            r.tl.y == y0,
            r.br.x == x1,
            r.br.y == y1,
    {
        Rect { tl: Point { x: x0, y: y0 }, br: Point { x: x1, y: y1 } }
    }

    pub fn width(&self) -> (w: i32)
        requires
            fits_i32(self.spec_width()),
        ensures
            w == self.spec_width(),
    {
        self.br.x - self.tl.x
    }

    pub fn height(&self) -> (h: i32)
        requires
            fits_i32(self.spec_height()),
        ensures
            h == self.spec_height(),
    {
        self.br.y - self.tl.y
    }

    pub fn size(&self) -> (p: Point)
        requires
            self.sides_fit(),
        ensures
            p.x == self.spec_width(),
            p.y == self.spec_height(),
    {
        Point::new(self.width(), self.height())
    }

    pub fn contains_point(&self, pt: Point) -> (b: bool)
        ensures
            b == self.has(pt.x as int, pt.y as int),
    {
        self.tl.x <= pt.x && pt.x < self.br.x && self.tl.y <= pt.y && pt.y < self.br.y
    }

    pub fn is_empty(&self) -> (b: bool)
        ensures
            b == self.spec_is_empty(),
            b <==> (forall|x: int, y: int| !self.has(x, y)),
    {
        proof {
            if !self.spec_is_empty() {
                assert(self.has(self.tl.x as int, self.tl.y as int));
            }
        }
        self.br.x <= self.tl.x || self.br.y <= self.tl.y
    }

    /// The common part of two rectangles, `None` when they share no point.
    pub open spec fn spec_intersect(self, boundary: Rect) -> Option<Rect> {
        let tl_x = spec_max(self.tl.x as int, boundary.tl.x as int);
        let tl_y = spec_max(self.tl.y as int, boundary.tl.y as int);
        let br_x = spec_min(self.br.x as int, boundary.br.x as int);
        let br_y = spec_min(self.br.y as int, boundary.br.y as int);
        if tl_x < br_x && tl_y < br_y {
            Some(
                Rect {
                    tl: Point { x: tl_x as i32, y: tl_y as i32 },
                    br: Point { x: br_x as i32, y: br_y as i32 },
                },
            )
        } else {
            None
        }
    }

    pub fn intersect(self, boundary: Rect) -> (r: Option<Rect>)
        ensures
            r == self.spec_intersect(boundary),
            r matches Some(q) ==> !q.spec_is_empty() && q.within(self) && q.within(boundary),
            r matches Some(q) ==> forall|x: int, y: int|
                q.has(x, y) <==> (self.has(x, y) && boundary.has(x, y)),
            r is None ==> forall|x: int, y: int| !(self.has(x, y) && boundary.has(x, y)),
    {
        let tl_x = if self.tl.x >= boundary.tl.x { self.tl.x } else { boundary.tl.x };
        let tl_y = if self.tl.y >= boundary.tl.y { self.tl.y } else { boundary.tl.y };
        let br_x = if self.br.x <= boundary.br.x { self.br.x } else { boundary.br.x };
        let br_y = if self.br.y <= boundary.br.y { self.br.y } else { boundary.br.y };
        if tl_x < br_x && tl_y < br_y {
            Some(Rect::new(tl_x, tl_y, br_x, br_y))
        } else {
            None
        }
    }

    /// The bounding box of two rectangles, ignoring empty ones.
    pub open spec fn spec_merge(self, other: Rect) -> Rect {
        if self.spec_is_empty() {
            other
        } else if other.spec_is_empty() {
            self
        } else {
            Rect {
                tl: Point {
                    x: spec_min(self.tl.x as int, other.tl.x as int) as i32,
                    y: spec_min(self.tl.y as int, other.tl.y as int) as i32,
                },
                br: Point {
                    x: spec_max(self.br.x as int, other.br.x as int) as i32,
                    y: spec_max(self.br.y as int, other.br.y as int) as i32,
                },
            }
        }
    }

    pub fn merge(self, other: Rect) -> (r: Rect)
        ensures
            r == self.spec_merge(other),
            forall|x: int, y: int| self.has(x, y) || other.has(x, y) ==> r.has(x, y),
    {
        if self.is_empty() {
            other
        } else if other.is_empty() {
            self
        } else {
            Rect::new(
                if self.tl.x <= other.tl.x { self.tl.x } else { other.tl.x },
                if self.tl.y <= other.tl.y { self.tl.y } else { other.tl.y },
                if self.br.x >= other.br.x { self.br.x } else { other.br.x },
                if self.br.y >= other.br.y { self.br.y } else { other.br.y },
            )
        }
    }
}

/// Intersecting is commutative: both orders give the same rectangle.
pub proof fn lemma_intersect_commutes(a: Rect, b: Rect)
    ensures
        a.spec_intersect(b) == b.spec_intersect(a),
{
}

/// Merging with an empty rectangle leaves the other one unchanged.
pub proof fn lemma_merge_empty_identity(a: Rect, e: Rect)
    requires
        e.spec_is_empty(),
    ensures
        e.spec_merge(a) == a,
        !a.spec_is_empty() ==> a.spec_merge(e) == a,
{
}

} // verus!
