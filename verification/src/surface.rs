use vstd::prelude::*;

use crate::geometry::{fits_i32, Color, Point, Rect};

verus! {

proof fn lemma_index_bound(dy: int, dx: int, h: int, w: int, stride: int)
    by (nonlinear_arith)
    requires
        0 <= dy < h,
        0 <= dx < w,
        w <= stride,
    ensures
        0 <= dy * stride + dx < h * stride,
        dy * stride <= dy * stride + dx,
{
    assert(dy * stride + dx < dy * stride + stride);
    assert(dy * stride + stride == (dy + 1) * stride);
    assert((dy + 1) * stride <= h * stride);
}

proof fn lemma_index_injective(dy1: int, dx1: int, dy2: int, dx2: int, stride: int)
    by (nonlinear_arith)
    requires
        0 <= dy1,
        0 <= dy2,
        0 <= dx1 < stride,
        0 <= dx2 < stride,
        dy1 * stride + dx1 == dy2 * stride + dx2,
    ensures
        dy1 == dy2,
        dx1 == dx2,
{
    if dy1 < dy2 {
        assert(dy1 * stride + stride <= dy2 * stride);
    } else if dy2 < dy1 {
        assert(dy2 * stride + stride <= dy1 * stride);
    }
}

/// The pixels of an image and how they are laid out.
struct Canvas {
    image: Vec<Color>,
    rect: Rect,
    stride: usize,
    fill: Color,
}

impl Canvas {
    spec fn wf(&self) -> bool {
        &&& self.rect.tl.x <= self.rect.br.x
        &&& self.rect.tl.y <= self.rect.br.y
        &&& self.rect.br.x - self.rect.tl.x <= self.stride
        &&& self.image@.len() == (self.rect.br.y - self.rect.tl.y) * self.stride
    }

    spec fn spec_rect(&self) -> Rect {
        self.rect
    }

    spec fn spec_fill(&self) -> Color {
        self.fill
    }

    spec fn pidx(&self, x: int, y: int) -> int {
        (y - self.rect.tl.y) * self.stride + (x - self.rect.tl.x)
    }

    /// The colour of point `(x, y)` of the image.
    spec fn pixel(&self, x: int, y: int) -> Color {
        self.image@[self.pidx(x, y)]
    }

    proof fn lemma_pidx(&self, x: int, y: int)
        requires
            self.wf(),
            self.rect.has(x, y),
        ensures
            0 <= self.pidx(x, y) < self.image@.len(),
    {
        lemma_index_bound(
            y - self.rect.tl.y,
            x - self.rect.tl.x,
            self.rect.br.y - self.rect.tl.y,
            self.rect.br.x - self.rect.tl.x,
            self.stride as int,
        );
    }

    proof fn lemma_pidx_distinct(&self, x1: int, y1: int, x2: int, y2: int)
        requires
            self.wf(),
            self.rect.has(x1, y1),
            self.rect.has(x2, y2),
            x1 != x2 || y1 != y2,
        ensures
            self.pidx(x1, y1) != self.pidx(x2, y2),
    {
        if self.pidx(x1, y1) == self.pidx(x2, y2) {
            lemma_index_injective(
                y1 - self.rect.tl.y,
                x1 - self.rect.tl.x,
                y2 - self.rect.tl.y,
                x2 - self.rect.tl.x,
                self.stride as int,
            );
        }
    }

    fn index_of(&self, x: i64, y: i64) -> (i: usize)
        requires
            self.wf(),
            self.rect.has(x as int, y as int),
        ensures
            i == self.pidx(x as int, y as int),
            i < self.image@.len(),
    {
        let n = self.image.len();
        let dy = (y - self.rect.tl.y as i64) as usize;
        let dx = (x - self.rect.tl.x as i64) as usize;
        proof {
            assert(dy as int == y - self.rect.tl.y);
            assert(dx as int == x - self.rect.tl.x);
            self.lemma_pidx(x as int, y as int);
            lemma_index_bound(
                dy as int,
                dx as int,
                self.rect.br.y - self.rect.tl.y,
                self.rect.br.x - self.rect.tl.x,
                self.stride as int,
            );
        }
        dy * self.stride + dx
    }

    /// A `rect`-sized image filled with `fill`.
    fn new(rect: Rect, fill: Color) -> (s: Canvas)
        requires
            rect.tl.x <= rect.br.x,
            rect.tl.y <= rect.br.y,
            rect.spec_width() * rect.spec_height() <= usize::MAX,
        ensures
            s.wf(),
            s.spec_rect() == rect,
            s.spec_fill() == fill,
            forall|x: int, y: int| rect.has(x, y) ==> #[trigger] s.pixel(x, y) == fill,
    {
        let w = (rect.br.x as i64 - rect.tl.x as i64) as usize;
        let h = (rect.br.y as i64 - rect.tl.y as i64) as usize;
        let n = w * h;
        let mut image: Vec<Color> = Vec::new();
        let mut i: usize = 0;
        while i < n
            invariant
                0 <= i <= n,
                image@.len() == i,
                forall|k: int| 0 <= k < i ==> image@[k] == fill,
            decreases n - i,
        {
            image.push(fill);
            i = i + 1;
        }
        let s = Canvas { image, rect, stride: w, fill };
        proof {
            assert(n == h * w) by (nonlinear_arith)
                requires n == w * h;
            assert forall|x: int, y: int| rect.has(x, y) implies #[trigger] s.pixel(x, y) == fill by {
                s.lemma_pidx(x, y);
            }
        }
        s
    }

    /// Takes over an image stored row by row `stride` apart.
    fn from_raw(image: Vec<Color>, rect: Rect, stride: usize, fill: Color) -> (s: Canvas)
        requires
            rect.tl.x <= rect.br.x,
            rect.tl.y <= rect.br.y,
            rect.spec_width() <= stride,
            image@.len() == rect.spec_height() * stride,
        ensures
            s.wf(),
            s.spec_rect() == rect,
            s.spec_fill() == fill,
            s.image@ == image@,
            s.stride == stride,
    {
        Canvas { image, rect, stride, fill }
    }

    fn rect(&self) -> (r: Rect)
        ensures
            r == self.spec_rect(),
    {
        self.rect
    }

    /// The colour at `(x, y)`, which must lie in the image.
    fn pixel_at(&self, x: i32, y: i32) -> (c: Color)
        requires
            self.wf(),
            self.spec_rect().has(x as int, y as int),
        ensures
            c == self.pixel(x as int, y as int),
    {
        let i = self.index_of(x as i64, y as i64);
        self.image[i]
    }

    /// Paints the points of `dst` (which lies inside the image) with `color`.
    fn fill_rect(&mut self, dst: Rect, color: Color)
        requires
            old(self).wf(),
            dst.within(old(self).rect),
        ensures
            final(self).wf(),
            final(self).rect == old(self).rect,
            final(self).fill == old(self).fill,
            final(self).stride == old(self).stride,
            forall|x: int, y: int| old(self).rect.has(x, y) ==> #[trigger] final(self).pixel(x, y) == if dst.has(x, y) {
                color
            } else {
                old(self).pixel(x, y)
            },
    {
        let ghost s0 = *self;
        let mut y = dst.tl.y as i64;
        while y < dst.br.y as i64
            invariant
                self.wf(),
                self.rect == s0.rect,
                self.fill == s0.fill,
                self.stride == s0.stride,
                s0.wf(),
                dst.within(s0.rect),
                dst.tl.y <= y,
                y <= dst.br.y || y == dst.tl.y,
                forall|px: int, py: int| s0.rect.has(px, py) ==> #[trigger] self.pixel(px, py) == if dst.has(px, py) && py < y {
                    color
                } else {
                    s0.pixel(px, py)
                },
            decreases dst.br.y - y,
        {
            let mut x = dst.tl.x as i64;
            while x < dst.br.x as i64
                invariant
                    self.wf(),
                    self.rect == s0.rect,
                    self.fill == s0.fill,
                    self.stride == s0.stride,
                    s0.wf(),
                    dst.within(s0.rect),
                    dst.tl.y <= y < dst.br.y,
                    dst.tl.x <= x,
                    x <= dst.br.x || x == dst.tl.x,
                    forall|px: int, py: int| s0.rect.has(px, py) ==> #[trigger] self.pixel(px, py) == if dst.has(px, py) && (py < y || (py == y && px < x)) {
                        color
                    } else {
                        s0.pixel(px, py)
                    },
                decreases dst.br.x - x,
            {
                let i = self.index_of(x, y);
                let ghost before = *self;
                self.image.set(i, color);
                proof {
                    assert forall|px: int, py: int| s0.rect.has(px, py) implies #[trigger] self.pixel(px, py) == if dst.has(px, py) && (py < y || (py == y && px < x + 1)) {
                        color
                    } else {
                        s0.pixel(px, py)
                    } by {
                        before.lemma_pidx(px, py);
                        if px != x || py != y {
                            before.lemma_pidx_distinct(px, py, x as int, y as int);
                        }
                        assert(before.pixel(px, py) == if dst.has(px, py) && (py < y || (py == y && px < x)) {
                            color
                        } else {
                            s0.pixel(px, py)
                        });
                    }
                }
                x = x + 1;
            }
            y = y + 1;
        }
    }

    /// Paints the points of `dst_rect` that lie in the image with `color`.
    fn fill(&mut self, dst_rect: Rect, color: Color)
        requires
            old(self).wf(),
        ensures
            final(self).wf(),
            final(self).spec_rect() == old(self).spec_rect(),
            final(self).spec_fill() == old(self).spec_fill(),
            forall|x: int, y: int| old(self).spec_rect().has(x, y) ==> #[trigger] final(self).pixel(x, y) == if dst_rect.has(x, y) {
                color
            } else {
                old(self).pixel(x, y)
            },
    {
        match dst_rect.intersect(self.rect) {
            Some(r) => self.fill_rect(r, color),
            None => {},
        }
    }

    /// Copies the `w` by `h` block of `src` at `src_tl` to `dst_tl` in this image.
    fn copy_rect(&mut self, dst_tl: Point, src: &Canvas, src_tl: Point, w: i64, h: i64)
        requires
            old(self).wf(),
            src.wf(),
            0 <= w,
            0 <= h,
            old(self).rect.tl.x <= dst_tl.x,
            dst_tl.x + w <= old(self).rect.br.x,
            old(self).rect.tl.y <= dst_tl.y,
            dst_tl.y + h <= old(self).rect.br.y,
            src.rect.tl.x <= src_tl.x,
            src_tl.x + w <= src.rect.br.x,
            src.rect.tl.y <= src_tl.y,
            src_tl.y + h <= src.rect.br.y,
        ensures
            final(self).wf(),
            final(self).rect == old(self).rect,
            final(self).fill == old(self).fill,
            final(self).stride == old(self).stride,
            forall|x: int, y: int| old(self).rect.has(x, y) ==> #[trigger] final(self).pixel(x, y) == if dst_tl.x <= x < dst_tl.x + w
                && dst_tl.y <= y < dst_tl.y + h {
                src.pixel(x - dst_tl.x + src_tl.x, y - dst_tl.y + src_tl.y)
            } else {
                old(self).pixel(x, y)
            },
    {
        let ghost s0 = *self;
        let mut dy: i64 = 0;
        while dy < h
            invariant
                self.wf(),
                self.rect == s0.rect,
                self.fill == s0.fill,
                self.stride == s0.stride,
                s0.wf(),
                src.wf(),
                0 <= w,
                0 <= h,
                0 <= dy <= h,
                s0.rect.tl.x <= dst_tl.x,
                dst_tl.x + w <= s0.rect.br.x,
                s0.rect.tl.y <= dst_tl.y,
                dst_tl.y + h <= s0.rect.br.y,
                src.rect.tl.x <= src_tl.x,
                src_tl.x + w <= src.rect.br.x,
                src.rect.tl.y <= src_tl.y,
                src_tl.y + h <= src.rect.br.y,
                forall|x: int, y: int| s0.rect.has(x, y) ==> #[trigger] self.pixel(x, y) == if dst_tl.x <= x < dst_tl.x + w
                    && dst_tl.y <= y < dst_tl.y + dy {
                    src.pixel(x - dst_tl.x + src_tl.x, y - dst_tl.y + src_tl.y)
                } else {
                    s0.pixel(x, y)
                },
            decreases h - dy,
        {
            let mut dx: i64 = 0;
            while dx < w
                invariant
                    self.wf(),
                    self.rect == s0.rect,
                    self.fill == s0.fill,
                    self.stride == s0.stride,
                    s0.wf(),
                    src.wf(),
                    0 <= w,
                    0 <= dy < h,
                    0 <= dx <= w,
                    s0.rect.tl.x <= dst_tl.x,
                    dst_tl.x + w <= s0.rect.br.x,
                    s0.rect.tl.y <= dst_tl.y,
                    dst_tl.y + h <= s0.rect.br.y,
                    src.rect.tl.x <= src_tl.x,
                    src_tl.x + w <= src.rect.br.x,
                    src.rect.tl.y <= src_tl.y,
                    src_tl.y + h <= src.rect.br.y,
                    forall|x: int, y: int| s0.rect.has(x, y) ==> #[trigger] self.pixel(x, y) == if dst_tl.x <= x < dst_tl.x + w
                        && (dst_tl.y <= y < dst_tl.y + dy || (y == dst_tl.y + dy && x < dst_tl.x + dx)) {
                        src.pixel(x - dst_tl.x + src_tl.x, y - dst_tl.y + src_tl.y)
                    } else {
                        s0.pixel(x, y)
                    },
                decreases w - dx,
            {
                let si = src.index_of(src_tl.x as i64 + dx, src_tl.y as i64 + dy);
                let c = src.image[si];
                let di = self.index_of(dst_tl.x as i64 + dx, dst_tl.y as i64 + dy);
                let ghost before = *self;
                let ghost px0 = dst_tl.x + dx;
                let ghost py0 = dst_tl.y + dy;
                self.image.set(di, c);
                proof {
                    assert forall|x: int, y: int| s0.rect.has(x, y) implies #[trigger] self.pixel(x, y) == if dst_tl.x <= x < dst_tl.x + w
                        && (dst_tl.y <= y < dst_tl.y + dy || (y == dst_tl.y + dy && x < dst_tl.x + dx + 1)) {
                        src.pixel(x - dst_tl.x + src_tl.x, y - dst_tl.y + src_tl.y)
                    } else {
                        s0.pixel(x, y)
                    } by {
                        before.lemma_pidx(x, y);
                        if x != px0 || y != py0 {
                            before.lemma_pidx_distinct(x, y, px0, py0);
                        }
                        assert(before.pixel(x, y) == if dst_tl.x <= x < dst_tl.x + w
                            && (dst_tl.y <= y < dst_tl.y + dy || (y == dst_tl.y + dy && x < dst_tl.x + dx)) {
                            src.pixel(x - dst_tl.x + src_tl.x, y - dst_tl.y + src_tl.y)
                        } else {
                            s0.pixel(x, y)
                        });
                    }
                }
                dx = dx + 1;
            }
            dy = dy + 1;
        }
    }

    /// Draws `src` into `dst_rect` of this image: the point `p` of `dst_rect` gets the colour of
    /// `p - dst_rect.tl + src_start` in `src`, or `src`'s fill colour where that point lies
    /// outside `src`.  Only points of this image change.
    fn blit(&mut self, dst_rect: Rect, src: &Canvas, src_start: Point)
        requires
            old(self).wf(),
            src.wf(),
        ensures
            final(self).wf(),
            final(self).spec_rect() == old(self).spec_rect(),
            final(self).spec_fill() == old(self).spec_fill(),
            forall|x: int, y: int| old(self).spec_rect().has(x, y) ==> #[trigger] final(self).pixel(x, y) == if dst_rect.has(x, y) {
                canvas_blit_source(dst_rect, src, src_start, x, y)
            } else {
                old(self).pixel(x, y)
            },
    {
        let ghost s0 = *self;
        let dst = match dst_rect.intersect(self.rect) {
            Some(r) => r,
            None => {
                return;
            },
        };
        let sx: i64 = src_start.x as i64 + (dst.tl.x as i64 - dst_rect.tl.x as i64);
        let sy: i64 = src_start.y as i64 + (dst.tl.y as i64 - dst_rect.tl.y as i64);
        let w: i64 = dst.br.x as i64 - dst.tl.x as i64;
        let h: i64 = dst.br.y as i64 - dst.tl.y as i64;
        let bs_tlx: i64 = if sx >= src.rect.tl.x as i64 { sx } else { src.rect.tl.x as i64 };
        let bs_tly: i64 = if sy >= src.rect.tl.y as i64 { sy } else { src.rect.tl.y as i64 };
        let bs_brx: i64 = if sx + w <= src.rect.br.x as i64 { sx + w } else { src.rect.br.x as i64 };
        let bs_bry: i64 = if sy + h <= src.rect.br.y as i64 { sy + h } else { src.rect.br.y as i64 };
        if !(bs_tlx < bs_brx && bs_tly < bs_bry) {
            self.fill_rect(dst, src.fill);
            proof {
                assert forall|x: int, y: int| s0.rect.has(x, y) implies #[trigger] self.pixel(x, y) == if dst_rect.has(x, y) {
                    canvas_blit_source(dst_rect, src, src_start, x, y)
                } else {
                    s0.pixel(x, y)
                } by {
                    if dst_rect.has(x, y) {
                        assert(dst.has(x, y));
                    }
                }
            }
            return;
        }
        assert(0 <= bs_tlx - sx && bs_brx - sx <= w && 0 <= bs_tly - sy && bs_bry - sy <= h);
        let bdtl_x: i32 = (dst.tl.x as i64 + (bs_tlx - sx)) as i32;
        let bdtl_y: i32 = (dst.tl.y as i64 + (bs_tly - sy)) as i32;
        let bw: i64 = bs_brx - bs_tlx;
        let bh: i64 = bs_bry - bs_tly;
        let bdbr_x: i32 = (dst.tl.x as i64 + (bs_brx - sx)) as i32;
        let bdbr_y: i32 = (dst.tl.y as i64 + (bs_bry - sy)) as i32;
        self.copy_rect(Point::new(bdtl_x, bdtl_y), src, Point::new(bs_tlx as i32, bs_tly as i32), bw, bh);
        let ghost s1 = *self;
        let top = Rect::new(dst.tl.x, dst.tl.y, dst.br.x, bdtl_y);
        let left = Rect::new(dst.tl.x, bdtl_y, bdtl_x, bdbr_y);
        let right = Rect::new(bdbr_x, bdtl_y, dst.br.x, bdbr_y);
        let bottom = Rect::new(dst.tl.x, bdbr_y, dst.br.x, dst.br.y);
        if dst.tl.y < bdtl_y {
            self.fill_rect(top, src.fill);
        }
        let ghost s2 = *self;
        assert(forall|x: int, y: int| s0.rect.has(x, y) ==> #[trigger] s2.pixel(x, y) == if top.has(x, y) { src.fill } else { s1.pixel(x, y) });
        if dst.tl.x < bdtl_x {
            self.fill_rect(left, src.fill);
        }
        let ghost s3 = *self;
        assert(forall|x: int, y: int| s0.rect.has(x, y) ==> #[trigger] s3.pixel(x, y) == if left.has(x, y) { src.fill } else { s2.pixel(x, y) });
        if bdbr_x < dst.br.x {
            self.fill_rect(right, src.fill);
        }
        let ghost s4 = *self;
        assert(forall|x: int, y: int| s0.rect.has(x, y) ==> #[trigger] s4.pixel(x, y) == if right.has(x, y) { src.fill } else { s3.pixel(x, y) });
        if bdbr_y < dst.br.y {
            self.fill_rect(bottom, src.fill);
        }
        proof {
            let s5 = *self;
            assert(forall|x: int, y: int| s0.rect.has(x, y) ==> #[trigger] s5.pixel(x, y) == if bottom.has(x, y) { src.fill } else { s4.pixel(x, y) });
            assert forall|x: int, y: int| s0.rect.has(x, y) implies #[trigger] self.pixel(x, y) == if dst_rect.has(x, y) {
                canvas_blit_source(dst_rect, src, src_start, x, y)
            } else {
                s0.pixel(x, y)
            } by {
                assert(s1.pixel(x, y) == if bdtl_x <= x < bdtl_x + bw && bdtl_y <= y < bdtl_y + bh {
                    src.pixel(x - bdtl_x + bs_tlx, y - bdtl_y + bs_tly)
                } else {
                    s0.pixel(x, y)
                });
                assert(s2.pixel(x, y) == if top.has(x, y) { src.fill } else { s1.pixel(x, y) });
                assert(s3.pixel(x, y) == if left.has(x, y) { src.fill } else { s2.pixel(x, y) });
                assert(s4.pixel(x, y) == if right.has(x, y) { src.fill } else { s3.pixel(x, y) });
                assert(s5.pixel(x, y) == if bottom.has(x, y) { src.fill } else { s4.pixel(x, y) });
                if dst_rect.has(x, y) {
                    assert(dst.has(x, y));
                    let qx = x - dst_rect.tl.x + src_start.x;
                    let qy = y - dst_rect.tl.y + src_start.y;
                    assert(qx == x - dst.tl.x + sx);
                    assert(qy == y - dst.tl.y + sy);
                    if bdtl_x <= x < bdbr_x && bdtl_y <= y < bdbr_y {
                        assert(src.rect.has(qx, qy));
                    } else {
                        assert(!src.rect.has(qx, qy));
                    }
                }
            }
        }
    }

    /// An identical copy of this image.
    fn duplicate(&self) -> (s: Canvas)
        ensures
            s.image@ == self.image@,
            s.rect == self.rect,
            s.stride == self.stride,
            s.fill == self.fill,
    {
        let mut image: Vec<Color> = Vec::new();
        let mut i: usize = 0;
        while i < self.image.len()
            invariant
                0 <= i <= self.image@.len(),
                image@ == self.image@.subrange(0, i as int),
            decreases self.image@.len() - i,
        {
            image.push(self.image[i]);
            i = i + 1;
            assert(image@ == self.image@.subrange(0, i as int));
        }
        assert(self.image@.subrange(0, self.image@.len() as int) == self.image@);
        Canvas { image, rect: self.rect, stride: self.stride, fill: self.fill }
    }

    /// Blits this image onto itself, reading every source point before any is overwritten.
    fn self_blit(&mut self, dst_rect: Rect, src_start: Point)
        requires
            old(self).wf(),
        ensures
            final(self).wf(),
            final(self).spec_rect() == old(self).spec_rect(),
            final(self).spec_fill() == old(self).spec_fill(),
            forall|x: int, y: int| old(self).spec_rect().has(x, y) ==> #[trigger] final(self).pixel(x, y) == if dst_rect.has(x, y) {
                canvas_blit_source(dst_rect, old(self), src_start, x, y)
            } else {
                old(self).pixel(x, y)
            },
    {
        let src = self.duplicate();
        proof {
            assert forall|x: int, y: int| #[trigger] src.pixel(x, y) == self.pixel(x, y) by {
            }
        }
        self.blit(dst_rect, &src, src_start);
        proof {
            assert forall|x: int, y: int| old(self).spec_rect().has(x, y) && dst_rect.has(x, y) implies
                canvas_blit_source(dst_rect, &src, src_start, x, y) == canvas_blit_source(dst_rect, old(self), src_start, x, y) by {
                let qx = x - dst_rect.tl.x + src_start.x;
                let qy = y - dst_rect.tl.y + src_start.y;
                assert(src.pixel(qx, qy) == old(self).pixel(qx, qy));
            }
        }
    }
}

/// A rectangular image: one colour per point of its rectangle, stored row by row.  Points
/// outside the image read as its fill colour when it is used as a source.
pub struct Surface {
    canvas: Canvas,
}

impl Surface {
    /// The image is laid out consistently: the stride covers the width and every row is stored.
    #[verifier::type_invariant]
    closed spec fn inv(&self) -> bool {
        self.canvas.wf()
    }

    pub closed spec fn spec_rect(&self) -> Rect {
        self.canvas.rect
    }

    pub closed spec fn spec_fill(&self) -> Color {
        self.canvas.fill
    }

    /// The colour of point `(x, y)` of the image.
    pub closed spec fn pixel(&self, x: int, y: int) -> Color {
        self.canvas.pixel(x, y)
    }

    /// Moves the pixels out, leaving an empty image behind.
    fn take(&mut self) -> (c: Canvas)
        ensures
            c == old(self).canvas,
            c.wf(),
    {
        proof {
            use_type_invariant(&*self);
        }
        let mut tmp = Surface {
            canvas: Canvas { image: Vec::new(), rect: Rect::new(0, 0, 0, 0), stride: 0, fill: Color::black() },
        };
        std::mem::swap(self, &mut tmp);
        tmp.canvas
    }

    /// A `rect`-sized image filled with `fill`.
    pub fn new(rect: Rect, fill: Color) -> (s: Surface)
        requires
            rect.tl.x <= rect.br.x,
            rect.tl.y <= rect.br.y,
            rect.spec_width() * rect.spec_height() <= usize::MAX,
        ensures
            s.spec_rect() == rect,
            s.spec_fill() == fill,
            forall|x: int, y: int| rect.has(x, y) ==> #[trigger] s.pixel(x, y) == fill,
    {
        Surface { canvas: Canvas::new(rect, fill) }
    }

    /// Takes over an image stored row by row `stride` apart.
    pub fn from_raw(image: Vec<Color>, rect: Rect, stride: usize, fill: Color) -> (s: Surface)
        requires
            rect.tl.x <= rect.br.x,
            rect.tl.y <= rect.br.y,
            rect.spec_width() <= stride,
            image@.len() == rect.spec_height() * stride,
        ensures
            s.spec_rect() == rect,
            s.spec_fill() == fill,
            forall|x: int, y: int| rect.has(x, y) ==> #[trigger] s.pixel(x, y) == image@[(y - rect.tl.y) * stride + (x - rect.tl.x)],
    {
        Surface { canvas: Canvas::from_raw(image, rect, stride, fill) }
    }

    pub fn rect(&self) -> (r: Rect)
        ensures
            r == self.spec_rect(),
    {
        self.canvas.rect()
    }

    /// The colour at `(x, y)`, which must lie in the image.
    pub fn pixel_at(&self, x: i32, y: i32) -> (c: Color)
        requires
            self.spec_rect().has(x as int, y as int),
        ensures
            c == self.pixel(x as int, y as int),
    {
        proof {
            use_type_invariant(self);
        }
        self.canvas.pixel_at(x, y)
    }

    /// Paints the points of `dst_rect` that lie in the image with `color`.
    pub fn fill(&mut self, dst_rect: Rect, color: Color)
        ensures
            final(self).spec_rect() == old(self).spec_rect(),
            final(self).spec_fill() == old(self).spec_fill(),
            forall|x: int, y: int| old(self).spec_rect().has(x, y) ==> #[trigger] final(self).pixel(x, y) == if dst_rect.has(x, y) {
                color
            } else {
                old(self).pixel(x, y)
            },
    {
        let mut c = self.take();
        c.fill(dst_rect, color);
        *self = Surface { canvas: c };
    }

    /// Draws `src` into `dst_rect` of this image: the point `p` of `dst_rect` gets the colour of
    /// `p - dst_rect.tl + src_start` in `src`, or `src`'s fill colour where that point lies
    /// outside `src`.  Only points of this image change.
    pub fn blit(&mut self, dst_rect: Rect, src: &Surface, src_start: Point)
        ensures
            final(self).spec_rect() == old(self).spec_rect(),
            final(self).spec_fill() == old(self).spec_fill(),
            forall|x: int, y: int| old(self).spec_rect().has(x, y) ==> #[trigger] final(self).pixel(x, y) == if dst_rect.has(x, y) {
                blit_source(dst_rect, src, src_start, x, y)
            } else {
                old(self).pixel(x, y)
            },
    {
        proof {
            use_type_invariant(src);
        }
        let mut c = self.take();
        c.blit(dst_rect, &src.canvas, src_start);
        *self = Surface { canvas: c };
    }

    /// Blits this image onto itself, reading every source point before any is overwritten.
    pub fn self_blit(&mut self, dst_rect: Rect, src_start: Point)
        ensures
            final(self).spec_rect() == old(self).spec_rect(),
            final(self).spec_fill() == old(self).spec_fill(),
            forall|x: int, y: int| old(self).spec_rect().has(x, y) ==> #[trigger] final(self).pixel(x, y) == if dst_rect.has(x, y) {
                blit_source(dst_rect, &*old(self), src_start, x, y)
            } else {
                old(self).pixel(x, y)
            },
    {
        let mut c = self.take();
        c.self_blit(dst_rect, src_start);
        *self = Surface { canvas: c };
    }
}

/// The colour a blit from a canvas puts at `(x, y)` of `dst_rect`.
spec fn canvas_blit_source(dst_rect: Rect, src: &Canvas, src_start: Point, x: int, y: int) -> Color {
    let qx = x - dst_rect.tl.x + src_start.x;
    let qy = y - dst_rect.tl.y + src_start.y;
    if src.rect.has(qx, qy) {
        src.pixel(qx, qy)
    } else {
        src.fill
    }
}

/// The colour a blit puts at `(x, y)` of `dst_rect`.
pub open spec fn blit_source(dst_rect: Rect, src: &Surface, src_start: Point, x: int, y: int) -> Color {
    let qx = x - dst_rect.tl.x + src_start.x;
    let qy = y - dst_rect.tl.y + src_start.y;
    if src.spec_rect().has(qx, qy) {
        src.pixel(qx, qy)
    } else {
        src.spec_fill()
    }
}

} // verus!
