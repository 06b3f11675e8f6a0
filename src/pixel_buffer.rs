use vstd::prelude::*;
use crate::line::{
    abs_diff, lemma_walk_advances, lemma_walk_error_steps, lemma_walk_unfold, line_points,
    line_set, toward, walk_error, walk_from, walk_next,
};

verus! {

/// An RGBA8 colour.
pub type Color = [u8; 4];

/// Width of the canonical raster.
pub const BUFFER_WIDTH: u32 = 320;

/// Height of the canonical raster.
pub const BUFFER_HEIGHT: u32 = 240;

/// An owned RGBA raster, row-major with the origin at the top left.
#[derive(Clone)]
pub struct PixelBuffer {
    pub width: u32,
    pub height: u32,
    pub pixels: Vec<Color>,
}

/// Offset of `(x, y)` in a row-major raster `w` pixels wide.
pub open spec fn pixel_index(w: int, x: int, y: int) -> int {
    y * w + x
}

/// Distinct coordinates inside a raster map to distinct offsets, and every
/// offset stays below `w * h`.
pub proof fn lemma_pixel_index(w: int, h: int, x: int, y: int, px: int, py: int)
    requires
        0 <= x < w,
        0 <= y < h,
        0 <= px < w,
        0 <= py < h,
    ensures
        0 <= pixel_index(w, x, y) < w * h,
        pixel_index(w, x, y) == pixel_index(w, px, py) <==> (x == px && y == py),
{
    assert(0 <= y * w + x < w * h) by (nonlinear_arith)
        requires
            0 <= x < w,
            0 <= y < h,
    ;
    if y < py {
        assert(y * w + x < py * w + px) by (nonlinear_arith)
            requires
                0 <= x < w,
                0 <= px,
                y < py,
        ;
    } else if py < y {
        assert(py * w + px < y * w + x) by (nonlinear_arith)
            requires
                0 <= px < w,
                0 <= x,
                py < y,
        ;
    }
}

/// `after` has the size of `before`, holds `c` at every in-bounds point of
/// `pts`, and agrees with `before` everywhere else.
pub open spec fn painted(before: PixelBuffer, after: PixelBuffer, pts: Set<(int, int)>, c: Color) -> bool {
    &&& after.wf()
    &&& after.width == before.width
    &&& after.height == before.height
    &&& forall|x: int, y: int|
        after.in_bounds(x, y) ==> #[trigger] after.pixel_at(x, y) == if pts.contains((x, y)) {
            c
        } else {
            before.pixel_at(x, y)
        }
}

/// Painting `s1` and then `s2` in one colour paints their union.
pub proof fn lemma_painted_compose(
    a: PixelBuffer,
    b: PixelBuffer,
    d: PixelBuffer,
    s1: Set<(int, int)>,
    s2: Set<(int, int)>,
    c: Color,
)
    requires
        painted(a, b, s1, c),
        painted(b, d, s2, c),
    ensures
        painted(a, d, s1.union(s2), c),
{
    assert forall|x: int, y: int| d.in_bounds(x, y) implies #[trigger] d.pixel_at(x, y) == if s1.union(s2).contains((x, y)) {
        c
    } else {
        a.pixel_at(x, y)
    } by {
        assert(b.in_bounds(x, y));
    }
}

/// Painting an empty set leaves a well-formed buffer as it was.
pub proof fn lemma_painted_nothing(a: PixelBuffer, c: Color)
    requires
        a.wf(),
    ensures
        painted(a, a, Set::empty(), c),
{
}

/// What a bounds-checked write of `c` at `(x, y)` does: it succeeds exactly
/// inside the buffer, and then changes that one pixel.
pub open spec fn pixel_written(before: PixelBuffer, after: PixelBuffer, x: int, y: int, c: Color, r: bool) -> bool {
    &&& r == before.in_bounds(x, y)
    &&& painted(before, after, set![(x, y)], c)
    &&& after.pixels@ == if r {
        before.pixels@.update(pixel_index(before.width as int, x, y), c)
    } else {
        before.pixels@
    }
}

/// A read after a write at the same coordinates returns the written colour
/// inside the buffer; outside it the write fails, leaves the buffer as it
/// was, and the read finds nothing.
pub proof fn lemma_write_then_read(before: PixelBuffer, after: PixelBuffer, x: int, y: int, c: Color, r: bool)
    requires
        before.wf(),
        pixel_written(before, after, x, y, c, r),
    ensures
        after.read(x, y) == if before.in_bounds(x, y) {
            Some(c)
        } else {
            None
        },
        !before.in_bounds(x, y) ==> !r && after.pixels@ == before.pixels@ && after.read(x, y) is None,
{
    if before.in_bounds(x, y) {
        assert(after.in_bounds(x, y));
        assert(after.pixel_at(x, y) == c);
    }
}

/// A line whose two ends coincide covers exactly that one point, so drawing
/// it changes at most that pixel.
pub proof fn lemma_point_line(before: PixelBuffer, after: PixelBuffer, x: int, y: int, c: Color)
    requires
        painted(before, after, line_set(x, y, x, y), c),
    ensures
        line_set(x, y, x, y) == set![(x, y)],
        painted(before, after, set![(x, y)], c),
        after.in_bounds(x, y) ==> after.pixel_at(x, y) == c,
{
    lemma_walk_unfold(0, 0, 0, 0);
    let pts = line_points(x, y, x, y);
    assert(pts.len() == 1 && pts[0] == (x, y));
    assert forall|p: (int, int)| #[trigger] line_set(x, y, x, y).contains(p) <==> p == (x, y) by {
        if p == (x, y) {
            assert(pts[0] == p);
        }
    }
    assert(line_set(x, y, x, y) =~= set![(x, y)]);
}

/// Two well-formed buffers of one size that agree at every coordinate hold
/// the same pixel array.
pub proof fn lemma_same_pixels(a: PixelBuffer, b: PixelBuffer)
    requires
        a.wf(),
        b.wf(),
        a.width == b.width,
        a.height == b.height,
        forall|x: int, y: int| a.in_bounds(x, y) ==> #[trigger] a.pixel_at(x, y) == b.pixel_at(x, y),
    ensures
        a.pixels@ == b.pixels@,
{
    let w = a.width as int;
    let h = a.height as int;
    assert forall|i: int| 0 <= i < a.pixels@.len() implies a.pixels@[i] == b.pixels@[i] by {
        let x = i % w;
        let y = i / w;
        assert(w > 0) by (nonlinear_arith)
            requires
                0 <= i < w * h,
                h >= 0,
                w >= 0,
        ;
        vstd::arithmetic::div_mod::lemma_fundamental_div_mod(i, w);
        assert(0 <= x < w);
        assert(y < h) by (nonlinear_arith)
            requires
                i == w * y + x,
                0 <= x < w,
                i < w * h,
                w > 0,
        ;
        assert(y >= 0) by (nonlinear_arith)
            requires
                i == w * y + x,
                0 <= x < w,
                i >= 0,
                w > 0,
        ;
        assert(pixel_index(w, x, y) == i) by (nonlinear_arith)
            requires
                i == w * y + x,
        ;
        assert(a.pixel_at(x, y) == b.pixel_at(x, y));
    }
    assert(a.pixels@ =~= b.pixels@);
}

/// The first `n` entries of `s`, as a set.
pub open spec fn prefix_set(s: Seq<(int, int)>, n: int) -> Set<(int, int)> {
    Set::new(|p: (int, int)| exists|k: int| 0 <= k < n && s[k] == p)
}

proof fn lemma_prefix_set_grow(s: Seq<(int, int)>, n: int)
    requires
        0 <= n < s.len(),
    ensures
        prefix_set(s, n).union(set![s[n]]) == prefix_set(s, n + 1),
{
    assert forall|p: (int, int)| #[trigger] prefix_set(s, n + 1).contains(p) implies prefix_set(s, n).union(
        set![s[n]],
    ).contains(p) by {
        let k = choose|k: int| 0 <= k < n + 1 && s[k] == p;
        if k < n {
            assert(prefix_set(s, n).contains(p));
        }
    }
    assert(prefix_set(s, n).union(set![s[n]]) =~= prefix_set(s, n + 1));
}

/// Points of the axis-aligned rectangle with top-left corner `(x, y)`.
pub open spec fn rect_points(x: int, y: int, w: int, h: int) -> Set<(int, int)> {
    Set::new(|p: (int, int)| x <= p.0 < x + w && y <= p.1 < y + h)
}

impl PixelBuffer {
    /// The pixel array has exactly one entry per coordinate.
    pub open spec fn wf(&self) -> bool {
        self.pixels@.len() == self.width * self.height
    }

    pub open spec fn in_bounds(&self, x: int, y: int) -> bool {
        0 <= x < self.width && 0 <= y < self.height
    }

    /// What a bounds-checked read at `(x, y)` finds.
    pub open spec fn read(&self, x: int, y: int) -> Option<Color> {
        if self.in_bounds(x, y) {
            Some(self.pixel_at(x, y))
        } else {
            None
        }
    }

    /// Colour stored at `(x, y)`; meaningful for in-bounds coordinates.
    pub open spec fn pixel_at(&self, x: int, y: int) -> Color {
        self.pixels@[pixel_index(self.width as int, x, y)]
    }

    /// A buffer of the canonical 320 x 240 size, every pixel opaque black.
    pub fn new() -> (r: Self)
        ensures
            r.wf(),
            r.width == BUFFER_WIDTH,
            r.height == BUFFER_HEIGHT,
            forall|x: int, y: int| r.in_bounds(x, y) ==> #[trigger] r.pixel_at(x, y) == [0u8, 0, 0, 255],
    {
        let n: usize = (BUFFER_WIDTH * BUFFER_HEIGHT) as usize;
        let mut pixels: Vec<Color> = Vec::new();
        while pixels.len() < n
            invariant
                pixels.len() <= n,
                forall|i: int| 0 <= i < pixels.len() ==> #[trigger] pixels@[i] == [0u8, 0, 0, 255],
            decreases n - pixels.len(),
        {
            pixels.push([0, 0, 0, 255]);
        }
        let r = PixelBuffer { width: BUFFER_WIDTH, height: BUFFER_HEIGHT, pixels };
        assert forall|x: int, y: int| r.in_bounds(x, y) implies #[trigger] r.pixel_at(x, y) == [0u8, 0, 0, 255] by {
            lemma_pixel_index(r.width as int, r.height as int, x, y, x, y);
        }
        r
    }

    /// Overwrites every pixel with `color`.
    pub fn clear(&mut self, color: Color)
        requires
            old(self).wf(),
        ensures
            final(self).wf(),
            final(self).width == old(self).width,
            final(self).height == old(self).height,
            final(self).pixels@ == Seq::new(old(self).pixels@.len(), |i: int| color),
    {
        let n = self.pixels.len();
        let mut i: usize = 0;
        while i < n
            invariant
                i <= n,
                n == self.pixels.len(),
                self.width == old(self).width,
                self.height == old(self).height,
                old(self).wf(),
                self.pixels@.len() == old(self).pixels@.len(),
                forall|k: int| 0 <= k < i ==> #[trigger] self.pixels@[k] == color,
            decreases n - i,
        {
            self.pixels.set(i, color);
            i = i + 1;
        }
        assert(self.pixels@ =~= Seq::new(old(self).pixels@.len(), |i: int| color));
    }

    /// Writes `color` at `(x, y)` when that point lies inside the buffer and
    /// reports whether it did; outside the buffer nothing changes.
    pub fn set_pixel(&mut self, x: u32, y: u32, color: Color) -> (r: bool)
        requires
            old(self).wf(),
        ensures
            pixel_written(*old(self), *final(self), x as int, y as int, color, r),
    {
        if x >= self.width || y >= self.height {
            return false;
        }
        proof {
            lemma_pixel_index(self.width as int, self.height as int, x as int, y as int, x as int, y as int);
            assert((y as int) * (self.width as int) + (x as int) < self.pixels.len());
        }
        let index = y as usize * self.width as usize + x as usize;
        let ghost before = *self;
        self.pixels.set(index, color);
        proof {
            let pts = set![(x as int, y as int)];
            assert forall|px: int, py: int| self.in_bounds(px, py) implies #[trigger] self.pixel_at(px, py) == if pts.contains((px, py)) {
                color
            } else {
                before.pixel_at(px, py)
            } by {
                lemma_pixel_index(self.width as int, self.height as int, x as int, y as int, px, py);
                lemma_pixel_index(self.width as int, self.height as int, px, py, px, py);
                assert(pts.contains((px, py)) == (px == x && py == y));
            }
        }
        true
    }

    /// The colour at `(x, y)`, or `None` outside the buffer.
    pub fn get_pixel(&self, x: u32, y: u32) -> (r: Option<Color>)
        requires
            self.wf(),
        ensures
            r == self.read(x as int, y as int),
    {
        if x >= self.width || y >= self.height {
            return None;
        }
        proof {
            lemma_pixel_index(self.width as int, self.height as int, x as int, y as int, x as int, y as int);
            assert((y as int) * (self.width as int) + (x as int) < self.pixels.len());
        }
        let index = y as usize * self.width as usize + x as usize;
        Some(self.pixels[index])
    }

    /// Fills the `width` x `height` rectangle whose top-left corner is
    /// `(x, y)`; the part outside the buffer is skipped.
    pub fn draw_rect(&mut self, x: u32, y: u32, width: u32, height: u32, color: Color)
        requires
            old(self).wf(),
        ensures
            painted(*old(self), *final(self), rect_points(x as int, y as int, width as int, height as int), color),
    {
        let ghost start = *self;
        let y_end: u64 = if (y as u64 + height as u64) < self.height as u64 {
            y as u64 + height as u64
        } else {
            self.height as u64
        };
        let x_end: u64 = if (x as u64 + width as u64) < self.width as u64 {
            x as u64 + width as u64
        } else {
            self.width as u64
        };
        let mut py: u64 = y as u64;
        proof {
            lemma_painted_nothing(start, color);
            assert(rect_points(x as int, y as int, width as int, 0) =~= Set::empty());
        }
        while py < y_end
            invariant
                y <= py,
                y_end <= self.height,
                x_end <= self.width,
                x_end <= x + width,
                y_end <= y + height,
                py <= y_end || py == y,
                start.wf(),
                painted(start, *self, rect_points(x as int, y as int, x_end - x, py - y), color),
            decreases y_end - py,
        {
            let mut px: u64 = x as u64;
            let ghost row_start = *self;
            proof {
                lemma_painted_nothing(row_start, color);
                assert(rect_points(x as int, py as int, 0, 1) =~= Set::empty());
            }
            while px < x_end
                invariant
                    x <= px,
                    py < y_end,
                    y_end <= self.height,
                    x_end <= self.width,
                    px <= x_end || px == x,
                    row_start.wf(),
                    painted(row_start, *self, rect_points(x as int, py as int, px - x, 1), color),
                decreases x_end - px,
            {
                let ghost before = *self;
                self.set_pixel(px as u32, py as u32, color);
                proof {
                    lemma_painted_compose(
                        row_start,
                        before,
                        *self,
                        rect_points(x as int, py as int, px - x, 1),
                        set![(px as int, py as int)],
                        color,
                    );
                    assert(rect_points(x as int, py as int, px - x, 1).union(set![(px as int, py as int)])
                        =~= rect_points(x as int, py as int, px + 1 - x, 1));
                }
                px = px + 1;
            }
            proof {
                let done = rect_points(x as int, y as int, x_end - x, py - y);
                let row = rect_points(x as int, py as int, x_end - x, 1);
                lemma_painted_compose(start, row_start, *self, done, row, color);
                assert(done.union(row) =~= rect_points(x as int, y as int, x_end - x, py + 1 - y));
            }
            py = py + 1;
        }
        proof {
            let done = rect_points(x as int, y as int, x_end - x, y_end - y);
            let full = rect_points(x as int, y as int, width as int, height as int);
            assert forall|px: int, qy: int| self.in_bounds(px, qy) implies
                (#[trigger] full.contains((px, qy)) == done.contains((px, qy))) by {}
            assert forall|px: int, qy: int| self.in_bounds(px, qy) implies #[trigger] self.pixel_at(px, qy) == if full.contains((px, qy)) {
                color
            } else {
                start.pixel_at(px, qy)
            } by {
                assert(full.contains((px, qy)) == done.contains((px, qy)));
            }
        }
    }

    /// Draws the 8-connected integer line from `(x0, y0)` to `(x1, y1)`, both
    /// ends included; pixels that fall outside the buffer are skipped.
    pub fn draw_line(&mut self, x0: u32, y0: u32, x1: u32, y1: u32, color: Color)
        requires
            old(self).wf(),
        ensures
            painted(*old(self), *final(self), line_set(x0 as int, y0 as int, x1 as int, y1 as int), color),
    {
        let dx: i64 = if x0 <= x1 { (x1 - x0) as i64 } else { (x0 - x1) as i64 };
        let dy: i64 = if y0 <= y1 { (y1 - y0) as i64 } else { (y0 - y1) as i64 };
        let sx: i64 = if x0 < x1 { 1 } else { -1 };
        let sy: i64 = if y0 < y1 { 1 } else { -1 };
        let mut err: i64 = dx - dy;
        let mut x: i64 = x0 as i64;
        let mut y: i64 = y0 as i64;
        let ghost start = *self;
        let ghost pts = line_points(x0 as int, y0 as int, x1 as int, y1 as int);
        let ghost offs = walk_from(dx as int, dy as int, 0, 0);
        let ghost mut i: int = 0;
        let ghost mut j: int = 0;
        let ghost mut n: int = 0;
        proof {
            lemma_painted_nothing(start, color);
            assert(prefix_set(pts, 0) =~= Set::empty());
            assert(offs.subrange(0, offs.len() as int) =~= offs);
            lemma_walk_unfold(dx as int, dy as int, 0, 0);
        }
        loop
            invariant_except_break
                dx == abs_diff(x0 as int, x1 as int),
                dy == abs_diff(y0 as int, y1 as int),
                sx == (if x0 < x1 { 1int } else { -1int }),
                sy == (if y0 < y1 { 1int } else { -1int }),
                pts == line_points(x0 as int, y0 as int, x1 as int, y1 as int),
                offs == walk_from(dx as int, dy as int, 0, 0),
                pts == offs.map_values(|o: (int, int)| (toward(x0 as int, x1 as int, o.0), toward(y0 as int, y1 as int, o.1))),
                0 <= i <= dx,
                0 <= j <= dy,
                x == toward(x0 as int, x1 as int, i),
                y == toward(y0 as int, y1 as int, j),
                err == walk_error(dx as int, dy as int, i, j),
                dx - 3 * dy <= 2 * err <= 3 * dx - dy,
                0 <= n < offs.len(),
                offs.subrange(n, offs.len() as int) == walk_from(dx as int, dy as int, i, j),
                start.wf(),
                painted(start, *self, prefix_set(pts, n), color),
            ensures
                painted(start, *self, line_set(x0 as int, y0 as int, x1 as int, y1 as int), color),
            decreases (dx - i) + (dy - j),
        {
            proof {
                lemma_walk_unfold(dx as int, dy as int, i, j);
                assert(offs[n] == offs.subrange(n, offs.len() as int)[0]);
                assert(pts[n] == (x as int, y as int));
            }
            let ghost before = *self;
            self.set_pixel(x as u32, y as u32, color);
            proof {
                lemma_painted_compose(start, before, *self, prefix_set(pts, n), set![pts[n]], color);
                lemma_prefix_set_grow(pts, n);
            }
            if x == x1 as i64 && y == y1 as i64 {
                proof {
                    assert(offs.subrange(n, offs.len() as int).len() == 1);
                    assert(prefix_set(pts, n + 1) =~= line_set(x0 as int, y0 as int, x1 as int, y1 as int));
                }
                break;
            }
            proof {
                lemma_walk_advances(dx as int, dy as int, i, j);
                lemma_walk_error_steps(dx as int, dy as int, i, j);
                let nx = walk_next(dx as int, dy as int, i, j);
                assert(offs.subrange(n + 1, offs.len() as int) =~= offs.subrange(n, offs.len() as int).subrange(
                    1,
                    offs.len() - n,
                ));
                assert(offs.subrange(n + 1, offs.len() as int) == walk_from(dx as int, dy as int, nx.0, nx.1));
            }
            let e2 = 2 * err;
            if e2 > -dy {
                err = err - dy;
                x = x + sx;
                proof {
                    i = i + 1;
                }
            }
            if e2 < dx {
                err = err + dx;
                y = y + sy;
                proof {
                    j = j + 1;
                }
            }
            proof {
                n = n + 1;
            }
        }
    }
}

} // verus!
