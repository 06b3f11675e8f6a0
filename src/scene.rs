use vstd::prelude::*;
use crate::line::{lemma_horizontal_line, lemma_vertical_line, line_set};
use crate::pixel_buffer::{
    lemma_painted_compose, lemma_painted_nothing, lemma_pixel_index, lemma_same_pixels, painted,
    rect_points, Color, PixelBuffer,
};

verus! {

/// Colour of the frame background.
pub const BACKGROUND_COLOR: Color = [20, 20, 30, 255];

/// Colour of the reference cubes.
pub const CUBE_COLOR: Color = [255, 255, 255, 255];

/// Colour of the drone marker.
pub const DRONE_COLOR: Color = [255, 0, 0, 255];

/// Half the length of each arm of the drone marker's cross.
pub const MARKER_ARM: u32 = 8;

/// Whether the whole marker centred at `(x, y)` fits inside a `w` x `h` buffer.
pub open spec fn marker_fits(w: int, h: int, x: int, y: int) -> bool {
    x >= MARKER_ARM && y >= MARKER_ARM && x + MARKER_ARM < w && y + MARKER_ARM < h
}

/// Points of the drone marker centred at `(x, y)`: a cross with arms of
/// `MARKER_ARM` pixels and a 4 x 4 square at its centre.
pub open spec fn marker_points(x: int, y: int) -> Set<(int, int)> {
    Set::new(
        |p: (int, int)|
            (p.1 == y && x - MARKER_ARM <= p.0 <= x + MARKER_ARM) || (p.0 == x && y - MARKER_ARM <= p.1
                <= y + MARKER_ARM) || (x - 2 <= p.0 < x + 2 && y - 2 <= p.1 < y + 2),
    )
}

/// Draws the drone marker centred at `(x, y)` when all of it fits inside the
/// buffer; otherwise leaves the buffer unchanged.
pub fn draw_drone_marker(buffer: &mut PixelBuffer, x: u32, y: u32)
    requires
        old(buffer).wf(),
    ensures
        painted(
            *old(buffer),
            *final(buffer),
            if marker_fits(old(buffer).width as int, old(buffer).height as int, x as int, y as int) {
                marker_points(x as int, y as int)
            } else {
                Set::empty()
            },
            DRONE_COLOR,
        ),
{
    let ghost start = *buffer;
    if x >= MARKER_ARM && y >= MARKER_ARM && x as u64 + (MARKER_ARM as u64) < buffer.width as u64
        && y as u64 + (MARKER_ARM as u64) < buffer.height as u64 {
        let ghost (xi, yi) = (x as int, y as int);
        let ghost s1 = line_set(xi - 8, yi, xi + 8, yi);
        let ghost s2 = line_set(xi, yi - 8, xi, yi + 8);
        let ghost s3 = rect_points(xi - 2, yi - 2, 4, 4);
        buffer.draw_line(x - MARKER_ARM, y, x + MARKER_ARM, y, DRONE_COLOR);
        let ghost b1 = *buffer;
        buffer.draw_line(x, y - MARKER_ARM, x, y + MARKER_ARM, DRONE_COLOR);
        let ghost b2 = *buffer;
        buffer.draw_rect(x - 2, y - 2, 4, 4, DRONE_COLOR);
        proof {
            lemma_painted_compose(start, b1, b2, s1, s2, DRONE_COLOR);
            lemma_painted_compose(start, b2, *buffer, s1.union(s2), s3, DRONE_COLOR);
            lemma_horizontal_line(xi - 8, xi + 8, yi);
            lemma_vertical_line(xi, yi - 8, yi + 8);
            assert(s1.union(s2).union(s3) =~= marker_points(xi, yi));
        }
    } else {
        proof {
            lemma_painted_nothing(start, DRONE_COLOR);
        }
    }
}

/// Number of edges of a cube.
pub const CUBE_EDGE_COUNT: usize = 12;

/// The corners joined by edge `k` of a cube whose corners are numbered
/// 0-3 around the near face and 4-7 around the far face, corner `i + 4`
/// behind corner `i`.
pub open spec fn cube_edge(k: int) -> (int, int) {
    if k < 4 {
        (k, (k + 1) % 4)
    } else if k < 8 {
        (k, 4 + (k - 3) % 4)
    } else {
        (k - 8, k - 4)
    }
}

fn edge_corners(k: usize) -> (r: (usize, usize))
    requires
        k < CUBE_EDGE_COUNT,
    ensures
        r.0 == cube_edge(k as int).0,
        r.1 == cube_edge(k as int).1,
        r.0 < 8,
        r.1 < 8,
{
    if k < 4 {
        (k, (k + 1) % 4)
    } else if k < 8 {
        (k, 4 + (k - 3) % 4)
    } else {
        (k - 8, k - 4)
    }
}

/// Points of edge `k` when both of its corners have a screen position, and
/// no points otherwise.
pub open spec fn edge_points(corners: Seq<Option<(u32, u32)>>, k: int) -> Set<(int, int)> {
    let (a, b) = cube_edge(k);
    match (corners[a], corners[b]) {
        (Some(s), Some(e)) => line_set(s.0 as int, s.1 as int, e.0 as int, e.1 as int),
        _ => Set::empty(),
    }
}

/// Points of the edges `0..n` of a cube's wireframe.
pub open spec fn edges_points(corners: Seq<Option<(u32, u32)>>, n: int) -> Set<(int, int)> {
    Set::new(|p: (int, int)| exists|k: int| 0 <= k < n && #[trigger] edge_points(corners, k).contains(p))
}

/// Points of a cube's whole wireframe.
pub open spec fn wireframe_points(corners: Seq<Option<(u32, u32)>>) -> Set<(int, int)> {
    edges_points(corners, CUBE_EDGE_COUNT as int)
}

/// Draws the twelve edges of a cube from the screen positions of its eight
/// corners; an edge with a corner that has no position is left out.
pub fn draw_wireframe_cube(buffer: &mut PixelBuffer, corners: &[Option<(u32, u32)>; 8], color: Color)
    requires
        old(buffer).wf(),
    ensures
        painted(*old(buffer), *final(buffer), wireframe_points(corners@), color),
{
    let ghost start = *buffer;
    proof {
        lemma_painted_nothing(start, color);
        assert(edges_points(corners@, 0) =~= Set::empty());
    }
    let mut k: usize = 0;
    while k < CUBE_EDGE_COUNT
        invariant
            k <= CUBE_EDGE_COUNT,
            start.wf(),
            painted(start, *buffer, edges_points(corners@, k as int), color),
        decreases CUBE_EDGE_COUNT - k,
    {
        let (a, b) = edge_corners(k);
        let ghost before = *buffer;
        match (corners[a], corners[b]) {
            (Some(s), Some(e)) => {
                buffer.draw_line(s.0, s.1, e.0, e.1, color);
            },
            _ => {
                proof {
                    lemma_painted_nothing(before, color);
                }
            },
        }
        proof {
            lemma_painted_compose(start, before, *buffer, edges_points(corners@, k as int), edge_points(corners@, k as int), color);
            assert forall|p: (int, int)| #[trigger] edges_points(corners@, k + 1).contains(p) implies edges_points(corners@, k as int).union(
                edge_points(corners@, k as int),
            ).contains(p) by {
                let m = choose|m: int| 0 <= m < k + 1 && #[trigger] edge_points(corners@, m).contains(p);
                if m < k {
                    assert(edges_points(corners@, k as int).contains(p));
                }
            }
            assert(edges_points(corners@, k as int).union(edge_points(corners@, k as int)) =~= edges_points(corners@, k + 1));
        }
        k = k + 1;
    }
}

/// Distance in metres between neighbouring reference cubes.
pub const CUBE_SPACING: i64 = 15;

/// Half the edge length in metres of a reference cube.
pub const CUBE_HALF_SIZE: i64 = 1;

/// Number of cells on each side of the centre cell that get a reference cube.
pub const GRID_RADIUS: i64 = 1;

/// Number of reference cubes drawn around the centre cell.
pub const GRID_CELL_COUNT: usize = 27;

/// Cell `k` of the block of cells around `c`, counted with the first
/// coordinate outermost and the last innermost.
pub open spec fn grid_cell(c: (int, int, int), k: int) -> (int, int, int) {
    (c.0 - GRID_RADIUS + k / 9, c.1 - GRID_RADIUS + (k / 3) % 3, c.2 - GRID_RADIUS + k % 3)
}

/// The world-space centres of the reference cubes in the 3 x 3 x 3 block of
/// grid cells around cell `(cx, cy, cz)`; cell `g` is centred at
/// `g * CUBE_SPACING`.
pub fn reference_cube_centers(cx: i32, cy: i32, cz: i32) -> (r: Vec<(i64, i64, i64)>)
    ensures
        r@.len() == GRID_CELL_COUNT,
        forall|k: int|
            0 <= k < GRID_CELL_COUNT ==> {
                let g = grid_cell((cx as int, cy as int, cz as int), k);
                &&& (#[trigger] r@[k]).0 == g.0 * CUBE_SPACING
                &&& r@[k].1 == g.1 * CUBE_SPACING
                &&& r@[k].2 == g.2 * CUBE_SPACING
            },
{
    let mut r: Vec<(i64, i64, i64)> = Vec::new();
    let mut k: usize = 0;
    while k < GRID_CELL_COUNT
        invariant
            k <= GRID_CELL_COUNT,
            r@.len() == k,
            forall|m: int|
                0 <= m < k ==> {
                    let g = grid_cell((cx as int, cy as int, cz as int), m);
                    &&& (#[trigger] r@[m]).0 == g.0 * CUBE_SPACING
                    &&& r@[m].1 == g.1 * CUBE_SPACING
                    &&& r@[m].2 == g.2 * CUBE_SPACING
                },
        decreases GRID_CELL_COUNT - k,
    {
        let gx = cx as i64 - GRID_RADIUS + (k / 9) as i64;
        let gy = cy as i64 - GRID_RADIUS + ((k / 3) % 3) as i64;
        let gz = cz as i64 - GRID_RADIUS + (k % 3) as i64;
        r.push((gx * CUBE_SPACING, gy * CUBE_SPACING, gz * CUBE_SPACING));
        k = k + 1;
    }
    r
}

/// Offset of corner `i` from the centre of a cube with half-size `h`:
/// corners 0-3 go round the face at `-h` along the third axis, 4-7 round the
/// face at `+h`, in the same order.
pub open spec fn corner_offset(i: int, h: int) -> (int, int, int) {
    let m = i % 4;
    (
        if m == 1 || m == 2 { h } else { -h },
        if m == 2 || m == 3 { h } else { -h },
        if i < 4 { -h } else { h },
    )
}

/// The eight corners of the reference cube centred at `c`.
pub fn cube_corners(c: (i64, i64, i64)) -> (r: [(i64, i64, i64); 8])
    requires
        i64::MIN + CUBE_HALF_SIZE <= c.0 <= i64::MAX - CUBE_HALF_SIZE,
        i64::MIN + CUBE_HALF_SIZE <= c.1 <= i64::MAX - CUBE_HALF_SIZE,
        i64::MIN + CUBE_HALF_SIZE <= c.2 <= i64::MAX - CUBE_HALF_SIZE,
    ensures
        forall|i: int|
            0 <= i < 8 ==> {
                let o = corner_offset(i, CUBE_HALF_SIZE as int);
                &&& (#[trigger] r@[i]).0 == c.0 + o.0
                &&& r@[i].1 == c.1 + o.1
                &&& r@[i].2 == c.2 + o.2
            },
{
    let h = CUBE_HALF_SIZE;
    let (x, y, z) = c;
    let r = [
        (x - h, y - h, z - h),
        (x + h, y - h, z - h),
        (x + h, y + h, z - h),
        (x - h, y + h, z - h),
        (x - h, y - h, z + h),
        (x + h, y - h, z + h),
        (x + h, y + h, z + h),
        (x - h, y + h, z + h),
    ];
    assert(r@[0] == r[0] && r@[1] == r[1] && r@[2] == r[2] && r@[3] == r[3]);
    assert(r@[4] == r[4] && r@[5] == r[5] && r@[6] == r[6] && r@[7] == r[7]);
    r
}

/// Points covered by the wireframes of the first `n` projected cubes.
pub open spec fn cubes_points(cubes: Seq<[Option<(u32, u32)>; 8]>, n: int) -> Set<(int, int)> {
    Set::new(|p: (int, int)| exists|k: int| 0 <= k < n && #[trigger] wireframe_points(cubes[k]@).contains(p))
}

/// Points covered by the drone marker at `marker` in a `w` x `h` frame.
pub open spec fn marker_set(w: int, h: int, marker: Option<(u32, u32)>) -> Set<(int, int)> {
    match marker {
        Some(m) => if marker_fits(w, h, m.0 as int, m.1 as int) {
            marker_points(m.0 as int, m.1 as int)
        } else {
            Set::empty()
        },
        None => Set::empty(),
    }
}

/// Colour at `(x, y)` of a `w` x `h` frame that shows the projected cubes
/// `cubes` and the drone marker at `marker`: the marker is drawn over the
/// cubes, and the cubes over the background.
pub open spec fn frame_pixel(
    w: int,
    h: int,
    cubes: Seq<[Option<(u32, u32)>; 8]>,
    marker: Option<(u32, u32)>,
    x: int,
    y: int,
) -> Color {
    if marker_set(w, h, marker).contains((x, y)) {
        DRONE_COLOR
    } else if cubes_points(cubes, cubes.len() as int).contains((x, y)) {
        CUBE_COLOR
    } else {
        BACKGROUND_COLOR
    }
}

/// `buffer` holds exactly the frame of `cubes` and `marker`.
pub open spec fn shows_frame(
    buffer: PixelBuffer,
    cubes: Seq<[Option<(u32, u32)>; 8]>,
    marker: Option<(u32, u32)>,
) -> bool {
    &&& buffer.wf()
    &&& forall|x: int, y: int|
        buffer.in_bounds(x, y) ==> #[trigger] buffer.pixel_at(x, y) == frame_pixel(
            buffer.width as int,
            buffer.height as int,
            cubes,
            marker,
            x,
            y,
        )
}

/// Rasterizes one frame: clears the buffer to the background, draws the
/// wireframe of each projected cube, then the drone marker at its projected
/// position, if it has one.
pub fn rasterize_frame(buffer: &mut PixelBuffer, cubes: &Vec<[Option<(u32, u32)>; 8]>, marker: Option<(u32, u32)>)
    requires
        old(buffer).wf(),
    ensures
        final(buffer).width == old(buffer).width,
        final(buffer).height == old(buffer).height,
        shows_frame(*final(buffer), cubes@, marker),
{
    buffer.clear(BACKGROUND_COLOR);
    let ghost cleared = *buffer;
    proof {
        assert forall|x: int, y: int| cleared.in_bounds(x, y) implies #[trigger] cleared.pixel_at(x, y)
            == BACKGROUND_COLOR by {
            lemma_pixel_index(cleared.width as int, cleared.height as int, x, y, x, y);
        }
        lemma_painted_nothing(cleared, CUBE_COLOR);
        assert(cubes_points(cubes@, 0) =~= Set::empty());
    }
    let mut k: usize = 0;
    while k < cubes.len()
        invariant
            k <= cubes@.len(),
            cleared.wf(),
            painted(cleared, *buffer, cubes_points(cubes@, k as int), CUBE_COLOR),
        decreases cubes@.len() - k,
    {
        let ghost before = *buffer;
        draw_wireframe_cube(buffer, &cubes[k], CUBE_COLOR);
        proof {
            let done = cubes_points(cubes@, k as int);
            let cube = wireframe_points(cubes@[k as int]@);
            lemma_painted_compose(cleared, before, *buffer, done, cube, CUBE_COLOR);
            assert forall|p: (int, int)| #[trigger] cubes_points(cubes@, k + 1).contains(p) implies done.union(
                cube,
            ).contains(p) by {
                let m = choose|m: int| 0 <= m < k + 1 && #[trigger] wireframe_points(cubes@[m]@).contains(p);
                if m < k {
                    assert(done.contains(p));
                }
            }
            assert(done.union(cube) =~= cubes_points(cubes@, k + 1));
        }
        k = k + 1;
    }
    let ghost drawn = *buffer;
    match marker {
        Some(m) => draw_drone_marker(buffer, m.0, m.1),
        None => {
            proof {
                lemma_painted_nothing(drawn, DRONE_COLOR);
            }
        },
    }
    proof {
        let w = buffer.width as int;
        let h = buffer.height as int;
        assert(painted(drawn, *buffer, marker_set(w, h, marker), DRONE_COLOR));
        assert forall|x: int, y: int| buffer.in_bounds(x, y) implies #[trigger] buffer.pixel_at(x, y)
            == frame_pixel(w, h, cubes@, marker, x, y) by {
            assert(drawn.in_bounds(x, y));
            assert(cleared.in_bounds(x, y));
        }
    }
}

/// A frame depends on the buffer's size and the projected scene alone: two
/// buffers of one size that show the same scene hold the same pixels,
/// whatever they held before it was drawn.
pub proof fn lemma_frame_repeatable(
    a: PixelBuffer,
    b: PixelBuffer,
    cubes: Seq<[Option<(u32, u32)>; 8]>,
    marker: Option<(u32, u32)>,
)
    requires
        a.width == b.width,
        a.height == b.height,
        shows_frame(a, cubes, marker),
        shows_frame(b, cubes, marker),
    ensures
        a.pixels@ == b.pixels@,
{
    assert forall|x: int, y: int| a.in_bounds(x, y) implies #[trigger] a.pixel_at(x, y) == b.pixel_at(x, y) by {
        assert(b.in_bounds(x, y));
    }
    lemma_same_pixels(a, b);
}

} // verus!
