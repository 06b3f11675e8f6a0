use vstd::prelude::*;

verus! {

// A line from (x0, y0) to (x1, y1) is walked in lattice offsets (i, j) from
// its start, 0 <= i <= dx and 0 <= j <= dy, where dx and dy are the absolute
// extents. At each offset the error term measures how far the diagonal
// neighbour (i + 1, j + 1) lies from the ideal line; it decides whether the
// next pixel advances along x, along y, or both.

/// Error term of the integer walk at offset `(i, j)`.
pub open spec fn walk_error(dx: int, dy: int, i: int, j: int) -> int {
    dx - dy + j * dx - i * dy
}

/// Offset that follows `(i, j)` on the walk.
pub open spec fn walk_next(dx: int, dy: int, i: int, j: int) -> (int, int) {
    let e2 = 2 * walk_error(dx, dy, i, j);
    (if e2 > -dy { i + 1 } else { i }, if e2 < dx { j + 1 } else { j })
}

/// The offsets visited from `(i, j)` up to and including `(dx, dy)`.
pub open spec fn walk_from(dx: int, dy: int, i: int, j: int) -> Seq<(int, int)>
    decreases (dx - i) + (dy - j),
{
    if i == dx && j == dy {
        seq![(i, j)]
    } else {
        let n = walk_next(dx, dy, i, j);
        if 0 <= i <= n.0 <= dx && 0 <= j <= n.1 <= dy && n.0 + n.1 > i + j {
            seq![(i, j)] + walk_from(dx, dy, n.0, n.1)
        } else {
            seq![(i, j)]
        }
    }
}

/// The coordinate `k` steps from `a` in the direction of `b`.
pub open spec fn toward(a: int, b: int, k: int) -> int {
    if a <= b {
        a + k
    } else {
        a - k
    }
}

pub open spec fn abs_diff(a: int, b: int) -> int {
    if a <= b {
        b - a
    } else {
        a - b
    }
}

/// Pixels of the 8-connected line from `(x0, y0)` to `(x1, y1)`, both ends
/// included, in the order they are drawn.
pub open spec fn line_points(x0: int, y0: int, x1: int, y1: int) -> Seq<(int, int)> {
    walk_from(abs_diff(x0, x1), abs_diff(y0, y1), 0, 0).map_values(
        |o: (int, int)| (toward(x0, x1, o.0), toward(y0, y1, o.1)),
    )
}

/// The same pixels as a set.
pub open spec fn line_set(x0: int, y0: int, x1: int, y1: int) -> Set<(int, int)> {
    Set::new(|p: (int, int)| line_points(x0, y0, x1, y1).contains(p))
}

pub proof fn lemma_walk_error_steps(dx: int, dy: int, i: int, j: int)
    ensures
        walk_error(dx, dy, i + 1, j) == walk_error(dx, dy, i, j) - dy,
        walk_error(dx, dy, i, j + 1) == walk_error(dx, dy, i, j) + dx,
        walk_error(dx, dy, i + 1, j + 1) == walk_error(dx, dy, i, j) + dx - dy,
{
    assert((i + 1) * dy == i * dy + dy) by (nonlinear_arith);
    assert((j + 1) * dx == j * dx + dx) by (nonlinear_arith);
}

/// Away from the end, the walk moves by one or two unit steps and never
/// passes `dx` or `dy`.
pub proof fn lemma_walk_advances(dx: int, dy: int, i: int, j: int)
    requires
        0 <= i <= dx,
        0 <= j <= dy,
        !(i == dx && j == dy),
    ensures
        ({
            let n = walk_next(dx, dy, i, j);
            &&& 0 <= i <= n.0 <= dx
            &&& 0 <= j <= n.1 <= dy
            &&& n.0 + n.1 > i + j
        }),
{
    let e = walk_error(dx, dy, i, j);
    if i == dx {
        assert(dx * (dy - j) >= dx) by (nonlinear_arith)
            requires
                dy - j >= 1,
                dx >= 0,
        ;
        assert(j * dx - dx * dy == -(dx * (dy - j))) by (nonlinear_arith);
        assert(2 * e <= -dy);
    }
    if j == dy {
        assert(dy * (dx - i) >= dy) by (nonlinear_arith)
            requires
                dx - i >= 1,
                dy >= 0,
        ;
        assert(dy * dx - i * dy == dy * (dx - i)) by (nonlinear_arith);
        assert(2 * e >= dx);
    }
}

/// One step of the walk, unfolded.
pub proof fn lemma_walk_unfold(dx: int, dy: int, i: int, j: int)
    requires
        0 <= i <= dx,
        0 <= j <= dy,
    ensures
        walk_from(dx, dy, i, j).len() >= 1,
        walk_from(dx, dy, i, j)[0] == (i, j),
        i == dx && j == dy ==> walk_from(dx, dy, i, j) == seq![(i, j)],
        !(i == dx && j == dy) ==> walk_from(dx, dy, i, j) == seq![(i, j)] + walk_from(
            dx,
            dy,
            walk_next(dx, dy, i, j).0,
            walk_next(dx, dy, i, j).1,
        ),
{
    if !(i == dx && j == dy) {
        lemma_walk_advances(dx, dy, i, j);
    }
}

/// A walk with no vertical extent advances one column at a time.
proof fn lemma_flat_walk(dx: int, i: int)
    requires
        0 <= i <= dx,
    ensures
        walk_from(dx, 0, i, 0) == Seq::new((dx - i + 1) as nat, |t: int| (i + t, 0int)),
    decreases dx - i,
{
    lemma_walk_unfold(dx, 0, i, 0);
    if i < dx {
        assert(walk_error(dx, 0, i, 0) == dx);
        lemma_flat_walk(dx, i + 1);
    }
    assert(walk_from(dx, 0, i, 0) =~= Seq::new((dx - i + 1) as nat, |t: int| (i + t, 0int)));
}

/// A walk with no horizontal extent advances one row at a time.
proof fn lemma_steep_walk(dy: int, j: int)
    requires
        0 <= j <= dy,
    ensures
        walk_from(0, dy, 0, j) == Seq::new((dy - j + 1) as nat, |t: int| (0int, j + t)),
    decreases dy - j,
{
    lemma_walk_unfold(0, dy, 0, j);
    if j < dy {
        assert(walk_error(0, dy, 0, j) == -dy);
        lemma_steep_walk(dy, j + 1);
    }
    assert(walk_from(0, dy, 0, j) =~= Seq::new((dy - j + 1) as nat, |t: int| (0int, j + t)));
}

/// A horizontal line covers exactly the points of its row between its ends.
pub proof fn lemma_horizontal_line(a: int, b: int, y: int)
    requires
        a <= b,
    ensures
        line_set(a, y, b, y) == Set::new(|p: (int, int)| a <= p.0 <= b && p.1 == y),
{
    lemma_flat_walk(b - a, 0);
    let pts = line_points(a, y, b, y);
    let target = Set::new(|p: (int, int)| a <= p.0 <= b && p.1 == y);
    assert forall|p: (int, int)| #[trigger] line_set(a, y, b, y).contains(p) <==> target.contains(p) by {
        if target.contains(p) {
            assert(pts[p.0 - a] == p);
        }
    }
    assert(line_set(a, y, b, y) =~= target);
}

/// A vertical line covers exactly the points of its column between its ends.
pub proof fn lemma_vertical_line(x: int, a: int, b: int)
    requires
        a <= b,
    ensures
        line_set(x, a, x, b) == Set::new(|p: (int, int)| p.0 == x && a <= p.1 <= b),
{
    lemma_steep_walk(b - a, 0);
    let pts = line_points(x, a, x, b);
    let target = Set::new(|p: (int, int)| p.0 == x && a <= p.1 <= b);
    assert forall|p: (int, int)| #[trigger] line_set(x, a, x, b).contains(p) <==> target.contains(p) by {
        if target.contains(p) {
            assert(pts[p.1 - a] == p);
        }
    }
    assert(line_set(x, a, x, b) =~= target);
}

/// A walk ends at `(dx, dy)`, and each offset after the first moves by at
/// most one in each coordinate, never backwards, and by at least one overall.
proof fn lemma_walk_shape(dx: int, dy: int, i: int, j: int)
    requires
        0 <= i <= dx,
        0 <= j <= dy,
    ensures
        walk_from(dx, dy, i, j).last() == (dx, dy),
        forall|k: int|
            0 <= k < walk_from(dx, dy, i, j).len() - 1 ==> {
                let a = #[trigger] walk_from(dx, dy, i, j)[k];
                let b = walk_from(dx, dy, i, j)[k + 1];
                &&& a.0 <= b.0 <= a.0 + 1
                &&& a.1 <= b.1 <= a.1 + 1
                &&& a != b
            },
    decreases (dx - i) + (dy - j),
{
    lemma_walk_unfold(dx, dy, i, j);
    if !(i == dx && j == dy) {
        lemma_walk_advances(dx, dy, i, j);
        let n = walk_next(dx, dy, i, j);
        lemma_walk_shape(dx, dy, n.0, n.1);
        let w = walk_from(dx, dy, i, j);
        let rest = walk_from(dx, dy, n.0, n.1);
        lemma_walk_unfold(dx, dy, n.0, n.1);
        assert forall|k: int| 0 <= k < w.len() - 1 implies {
            let a = #[trigger] w[k];
            let b = w[k + 1];
            &&& a.0 <= b.0 <= a.0 + 1
            &&& a.1 <= b.1 <= a.1 + 1
            &&& a != b
        } by {
            if k > 0 {
                assert(w[k] == rest[k - 1]);
                assert(w[k + 1] == rest[k]);
            } else {
                assert(w[1] == rest[0]);
            }
        }
    }
}

/// A line starts at `(x0, y0)`, ends at `(x1, y1)`, and each pixel after the
/// first is one of the eight neighbours of the one before, one step nearer
/// the end along each axis where it moves.
pub proof fn lemma_line_shape(x0: int, y0: int, x1: int, y1: int)
    ensures
        line_points(x0, y0, x1, y1).len() >= 1,
        line_points(x0, y0, x1, y1)[0] == (x0, y0),
        line_points(x0, y0, x1, y1).last() == (x1, y1),
        line_set(x0, y0, x1, y1).contains((x0, y0)),
        line_set(x0, y0, x1, y1).contains((x1, y1)),
        forall|k: int|
            0 <= k < line_points(x0, y0, x1, y1).len() - 1 ==> {
                let a = #[trigger] line_points(x0, y0, x1, y1)[k];
                let b = line_points(x0, y0, x1, y1)[k + 1];
                &&& abs_diff(a.0, b.0) <= 1
                &&& abs_diff(a.1, b.1) <= 1
                &&& a != b
                &&& abs_diff(b.0, x1) <= abs_diff(a.0, x1)
                &&& abs_diff(b.1, y1) <= abs_diff(a.1, y1)
            },
{
    let dx = abs_diff(x0, x1);
    let dy = abs_diff(y0, y1);
    lemma_walk_unfold(dx, dy, 0, 0);
    lemma_walk_shape(dx, dy, 0, 0);
    let w = walk_from(dx, dy, 0, 0);
    let pts = line_points(x0, y0, x1, y1);
    assert(pts[0] == (x0, y0));
    assert(pts[pts.len() - 1] == (x1, y1));
    assert forall|k: int| 0 <= k < pts.len() - 1 implies {
        let a = #[trigger] pts[k];
        let b = pts[k + 1];
        &&& abs_diff(a.0, b.0) <= 1
        &&& abs_diff(a.1, b.1) <= 1
        &&& a != b
        &&& abs_diff(b.0, x1) <= abs_diff(a.0, x1)
        &&& abs_diff(b.1, y1) <= abs_diff(a.1, y1)
    } by {
        let u = w[k];
        let v = w[k + 1];
        assert(0 <= u.0 <= dx && 0 <= v.0 <= dx && 0 <= u.1 <= dy && 0 <= v.1 <= dy) by {
            lemma_walk_bounds(dx, dy, 0, 0);
        }
    }
}

/// Every offset of a walk stays within `[i, dx] x [j, dy]`.
proof fn lemma_walk_bounds(dx: int, dy: int, i: int, j: int)
    requires
        0 <= i <= dx,
        0 <= j <= dy,
    ensures
        forall|k: int|
            0 <= k < walk_from(dx, dy, i, j).len() ==> {
                let a = #[trigger] walk_from(dx, dy, i, j)[k];
                &&& i <= a.0 <= dx
                &&& j <= a.1 <= dy
            },
    decreases (dx - i) + (dy - j),
{
    lemma_walk_unfold(dx, dy, i, j);
    if !(i == dx && j == dy) {
        lemma_walk_advances(dx, dy, i, j);
        let n = walk_next(dx, dy, i, j);
        lemma_walk_bounds(dx, dy, n.0, n.1);
        let w = walk_from(dx, dy, i, j);
        assert forall|k: int| 0 <= k < w.len() implies {
            let a = #[trigger] w[k];
            &&& i <= a.0 <= dx
            &&& j <= a.1 <= dy
        } by {
            if k > 0 {
                assert(w[k] == walk_from(dx, dy, n.0, n.1)[k - 1]);
            }
        }
    }
}

} // verus!
