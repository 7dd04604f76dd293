//! Lines: thin lines by Bresenham's stepping, and the square stamps that
//! thick depth-tested lines are drawn with.
use vstd::prelude::*;

use crate::depth::{Depth, less_than};
use crate::framebuffer::{Canvas, FrameBuffer, lemma_index_in_grid};
use crate::pixel::Pixel;

verus! {

pub open spec fn abs(a: int) -> int {
    if a < 0 {
        -a
    } else {
        a
    }
}

pub open spec fn step_dir(from: int, to: int) -> int {
    if from < to {
        1
    } else {
        -1
    }
}

/// One step of Bresenham's walk from `(x, y)` with error term `err`, for
/// distances `dx`, `dy` and directions `sx`, `sy`: the next point and the
/// next error term. It moves along `x` where `2 * err > -dy` and along `y`
/// where `2 * err < dx`.
pub open spec fn step(x: int, y: int, err: int, dx: int, dy: int, sx: int, sy: int) -> (
    int,
    int,
    int,
) {
    let mx = 2 * err > -dy;
    let my = 2 * err < dx;
    (
        if mx {
            x + sx
        } else {
            x
        },
        if my {
            y + sy
        } else {
            y
        },
        err - (if mx {
            dy
        } else {
            0
        }) + (if my {
            dx
        } else {
            0
        }),
    )
}

/// The points Bresenham's walk visits from `(x, y)` towards `(x1, y1)`,
/// ending at `(x1, y1)` or after `fuel` steps.
pub open spec fn walk(
    x: int,
    y: int,
    err: int,
    x1: int,
    y1: int,
    dx: int,
    dy: int,
    sx: int,
    sy: int,
    fuel: nat,
) -> Seq<(int, int)>
    decreases fuel,
{
    if (x == x1 && y == y1) || fuel == 0 {
        seq![(x, y)]
    } else {
        let n = step(x, y, err, dx, dy, sx, sy);
        seq![(x, y)] + walk(n.0, n.1, n.2, x1, y1, dx, dy, sx, sy, (fuel - 1) as nat)
    }
}

/// The points of Bresenham's walk from `(x0, y0)` to `(x1, y1)`, in the order
/// they are visited.
pub open spec fn line_points(x0: int, y0: int, x1: int, y1: int) -> Seq<(int, int)> {
    let dx = abs(x1 - x0);
    let dy = abs(y1 - y0);
    walk(x0, y0, dx - dy, x1, y1, dx, dy, step_dir(x0, x1), step_dir(y0, y1), (dx + dy) as nat)
}

/// `a` comes no later than `b`, by `x` and then by `y`.
pub open spec fn precedes(a: Pixel, b: Pixel) -> bool {
    a.x < b.x || (a.x == b.x && a.y <= b.y)
}

/// The points of the thin line between `a` and `b`: the walk from the end
/// that comes first, by `x` and then by `y`, to the other. Which end is
/// named first does not matter.
pub open spec fn segment(a: Pixel, b: Pixel) -> Seq<(int, int)> {
    if precedes(a, b) {
        line_points(a.x as int, a.y as int, b.x as int, b.y as int)
    } else {
        line_points(b.x as int, b.y as int, a.x as int, a.y as int)
    }
}

/// The canvas after writing the current color at each of `pts`.
pub open spec fn plot_all(c: Canvas, pts: Seq<(int, int)>) -> Canvas
    decreases pts.len(),
{
    if pts.len() == 0 {
        c
    } else {
        plot_all(c, pts.drop_last()).plot(pts.last().0, pts.last().1)
    }
}

/// How many steps along one axis lie between `v0` and `v`, going towards `v1`.
pub open spec fn taken(v: int, v0: int, v1: int) -> int {
    (v - v0) * step_dir(v0, v1)
}

/// Where a walk from `(x0, y0)` to `(x1, y1)` may stand at `(x, y)` with
/// error term `err`: within the box of the line, with the error term tied to
/// the steps taken along each axis.
pub open spec fn on_walk(x: int, y: int, err: int, x0: int, y0: int, x1: int, y1: int) -> bool {
    let dx = abs(x1 - x0);
    let dy = abs(y1 - y0);
    let xs = taken(x, x0, x1);
    let ys = taken(y, y0, y1);
    &&& 0 <= xs <= dx
    &&& 0 <= ys <= dy
    &&& err == dx - dy + ys * dx - xs * dy
    &&& -2 * dy <= err <= 2 * dx
}

/// The bound on the error term that keeps every step moving along the
/// longer axis.
pub open spec fn major_bound(err: int, dx: int, dy: int) -> bool {
    if dx >= dy {
        dx == 0 || -dy < 2 * err < 3 * dx - 2 * dy
    } else {
        2 * dx - 3 * dy <= 2 * err <= 2 * dx - dy
    }
}

/// The steps left to the end, along the longer axis.
pub open spec fn steps_left(x: int, y: int, x0: int, y0: int, x1: int, y1: int) -> int {
    if abs(x1 - x0) >= abs(y1 - y0) {
        abs(x1 - x0) - taken(x, x0, x1)
    } else {
        abs(y1 - y0) - taken(y, y0, y1)
    }
}

proof fn lemma_taken(v: int, v0: int, v1: int, moved: bool)
    ensures
        taken(
            if moved {
                v + step_dir(v0, v1)
            } else {
                v
            },
            v0,
            v1,
        ) == taken(v, v0, v1) + if moved {
            1int
        } else {
            0
        },
        taken(v0, v0, v1) == 0,
        0 <= taken(v, v0, v1) <= abs(v1 - v0) ==> (v0 <= v <= v1 || v1 <= v <= v0),
        taken(v, v0, v1) == abs(v1 - v0) <==> v == v1,
{
    let s = step_dir(v0, v1);
    assert(taken(v + s, v0, v1) == taken(v, v0, v1) + 1) by (nonlinear_arith)
        requires
            s == 1 || s == -1,
            s == step_dir(v0, v1),
    ;
    assert(taken(v0, v0, v1) == 0) by (nonlinear_arith);
    assert(0 <= taken(v, v0, v1) <= abs(v1 - v0) ==> (v0 <= v <= v1 || v1 <= v <= v0)) by (
    nonlinear_arith)
        requires
            s == step_dir(v0, v1),
    ;
    assert(taken(v, v0, v1) == abs(v1 - v0) <==> v == v1) by (nonlinear_arith)
        requires
            s == step_dir(v0, v1),
    ;
}

/// One step of the walk from a point other than its end: it stays on the
/// walk, gets nearer to the end, and, under the bound on the error term,
/// moves along the longer axis and keeps the bound.
proof fn lemma_advance(x: int, y: int, err: int, x0: int, y0: int, x1: int, y1: int)
    requires
        on_walk(x, y, err, x0, y0, x1, y1),
        !(x == x1 && y == y1),
    ensures
        ({
            let dx = abs(x1 - x0);
            let dy = abs(y1 - y0);
            let n = step(x, y, err, dx, dy, step_dir(x0, x1), step_dir(y0, y1));
            &&& on_walk(n.0, n.1, n.2, x0, y0, x1, y1)
            &&& taken(n.0, x0, x1) + taken(n.1, y0, y1) > taken(x, x0, x1) + taken(y, y0, y1)
            &&& major_bound(err, dx, dy) ==> major_bound(n.2, dx, dy) && steps_left(
                n.0,
                n.1,
                x0,
                y0,
                x1,
                y1,
            ) == steps_left(x, y, x0, y0, x1, y1) - 1
        }),
{
    let dx = abs(x1 - x0);
    let dy = abs(y1 - y0);
    let xs = taken(x, x0, x1);
    let ys = taken(y, y0, y1);
    let mx = 2 * err > -dy;
    let my = 2 * err < dx;
    lemma_taken(x, x0, x1, mx);
    lemma_taken(y, y0, y1, my);
    assert(!(xs == dx && ys == dy));
    if xs == dx {
        assert(ys * dx - dx * dy <= -dx) by (nonlinear_arith)
            requires
                ys < dy,
                dx >= 0,
        ;
    }
    if ys == dy {
        assert(dy * dx - xs * dy >= dy) by (nonlinear_arith)
            requires
                xs < dx,
                dy >= 0,
        ;
    }
    assert((ys + 1) * dx == ys * dx + dx) by (nonlinear_arith);
    assert((xs + 1) * dy == xs * dy + dy) by (nonlinear_arith);
}

/// Where the walk stands at its end along the longer axis, under the bound
/// on the error term, it stands at its end point.
proof fn lemma_major_end(x: int, y: int, err: int, x0: int, y0: int, x1: int, y1: int)
    requires
        on_walk(x, y, err, x0, y0, x1, y1),
        major_bound(err, abs(x1 - x0), abs(y1 - y0)),
        steps_left(x, y, x0, y0, x1, y1) == 0,
    ensures
        x == x1 && y == y1,
{
    let dx = abs(x1 - x0);
    let dy = abs(y1 - y0);
    let xs = taken(x, x0, x1);
    let ys = taken(y, y0, y1);
    lemma_taken(x, x0, x1, false);
    lemma_taken(y, y0, y1, false);
    if dx >= dy {
        if dx > 0 {
            assert(ys == dy) by (nonlinear_arith)
                requires
                    err == dx - dy + ys * dx - xs * dy,
                    xs == dx,
                    dx > 0,
                    dy >= 0,
                    -dy < 2 * err < 3 * dx - 2 * dy,
            ;
        }
    } else {
        assert(xs == dx) by (nonlinear_arith)
            requires
                err == dx - dy + ys * dx - xs * dy,
                ys == dy,
                dy > 0,
                2 * dx - 3 * dy <= 2 * err <= 2 * dx - dy,
        ;
    }
}

/// The walk from a point where it may stand, with enough fuel, starts
/// there, ends at the end point and has one point per step left along the
/// longer axis, and one more.
proof fn lemma_walk_shape(
    x: int,
    y: int,
    err: int,
    x0: int,
    y0: int,
    x1: int,
    y1: int,
    fuel: nat,
)
    requires
        on_walk(x, y, err, x0, y0, x1, y1),
        major_bound(err, abs(x1 - x0), abs(y1 - y0)),
        fuel >= (abs(x1 - x0) - taken(x, x0, x1)) + (abs(y1 - y0) - taken(y, y0, y1)),
    ensures
        ({
            let w = walk(
                x,
                y,
                err,
                x1,
                y1,
                abs(x1 - x0),
                abs(y1 - y0),
                step_dir(x0, x1),
                step_dir(y0, y1),
                fuel,
            );
            &&& w[0] == (x, y)
            &&& w.last() == (x1, y1)
            &&& w.len() == steps_left(x, y, x0, y0, x1, y1) + 1
        }),
    decreases fuel,
{
    lemma_taken(x, x0, x1, false);
    lemma_taken(y, y0, y1, false);
    if x == x1 && y == y1 {
    } else {
        lemma_advance(x, y, err, x0, y0, x1, y1);
        let n = step(x, y, err, abs(x1 - x0), abs(y1 - y0), step_dir(x0, x1), step_dir(y0, y1));
        if steps_left(x, y, x0, y0, x1, y1) == 0 {
            lemma_major_end(x, y, err, x0, y0, x1, y1);
        }
        lemma_walk_shape(n.0, n.1, n.2, x0, y0, x1, y1, (fuel - 1) as nat);
    }
}

/// A line walked from `(x0, y0)` to `(x1, y1)` starts at `(x0, y0)`, ends at
/// `(x1, y1)`, and has one point for each step along its longer axis, and
/// one more.
pub proof fn lemma_line_points(x0: int, y0: int, x1: int, y1: int)
    ensures
        line_points(x0, y0, x1, y1)[0] == (x0, y0),
        line_points(x0, y0, x1, y1).last() == (x1, y1),
        line_points(x0, y0, x1, y1).len() == if abs(x1 - x0) >= abs(y1 - y0) {
            abs(x1 - x0) + 1
        } else {
            abs(y1 - y0) + 1
        },
{
    lemma_taken(x0, x0, x1, false);
    lemma_taken(y0, y0, y1, false);
    lemma_walk_shape(
        x0,
        y0,
        abs(x1 - x0) - abs(y1 - y0),
        x0,
        y0,
        x1,
        y1,
        (abs(x1 - x0) + abs(y1 - y0)) as nat,
    );
}

/// The thin line between two pixels draws both of them, one point for each
/// step along its longer axis and one more.
pub proof fn lemma_segment_ends(a: Pixel, b: Pixel)
    ensures
        segment(a, b).contains((a.x as int, a.y as int)),
        segment(a, b).contains((b.x as int, b.y as int)),
        segment(a, b).len() == if abs(b.x - a.x) >= abs(b.y - a.y) {
            abs(b.x - a.x) + 1
        } else {
            abs(b.y - a.y) + 1
        },
{
    lemma_line_points(a.x as int, a.y as int, b.x as int, b.y as int);
    lemma_line_points(b.x as int, b.y as int, a.x as int, a.y as int);
    let s = segment(a, b);
    assert(s[0] == s[0]);
    assert(s[s.len() - 1] == s.last());
}

/// The thin line does not depend on which end is named first: it visits
/// the same points, and so leaves the same canvas.
pub proof fn lemma_segment_symmetric(c: Canvas, a: Pixel, b: Pixel)
    ensures
        segment(a, b) == segment(b, a),
        plot_all(c, segment(a, b)) == plot_all(c, segment(b, a)),
{
    if precedes(a, b) && precedes(b, a) {
        assert(a == b);
    }
}

proof fn lemma_plot_all_push(c: Canvas, pts: Seq<(int, int)>, p: (int, int))
    ensures
        plot_all(c, pts.push(p)) == plot_all(c, pts).plot(p.0, p.1),
{
    assert(pts.push(p).drop_last() =~= pts);
}

/// Draws the thin line between `start` and `end` in the current color: one
/// point per step of Bresenham's walk, both ends included, walked from the
/// end that comes first by `x` and then by `y`, so that swapping the ends
/// draws the same pixels. Points outside the frame buffer are skipped.
pub fn line(fb: &mut FrameBuffer, start: Pixel, end: Pixel)
    requires
        old(fb).wf(),
    ensures
        final(fb).wf(),
        final(fb)@ == plot_all(old(fb)@, segment(start, end)),
{
    let (lo, hi) = if start.x < end.x || (start.x == end.x && start.y <= end.y) {
        (start, end)
    } else {
        (end, start)
    };
    let x0 = lo.x;
    let y0 = lo.y;
    let x1 = hi.x;
    let y1 = hi.y;
    let dx: i64 = if x1 >= x0 {
        x1 as i64 - x0 as i64
    } else {
        x0 as i64 - x1 as i64
    };
    let dy: i64 = if y1 >= y0 {
        y1 as i64 - y0 as i64
    } else {
        y0 as i64 - y1 as i64
    };
    let sx: i32 = if x0 < x1 {
        1
    } else {
        -1
    };
    let sy: i32 = if y0 < y1 {
        1
    } else {
        -1
    };
    let mut x = x0;
    let mut y = y0;
    let mut err: i64 = dx - dy;
    let ghost pts = line_points(x0 as int, y0 as int, x1 as int, y1 as int);
    assert(pts == segment(start, end));
    let ghost mut fuel: nat = (dx + dy) as nat;
    let ghost mut done: Seq<(int, int)> = seq![];
    let ghost canvas = fb@;
    assert(done + pts =~= pts);
    proof {
        lemma_taken(x0 as int, x0 as int, x1 as int, false);
        lemma_taken(y0 as int, y0 as int, y1 as int, false);
    }
    loop
        invariant_except_break
            done + walk(x as int, y as int, err as int, x1 as int, y1 as int, dx as int, dy as int,
                sx as int, sy as int, fuel) == pts,
        invariant
            fb.wf(),
            dx == abs(x1 - x0),
            dy == abs(y1 - y0),
            sx == step_dir(x0 as int, x1 as int),
            sy == step_dir(y0 as int, y1 as int),
            on_walk(x as int, y as int, err as int, x0 as int, y0 as int, x1 as int, y1 as int),
            fuel >= (dx - taken(x as int, x0 as int, x1 as int)) + (dy - taken(y as int, y0 as int, y1 as int)),
            fb@ == plot_all(canvas, done),
        ensures
            done == pts,
        decreases (dx - taken(x as int, x0 as int, x1 as int)) + (dy - taken(y as int, y0 as int, y1 as int)),
    {
        let ghost w = walk(x as int, y as int, err as int, x1 as int, y1 as int, dx as int, dy as int,
            sx as int, sy as int, fuel);
        let ghost done0 = done;
        fb.set_pixel(x, y);
        proof {
            lemma_plot_all_push(canvas, done, (x as int, y as int));
            done = done.push((x as int, y as int));
        }
        if x == x1 && y == y1 {
            assert(done0 + w =~= done);
            break;
        }
        let ghost n = step(x as int, y as int, err as int, dx as int, dy as int, sx as int, sy as int);
        proof {
            lemma_advance(x as int, y as int, err as int, x0 as int, y0 as int, x1 as int, y1 as int);
            lemma_taken(n.0, x0 as int, x1 as int, false);
            lemma_taken(n.1, y0 as int, y1 as int, false);
        }
        let e2 = 2 * err;
        let mx = e2 > -dy;
        let my = e2 < dx;
        if mx {
            err = err - dy;
            x = x + sx;
        }
        if my {
            err = err + dx;
            y = y + sy;
        }
        proof {
            assert(w == seq![(w[0].0, w[0].1)] + walk(x as int, y as int, err as int, x1 as int,
                y1 as int, dx as int, dy as int, sx as int, sy as int, (fuel - 1) as nat));
            fuel = (fuel - 1) as nat;
        }
    }
}

/// Cell `(x, y)` lies in the square of half-width `t` around `(cx, cy)`.
pub open spec fn in_square(cx: int, cy: int, t: int, x: int, y: int) -> bool {
    abs(x - cx) <= t && abs(y - cy) <= t
}

/// `after` is `before` with a depth-tested write of the current color at
/// depth `z` on each cell that `covered` holds of.
pub open spec fn written_where(
    before: Canvas,
    after: Canvas,
    z: Depth,
    covered: spec_fn(int, int) -> bool,
) -> bool {
    &&& after.width == before.width
    &&& after.height == before.height
    &&& after.current == before.current
    &&& after.background == before.background
    &&& after.colors.len() == before.colors.len()
    &&& after.depths.len() == before.depths.len()
    &&& forall|x: int, y: int|
        #![trigger after.colors[before.index(x, y)]]
        #![trigger after.depths[before.index(x, y)]]
        before.in_bounds(x, y) ==> {
            let i = before.index(x, y);
            if covered(x, y) && less_than(z.bits, before.depths[i].bits) {
                after.colors[i] == before.current && after.depths[i] == z
            } else {
                after.colors[i] == before.colors[i] && after.depths[i] == before.depths[i]
            }
        }
}

proof fn lemma_index_injective(c: Canvas, x: int, y: int, x2: int, y2: int)
    requires
        c.in_bounds(x, y),
        c.in_bounds(x2, y2),
        c.index(x, y) == c.index(x2, y2),
    ensures
        x == x2 && y == y2,
{
    let w = c.width;
    if y < y2 {
        assert(y * w + x < y2 * w + x2) by (nonlinear_arith)
            requires
                y < y2,
                0 <= x < w,
                0 <= x2,
        ;
    } else if y > y2 {
        assert(y * w + x > y2 * w + x2) by (nonlinear_arith)
            requires
                y > y2,
                0 <= x2 < w,
                0 <= x,
        ;
    }
}

proof fn lemma_written_where_same(
    before: Canvas,
    after: Canvas,
    z: Depth,
    p: spec_fn(int, int) -> bool,
    q: spec_fn(int, int) -> bool,
)
    requires
        written_where(before, after, z, p),
        forall|x: int, y: int| before.in_bounds(x, y) ==> p(x, y) == q(x, y),
    ensures
        written_where(before, after, z, q),
{
    assert forall|x: int, y: int| before.in_bounds(x, y) implies {
        let i = before.index(x, y);
        if q(x, y) && less_than(z.bits, before.depths[i].bits) {
            after.colors[i] == before.current && after.depths[i] == z
        } else {
            after.colors[i] == before.colors[i] && after.depths[i] == before.depths[i]
        }
    } by {
        assert(after.colors[before.index(x, y)] == after.colors[before.index(x, y)]);
        assert(p(x, y) == q(x, y));
    }
}

/// Makes a depth-tested write of the current color with depth `z` on every
/// cell of the square of half-width `thickness` (at least 1) around
/// `(cx, cy)`: the stamp that thick lines are drawn with.
pub fn stamp_square(fb: &mut FrameBuffer, cx: i32, cy: i32, thickness: i32, z: Depth)
    requires
        old(fb).wf(),
    ensures
        final(fb).wf(),
        written_where(
            old(fb)@,
            final(fb)@,
            z,
            |x: int, y: int|
                in_square(
                    cx as int,
                    cy as int,
                    if thickness < 1 {
                        1
                    } else {
                        thickness as int
                    },
                    x,
                    y,
                ),
        ),
{
    let t: i64 = if thickness < 1 {
        1
    } else {
        thickness as i64
    };
    let ghost start = fb@;
    let ghost row_done = |x: int, y: int| in_square(cx as int, cy as int, t as int, x, y) && x - cx < -t;
    let ghost nothing = |x: int, y: int| false;
    assert(written_where(start, fb@, z, nothing));
    proof {
        lemma_written_where_same(start, fb@, z, nothing, row_done);
    }
    let mut ox: i64 = -t;
    while ox <= t
        invariant
            fb.wf(),
            fb@.width == start.width,
            1 <= t <= i32::MAX,
            -t <= ox <= t + 1,
            written_where(
                start,
                fb@,
                z,
                |x: int, y: int| in_square(cx as int, cy as int, t as int, x, y) && x - cx < ox,
            ),
        decreases t + 1 - ox,
    {
        let mut oy: i64 = -t;
        proof {
            lemma_written_where_same(
                start,
                fb@,
                z,
                |x: int, y: int| in_square(cx as int, cy as int, t as int, x, y) && x - cx < ox,
                |x: int, y: int|
                    in_square(cx as int, cy as int, t as int, x, y) && (x - cx < ox || (x - cx
                        == ox && y - cy < oy)),
            );
        }
        while oy <= t
            invariant
                fb.wf(),
                1 <= t <= i32::MAX,
                -t <= ox <= t,
                -t <= oy <= t + 1,
                written_where(
                    start,
                    fb@,
                    z,
                    |x: int, y: int|
                        in_square(cx as int, cy as int, t as int, x, y) && (x - cx < ox || (x - cx
                            == ox && y - cy < oy)),
                ),
            decreases t + 1 - oy,
        {
            let px = cx as i64 + ox;
            let py = cy as i64 + oy;
            let ghost before = fb@;
            let fits = i32::MIN as i64 <= px && px <= i32::MAX as i64 && i32::MIN as i64 <= py
                && py <= i32::MAX as i64;
            if fits {
                fb.set_pixel_z(px as i32, py as i32, z);
            }
            proof {
                let after = fb@;
                assert(fits ==> after == before.plot_depth(px as int, py as int, z));
                assert(!fits ==> after == before);
                assert(start.in_bounds(px as int, py as int) ==> fits);
                assert forall|x: int, y: int| start.in_bounds(x, y) implies {
                    let i = start.index(x, y);
                    if (in_square(cx as int, cy as int, t as int, x, y) && (x - cx < ox || (x - cx
                        == ox && y - cy < oy + 1))) && less_than(z.bits, start.depths[i].bits) {
                        after.colors[i] == start.current && after.depths[i] == z
                    } else {
                        after.colors[i] == start.colors[i] && after.depths[i] == start.depths[i]
                    }
                } by {
                    let i = start.index(x, y);
                    lemma_index_in_grid(x, y, start.width, start.height);
                    assert(before.colors[start.index(x, y)] == before.colors[i]);
                    assert(before.depths[start.index(x, y)] == before.depths[i]);
                    if x == px && y == py {
                    } else {
                        if start.in_bounds(px as int, py as int) {
                            if i == start.index(px as int, py as int) {
                                lemma_index_injective(start, x, y, px as int, py as int);
                            }
                            assert(i != before.index(px as int, py as int));
                            assert(before.colors.len() == before.cells());
                            lemma_index_in_grid(px as int, py as int, start.width, start.height);
                        } else {
                            assert(after.colors == before.colors);
                        }
                        assert(after.colors[i] == before.colors[i]);
                        assert(after.depths[i] == before.depths[i]);
                    }
                }
            }
            oy += 1;
        }
        proof {
            lemma_written_where_same(
                start,
                fb@,
                z,
                |x: int, y: int|
                    in_square(cx as int, cy as int, t as int, x, y) && (x - cx < ox || (x - cx
                        == ox && y - cy < oy)),
                |x: int, y: int| in_square(cx as int, cy as int, t as int, x, y) && x - cx < ox + 1,
            );
        }
        ox += 1;
    }
    proof {
        lemma_written_where_same(
            start,
            fb@,
            z,
            |x: int, y: int| in_square(cx as int, cy as int, t as int, x, y) && x - cx < ox,
            |x: int, y: int|
                in_square(
                    cx as int,
                    cy as int,
                    if thickness < 1 {
                        1
                    } else {
                        thickness as int
                    },
                    x,
                    y,
                ),
        );
    }
}

} // verus!
