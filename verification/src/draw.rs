//! Drawing primitives: point markers and straight line segments on a canvas.
//!
//! Every primitive checks each pixel against the canvas bounds, so coordinates may
//! lie anywhere in the `i32` range: what falls outside is skipped, not clamped.

use crate::arith::lemma_quotient;
use crate::canvas::{canvas_height, canvas_width, Canvas, Color};
use vstd::prelude::*;

verus! {

/// The distance between two coordinates.
pub open spec fn distance(a: int, b: int) -> int {
    if a <= b {
        b - a
    } else {
        a - b
    }
}

/// How far `v` lies from `a`, counted in the direction that leads from `a` to `b`.
pub open spec fn advance(a: int, b: int, v: int) -> int {
    if a < b {
        v - a
    } else {
        a - v
    }
}

/// How far a segment has moved along its shorter axis once it has moved `t` along its
/// longer one: `t * minor / major`, rounded to the nearest integer, halves upwards.
pub open spec fn minor_offset(t: int, major: int, minor: int) -> int {
    if major == 0 {
        0
    } else {
        (2 * t * minor + major) / (2 * major)
    }
}

/// How far `(x, y)` lies from the start of the segment, measured along the
/// segment's longer axis and in its direction.
spec fn progress(x0: int, y0: int, x1: int, y1: int, x: int, y: int) -> int {
    if distance(x0, x1) >= distance(y0, y1) {
        advance(x0, x1, x)
    } else {
        advance(y0, y1, y)
    }
}

/// The pixels of the segment from `(x0, y0)` to `(x1, y1)`: one pixel for every step
/// along the longer axis, at the nearest position along the shorter one.
pub open spec fn on_line(x0: int, y0: int, x1: int, y1: int, x: int, y: int) -> bool {
    let dx = distance(x0, x1);
    let dy = distance(y0, y1);
    let i = advance(x0, x1, x);
    let j = advance(y0, y1, y);
    if dx >= dy {
        0 <= i <= dx && j == minor_offset(i, dx, dy)
    } else {
        0 <= j <= dy && i == minor_offset(j, dy, dx)
    }
}

/// The pixels of the segment that come before step `n` along the longer axis.
spec fn on_line_before(
    x0: int,
    y0: int,
    x1: int,
    y1: int,
    n: int,
    x: int,
    y: int,
) -> bool {
    on_line(x0, y0, x1, y1, x, y) && progress(x0, y0, x1, y1, x, y) < n
}

/// The pixels of a point marker: the pixel itself and its eight neighbours.
pub open spec fn on_marker(x: int, y: int, px: int, py: int) -> bool {
    x - 1 <= px <= x + 1 && y - 1 <= py <= y + 1
}

/// The error term of the stepping loop fixes the position along the shorter axis.
proof fn lemma_error_fixes_offset(major: int, minor: int, t: int, q: int, twice_gap: int)
    requires
        major > 0,
        twice_gap == 2 * major * q - 2 * minor * t,
        -major < twice_gap <= major,
    ensures
        q == minor_offset(t, major, minor),
{
    assert(q * (2 * major) == 2 * major * q) by (nonlinear_arith);
    assert((q + 1) * (2 * major) == 2 * major * q + 2 * major) by (nonlinear_arith);
    assert(2 * t * minor == 2 * minor * t) by (nonlinear_arith);
    lemma_quotient(2 * t * minor + major, 2 * major, q);
}

/// At the end of its longer axis a segment has covered its whole shorter axis.
pub proof fn lemma_offset_at_end(major: int, minor: int)
    requires
        major > 0,
    ensures
        minor_offset(major, major, minor) == minor,
{
    assert(2 * major * minor + major == minor * (2 * major) + major) by (nonlinear_arith);
    assert((minor + 1) * (2 * major) == minor * (2 * major) + 2 * major) by (nonlinear_arith);
    lemma_quotient(2 * major * minor + major, 2 * major, minor);
}

/// A segment starts at its first endpoint.
pub proof fn lemma_offset_at_start(major: int, minor: int)
    requires
        0 <= minor <= major,
    ensures
        minor_offset(0, major, minor) == 0,
{
    if major > 0 {
        assert(2 * 0 * minor + major == major) by (nonlinear_arith);
        lemma_quotient(major, 2 * major, 0);
    }
}

/// The position along the shorter axis never runs backwards and never leaves the
/// segment.
pub proof fn lemma_offset_bounds(t: int, major: int, minor: int)
    requires
        0 <= t <= major,
        0 <= minor <= major,
    ensures
        0 <= minor_offset(t, major, minor) <= minor,
{
    if major > 0 {
        let n = 2 * t * minor + major;
        let q = n / (2 * major);
        vstd::arithmetic::div_mod::lemma_fundamental_div_mod(n, 2 * major);
        vstd::arithmetic::div_mod::lemma_mod_bound(n, 2 * major);
        assert(0 <= t * minor <= major * minor) by (nonlinear_arith)
            requires
                0 <= t <= major,
                0 <= minor,
        ;
        assert(2 * t * minor == 2 * (t * minor)) by (nonlinear_arith);
        assert(0 <= q <= minor) by (nonlinear_arith)
            requires
                n == (2 * major) * q + n % (2 * major),
                0 <= n % (2 * major) < 2 * major,
                major <= n <= 2 * (major * minor) + major,
                major > 0,
                minor >= 0,
        {
            if q > minor {
                assert((2 * major) * q >= (2 * major) * (minor + 1));
            }
            if q < 0 {
                assert((2 * major) * q <= (2 * major) * (-1));
            }
        }
    }
}

/// Each endpoint of a segment is one of its pixels, and every pixel of a segment lies
/// in the box that its endpoints span.
pub proof fn lemma_line_within_box(x0: int, y0: int, x1: int, y1: int, x: int, y: int)
    requires
        on_line(x0, y0, x1, y1, x, y),
    ensures
        (x0 <= x <= x1 || x1 <= x <= x0),
        (y0 <= y <= y1 || y1 <= y <= y0),
{
    let dx = distance(x0, x1);
    let dy = distance(y0, y1);
    let i = advance(x0, x1, x);
    let j = advance(y0, y1, y);
    if dx >= dy {
        lemma_offset_bounds(i, dx, dy);
    } else {
        lemma_offset_bounds(j, dy, dx);
    }
}

/// Both endpoints of a segment are among its pixels.
pub proof fn lemma_line_has_endpoints(x0: int, y0: int, x1: int, y1: int)
    ensures
        on_line(x0, y0, x1, y1, x0, y0),
        on_line(x0, y0, x1, y1, x1, y1),
{
    let dx = distance(x0, x1);
    let dy = distance(y0, y1);
    if dx >= dy {
        lemma_offset_at_start(dx, dy);
        if dx > 0 {
            lemma_offset_at_end(dx, dy);
        }
    } else {
        lemma_offset_at_start(dy, dx);
        lemma_offset_at_end(dy, dx);
    }
}

/// A segment whose endpoints both lie beyond the same edge of the canvas has no pixel
/// on the canvas.
pub proof fn lemma_line_outside(c: Canvas, x0: int, y0: int, x1: int, y1: int, x: int, y: int)
    requires
        on_line(x0, y0, x1, y1, x, y),
        (x0 < 0 && x1 < 0) || (y0 < 0 && y1 < 0) || (x0 >= canvas_width(c) && x1 >= canvas_width(
            c,
        )) || (y0 >= canvas_height(c) && y1 >= canvas_height(c)),
    ensures
        !c.contains(x, y),
{
    lemma_line_within_box(x0, y0, x1, y1, x, y);
}

/// Draws a point marker: the pixel at `(x, y)` and its eight neighbours take `color`,
/// as far as they lie on the canvas.
pub fn draw_point(canvas: &mut Canvas, x: i32, y: i32, color: Color)
    requires
        old(canvas).wf(),
    ensures
        final(canvas).wf(),
        final(canvas).same_size(*old(canvas)),
        forall|px: int, py: int|
            #![trigger final(canvas).pixel_at(px, py)]
            old(canvas).contains(px, py) ==> final(canvas).pixel_at(px, py) == if on_marker(
                x as int,
                y as int,
                px,
                py,
            ) {
                color
            } else {
                old(canvas).pixel_at(px, py)
            },
{
    let mut dx: i64 = -1;
    while dx <= 1
        invariant
            -1 <= dx <= 2,
            canvas.wf(),
            canvas.same_size(*old(canvas)),
            forall|px: int, py: int|
                #![trigger canvas.pixel_at(px, py)]
                old(canvas).contains(px, py) ==> canvas.pixel_at(px, py) == if on_marker(
                    x as int,
                    y as int,
                    px,
                    py,
                ) && px < x + dx {
                    color
                } else {
                    old(canvas).pixel_at(px, py)
                },
        decreases 2 - dx,
    {
        let mut dy: i64 = -1;
        while dy <= 1
            invariant
                -1 <= dx <= 1,
                -1 <= dy <= 2,
                canvas.wf(),
                canvas.same_size(*old(canvas)),
                forall|px: int, py: int|
                    #![trigger canvas.pixel_at(px, py)]
                    old(canvas).contains(px, py) ==> canvas.pixel_at(px, py) == if on_marker(
                        x as int,
                        y as int,
                        px,
                        py,
                    ) && (px < x + dx || (px == x + dx && py < y + dy)) {
                        color
                    } else {
                        old(canvas).pixel_at(px, py)
                    },
            decreases 2 - dy,
        {
            canvas.plot(x as i64 + dx, y as i64 + dy, color);
            dy += 1;
        }
        dx += 1;
    }
}

/// Draws the segment from `(x0, y0)` to `(x1, y1)` by integer stepping with an error
/// accumulator. Every pixel of the segment that lies on the canvas takes `color`;
/// the rest of the segment is skipped and every other pixel keeps its colour.
pub fn draw_line(canvas: &mut Canvas, x0: i32, y0: i32, x1: i32, y1: i32, color: Color)
    requires
        old(canvas).wf(),
    ensures
        final(canvas).wf(),
        final(canvas).same_size(*old(canvas)),
        forall|px: int, py: int|
            #![trigger final(canvas).pixel_at(px, py)]
            old(canvas).contains(px, py) ==> final(canvas).pixel_at(px, py) == if on_line(
                x0 as int,
                y0 as int,
                x1 as int,
                y1 as int,
                px,
                py,
            ) {
                color
            } else {
                old(canvas).pixel_at(px, py)
            },
{
    let dx: i64 = if x0 <= x1 {
        x1 as i64 - x0 as i64
    } else {
        x0 as i64 - x1 as i64
    };
    let dy: i64 = if y0 <= y1 {
        y1 as i64 - y0 as i64
    } else {
        y0 as i64 - y1 as i64
    };
    let forward_x = x0 < x1;
    let forward_y = y0 < y1;
    let mut err: i64 = dx - dy;
    let mut x: i64 = x0 as i64;
    let mut y: i64 = y0 as i64;
    let ghost mut i: int = 0;
    let ghost mut j: int = 0;
    proof {
        assert(dx * (0 + 1) - dy * (0 + 1) == dx - dy) by (nonlinear_arith);
    }
    loop
        invariant_except_break
            dx == distance(x0 as int, x1 as int),
            dy == distance(y0 as int, y1 as int),
            forward_x == (x0 < x1),
            forward_y == (y0 < y1),
            i == advance(x0 as int, x1 as int, x as int),
            j == advance(y0 as int, y1 as int, y as int),
            stepping(dx as int, dy as int, i, j, err as int),
            forall|px: int, py: int|
                #![trigger canvas.pixel_at(px, py)]
                old(canvas).contains(px, py) ==> canvas.pixel_at(px, py) == if on_line_before(
                    x0 as int,
                    y0 as int,
                    x1 as int,
                    y1 as int,
                    if dx >= dy {
                        i
                    } else {
                        j
                    },
                    px,
                    py,
                ) {
                    color
                } else {
                    old(canvas).pixel_at(px, py)
                },
        invariant
            canvas.wf(),
            canvas.same_size(*old(canvas)),
        ensures
            forall|px: int, py: int|
                #![trigger canvas.pixel_at(px, py)]
                old(canvas).contains(px, py) ==> canvas.pixel_at(px, py) == if on_line(
                    x0 as int,
                    y0 as int,
                    x1 as int,
                    y1 as int,
                    px,
                    py,
                ) {
                    color
                } else {
                    old(canvas).pixel_at(px, py)
                },
        decreases
            if dx >= dy {
                dx - i
            } else {
                dy - j
            },
    {
        let ghost before = *canvas;
        proof {
            lemma_stepping_offset(dx as int, dy as int, i, j, err as int);
        }
        canvas.plot(x, y, color);
        assert forall|px: int, py: int| old(canvas).contains(px, py) implies (
        #[trigger] canvas.pixel_at(px, py)) == if on_line_before(
            x0 as int,
            y0 as int,
            x1 as int,
            y1 as int,
            (if dx >= dy {
                i
            } else {
                j
            }) + 1,
            px,
            py,
        ) {
            color
        } else {
            old(canvas).pixel_at(px, py)
        } by {
            assert(before.contains(px, py));
            assert(before.pixel_at(px, py) == if on_line_before(
                x0 as int,
                y0 as int,
                x1 as int,
                y1 as int,
                if dx >= dy {
                    i
                } else {
                    j
                },
                px,
                py,
            ) {
                color
            } else {
                old(canvas).pixel_at(px, py)
            });
        }
        if x == x1 as i64 && y == y1 as i64 {
            break ;
        }
        proof {
            if dx >= dy && dx > 0 {
                lemma_offset_at_end(dx as int, dy as int);
            }
            if dx < dy {
                lemma_offset_at_end(dy as int, dx as int);
            }
        }
        let e2: i64 = 2 * err;
        if e2 >= -dy {
            err -= dy;
            if forward_x {
                x += 1;
            } else {
                x -= 1;
            }
            proof {
                assert(dy * (i + 2) == dy * (i + 1) + dy) by (nonlinear_arith);
                i = i + 1;
            }
        }
        if e2 <= dx {
            err += dx;
            if forward_y {
                y += 1;
            } else {
                y -= 1;
            }
            proof {
                assert(dx * (j + 2) == dx * (j + 1) + dx) by (nonlinear_arith);
                j = j + 1;
            }
        }
    }
}

/// What the stepping loop keeps true of its error term `err` after `i` steps along
/// x and `j` steps along y, for a segment that spans `dx` by `dy`.
spec fn stepping(dx: int, dy: int, i: int, j: int, err: int) -> bool {
    &&& 0 <= dx <= 0xffff_ffff
    &&& 0 <= dy <= 0xffff_ffff
    &&& dx >= dy ==> 0 <= j <= i <= dx
    &&& dx < dy ==> 0 <= i <= j <= dy
    &&& err == dx * (j + 1) - dy * (i + 1)
    &&& dx >= dy && dx > 0 ==> dx - 2 * dy < 2 * err <= 3 * dx - 2 * dy
    &&& dx < dy ==> 2 * dx - 3 * dy <= 2 * err < 2 * dx - dy
}

/// The error term places the loop on the segment: the steps taken along the shorter
/// axis are those that the segment's slope asks for.
proof fn lemma_stepping_offset(dx: int, dy: int, i: int, j: int, err: int)
    requires
        stepping(dx, dy, i, j, err),
    ensures
        dx >= dy ==> j == minor_offset(i, dx, dy),
        dx < dy ==> i == minor_offset(j, dy, dx),
{
    assert(dx * (j + 1) == dx * j + dx) by (nonlinear_arith);
    assert(dy * (i + 1) == dy * i + dy) by (nonlinear_arith);
    assert(2 * dx * j == 2 * (dx * j)) by (nonlinear_arith);
    assert(2 * dy * i == 2 * (dy * i)) by (nonlinear_arith);
    if dx >= dy {
        if dx > 0 {
            lemma_error_fixes_offset(dx, dy, i, j, 2 * dx * j - 2 * dy * i);
        }
    } else {
        lemma_error_fixes_offset(dy, dx, j, i, 2 * dy * i - 2 * dx * j);
    }
}

} // verus!
