//! The vector rasterizer: walks a tree of geometries and draws each one onto a canvas
//! in a fixed accent colour over a fixed dark background.

use crate::canvas::{canvas_height, canvas_width, size_fits, Canvas, Color};
use crate::draw::{draw_line, draw_point, on_line, on_marker};
use crate::error::RenderError;
use crate::geometry::{Coord, Extent, Geometry, Viewport};
use vstd::prelude::*;

verus! {

/// The colour in which geometries are drawn.
pub open spec fn accent_color() -> Color {
    Color { r: 100, g: 200, b: 255 }
}

/// The colour of a canvas before anything is drawn on it.
pub open spec fn background_color() -> Color {
    Color { r: 20, g: 20, b: 30 }
}

/// The colour in which geometries are drawn.
pub fn accent() -> (c: Color)
    ensures
        c == accent_color(),
{
    Color { r: 100, g: 200, b: 255 }
}

/// The colour of a canvas before anything is drawn on it.
pub fn background() -> (c: Color)
    ensures
        c == background_color(),
{
    Color { r: 20, g: 20, b: 30 }
}

/// Whether the marker of the position `c` covers the pixel `(px, py)`.
pub open spec fn marker_covers(view: Viewport, c: Coord, px: int, py: int) -> bool {
    on_marker(view.pixel_x(c.x as int), view.pixel_y(c.y as int), px, py)
}

/// Whether the segment from vertex `a` to vertex `b` covers the pixel `(px, py)`.
pub open spec fn span_covers(view: Viewport, a: Coord, b: Coord, px: int, py: int) -> bool {
    on_line(
        view.pixel_x(a.x as int),
        view.pixel_y(a.y as int),
        view.pixel_x(b.x as int),
        view.pixel_y(b.y as int),
        px,
        py,
    )
}

/// Whether the segment that leaves vertex `k` of a path covers the pixel `(px, py)`.
pub open spec fn segment_covers(view: Viewport, pts: Seq<Coord>, k: int, px: int, py: int) -> bool {
    span_covers(view, pts[k], pts[k + 1], px, py)
}

/// Whether one of the first `n` segments of a path covers the pixel `(px, py)`.
pub open spec fn segments_cover(view: Viewport, pts: Seq<Coord>, n: int, px: int, py: int) -> bool {
    exists|k: int| 0 <= k < n && #[trigger] segment_covers(view, pts, k, px, py)
}

/// Whether an open path covers the pixel `(px, py)`: consecutive vertices are joined
/// by segments, and a path of fewer than two vertices covers nothing.
pub open spec fn path_covers(view: Viewport, pts: Seq<Coord>, px: int, py: int) -> bool {
    segments_cover(view, pts, pts.len() - 1, px, py)
}

/// Whether a ring covers the pixel `(px, py)`: a path that is closed by a segment from
/// its last vertex back to its first. A ring of fewer than two vertices covers nothing.
pub open spec fn ring_covers(view: Viewport, pts: Seq<Coord>, px: int, py: int) -> bool {
    pts.len() >= 2 && (path_covers(view, pts, px, py) || span_covers(
        view,
        pts.last(),
        pts[0],
        px,
        py,
    ))
}

/// Whether one of the first `n` of the given geometries covers the pixel `(px, py)`.
pub open spec fn parts_cover(view: Viewport, parts: Seq<Geometry>, n: int, px: int, py: int) -> bool {
    exists|k: int| 0 <= k < n && geometry_covers(view, #[trigger] parts[k], px, py)
}

/// Whether a geometry covers the pixel `(px, py)`. A point covers its marker, a line
/// string its path, a polygon its exterior ring only, and every other geometry what
/// its parts cover.
pub open spec fn geometry_covers(view: Viewport, g: Geometry, px: int, py: int) -> bool
    decreases g,
{
    match g {
        Geometry::Point(c) => marker_covers(view, c, px, py),
        Geometry::LineString(pts) => path_covers(view, pts@, px, py),
        Geometry::Polygon(rings) => rings@.len() > 0 && ring_covers(view, rings@[0]@, px, py),
        Geometry::MultiPoint(parts) => exists|k: int|
            0 <= k < parts@.len() && geometry_covers(view, #[trigger] parts@[k], px, py),
        Geometry::MultiLineString(parts) => exists|k: int|
            0 <= k < parts@.len() && geometry_covers(view, #[trigger] parts@[k], px, py),
        Geometry::MultiPolygon(parts) => exists|k: int|
            0 <= k < parts@.len() && geometry_covers(view, #[trigger] parts@[k], px, py),
        Geometry::GeometryCollection(parts) => exists|k: int|
            0 <= k < parts@.len() && geometry_covers(view, #[trigger] parts@[k], px, py),
        Geometry::Other(parts) => exists|k: int|
            0 <= k < parts@.len() && geometry_covers(view, #[trigger] parts@[k], px, py),
    }
}

/// The size of the image for a layer: the extent's aspect ratio within `max_dim`
/// pixels. An extent wider than tall fills the width, any other the height; the
/// other side is rounded down. An extent without area gives an image without pixels.
pub open spec fn vector_size(extent: Extent, max_dim: int) -> (int, int) {
    if extent.span_x() <= 0 {
        (0, max_dim)
    } else if extent.span_y() <= 0 {
        (max_dim, 0)
    } else if extent.span_x() > extent.span_y() {
        (max_dim, max_dim * extent.span_y() / extent.span_x())
    } else {
        (max_dim * extent.span_x() / extent.span_y(), max_dim)
    }
}

/// The larger side of the image for a layer: the terminal's width in pixels, or the
/// requested maximum resolution where one is set and smaller.
pub fn vector_max_dimension(max_res: usize, terminal_width: usize) -> (max_dim: usize)
    ensures
        max_dim == if 0 < max_res < terminal_width {
            max_res
        } else {
            terminal_width
        },
{
    if max_res > 0 && max_res < terminal_width {
        max_res
    } else {
        terminal_width
    }
}

/// Computes the size of the image for a layer.
pub fn vector_dimensions(extent: &Extent, max_dim: u32) -> (size: (u32, u32))
    ensures
        (size.0 as int, size.1 as int) == vector_size(*extent, max_dim as int),
        size.0 <= max_dim,
        size.1 <= max_dim,
{
    let span_x: i128 = extent.max_x as i128 - extent.min_x as i128;
    let span_y: i128 = extent.max_y as i128 - extent.min_y as i128;
    if span_x <= 0 {
        (0, max_dim)
    } else if span_y <= 0 {
        (max_dim, 0)
    } else if span_x > span_y {
        let side = scale_side(max_dim, span_y as u128, span_x as u128);
        (max_dim, side)
    } else {
        let side = scale_side(max_dim, span_x as u128, span_y as u128);
        (side, max_dim)
    }
}

/// `side * part / whole`, rounded down, for a part that is no larger than the whole.
fn scale_side(side: u32, part: u128, whole: u128) -> (r: u32)
    requires
        0 < part <= whole <= 0x1_0000_0000_0000_0000,
    ensures
        r == side * part / (whole as int),
        r <= side,
{
    assert(0 <= side * part <= side * whole <= 0x1_0000_0000 * 0x1_0000_0000_0000_0000)
        by (nonlinear_arith)
        requires
            0 <= side <= 0x1_0000_0000,
            0 < part <= whole <= 0x1_0000_0000_0000_0000,
    ;
    let q: u128 = (side as u128) * part / whole;
    proof {
        vstd::arithmetic::div_mod::lemma_div_is_ordered(
            side * part,
            side * whole,
            whole as int,
        );
        vstd::arithmetic::div_mod::lemma_div_multiples_vanish(side as int, whole as int);
        assert(side * whole == whole * side) by (nonlinear_arith);
    }
    q as u32
}

/// Draws an open path: consecutive vertices are joined by line segments. A path of
/// fewer than two vertices draws nothing.
pub fn draw_linestring(canvas: &mut Canvas, points: &Vec<Coord>, view: &Viewport, color: Color)
    requires
        old(canvas).wf(),
        view.wf(),
    ensures
        final(canvas).wf(),
        final(canvas).same_size(*old(canvas)),
        forall|px: int, py: int|
            #![trigger final(canvas).pixel_at(px, py)]
            old(canvas).contains(px, py) ==> final(canvas).pixel_at(px, py) == if path_covers(
                *view,
                points@,
                px,
                py,
            ) {
                color
            } else {
                old(canvas).pixel_at(px, py)
            },
{
    let n = points.len();
    if n < 2 {
        return ;
    }
    let mut k: usize = 0;
    while k < n - 1
        invariant
            n == points.len(),
            n >= 2,
            k <= n - 1,
            view.wf(),
            canvas.wf(),
            canvas.same_size(*old(canvas)),
            forall|px: int, py: int|
                #![trigger canvas.pixel_at(px, py)]
                old(canvas).contains(px, py) ==> canvas.pixel_at(px, py) == if segments_cover(
                    *view,
                    points@,
                    k as int,
                    px,
                    py,
                ) {
                    color
                } else {
                    old(canvas).pixel_at(px, py)
                },
        decreases n - k,
    {
        let ghost before = *canvas;
        let a = view.to_pixel(points[k]);
        let b = view.to_pixel(points[k + 1]);
        draw_line(canvas, a.0, a.1, b.0, b.1, color);
        assert forall|px: int, py: int| old(canvas).contains(px, py) implies (
        #[trigger] canvas.pixel_at(px, py)) == if segments_cover(
            *view,
            points@,
            k + 1,
            px,
            py,
        ) {
            color
        } else {
            old(canvas).pixel_at(px, py)
        } by {
            assert(before.contains(px, py));
            let here = segment_covers(*view, points@, k as int, px, py);
            assert(canvas.pixel_at(px, py) == if here {
                color
            } else {
                before.pixel_at(px, py)
            });
            assert(segments_cover(*view, points@, k + 1, px, py) <==> (here || segments_cover(
                *view,
                points@,
                k as int,
                px,
                py,
            )));
        }
        k += 1;
    }
}

/// Draws a ring: the path through its vertices and the segment that closes it. A ring
/// of fewer than two vertices draws nothing.
pub fn draw_ring(canvas: &mut Canvas, points: &Vec<Coord>, view: &Viewport, color: Color)
    requires
        old(canvas).wf(),
        view.wf(),
    ensures
        final(canvas).wf(),
        final(canvas).same_size(*old(canvas)),
        forall|px: int, py: int|
            #![trigger final(canvas).pixel_at(px, py)]
            old(canvas).contains(px, py) ==> final(canvas).pixel_at(px, py) == if ring_covers(
                *view,
                points@,
                px,
                py,
            ) {
                color
            } else {
                old(canvas).pixel_at(px, py)
            },
{
    let n = points.len();
    if n < 2 {
        return ;
    }
    draw_linestring(canvas, points, view, color);
    let ghost middle = *canvas;
    let a = view.to_pixel(points[n - 1]);
    let b = view.to_pixel(points[0]);
    draw_line(canvas, a.0, a.1, b.0, b.1, color);
    assert forall|px: int, py: int| old(canvas).contains(px, py) implies (
    #[trigger] canvas.pixel_at(px, py)) == if ring_covers(*view, points@, px, py) {
        color
    } else {
        old(canvas).pixel_at(px, py)
    } by {
        assert(middle.contains(px, py));
        assert(middle.pixel_at(px, py) == if path_covers(*view, points@, px, py) {
            color
        } else {
            old(canvas).pixel_at(px, py)
        });
    }
}

/// Draws a geometry in the accent colour. A point becomes a marker, a line string a
/// path, a polygon its exterior ring; of every other geometry each part is drawn in
/// turn. Whatever falls outside the canvas is skipped.
pub fn draw_geometry(canvas: &mut Canvas, geom: &Geometry, view: &Viewport)
    requires
        old(canvas).wf(),
        view.wf(),
    ensures
        final(canvas).wf(),
        final(canvas).same_size(*old(canvas)),
        forall|px: int, py: int|
            #![trigger final(canvas).pixel_at(px, py)]
            old(canvas).contains(px, py) ==> final(canvas).pixel_at(px, py) == if geometry_covers(
                *view,
                *geom,
                px,
                py,
            ) {
                accent_color()
            } else {
                old(canvas).pixel_at(px, py)
            },
    decreases geom,
{
    match geom {
        Geometry::Point(c) => {
            let p = view.to_pixel(*c);
            draw_point(canvas, p.0, p.1, accent());
        },
        Geometry::LineString(points) => {
            draw_linestring(canvas, points, view, accent());
        },
        Geometry::Polygon(rings) => {
            if rings.len() > 0 {
                draw_ring(canvas, &rings[0], view, accent());
            }
        },
        Geometry::MultiPoint(parts) => {
            draw_parts(canvas, parts, view);
        },
        Geometry::MultiLineString(parts) => {
            draw_parts(canvas, parts, view);
        },
        Geometry::MultiPolygon(parts) => {
            draw_parts(canvas, parts, view);
        },
        Geometry::GeometryCollection(parts) => {
            draw_parts(canvas, parts, view);
        },
        Geometry::Other(parts) => {
            draw_parts(canvas, parts, view);
        },
    }
}

/// Draws each of the given geometries in turn.
pub fn draw_parts(canvas: &mut Canvas, parts: &Vec<Geometry>, view: &Viewport)
    requires
        old(canvas).wf(),
        view.wf(),
    ensures
        final(canvas).wf(),
        final(canvas).same_size(*old(canvas)),
        forall|px: int, py: int|
            #![trigger final(canvas).pixel_at(px, py)]
            old(canvas).contains(px, py) ==> final(canvas).pixel_at(px, py) == if parts_cover(
                *view,
                parts@,
                parts@.len() as int,
                px,
                py,
            ) {
                accent_color()
            } else {
                old(canvas).pixel_at(px, py)
            },
    decreases parts,
{
    let n = parts.len();
    let mut k: usize = 0;
    while k < n
        invariant
            n == parts.len(),
            k <= n,
            view.wf(),
            canvas.wf(),
            canvas.same_size(*old(canvas)),
            forall|px: int, py: int|
                #![trigger canvas.pixel_at(px, py)]
                old(canvas).contains(px, py) ==> canvas.pixel_at(px, py) == if parts_cover(
                    *view,
                    parts@,
                    k as int,
                    px,
                    py,
                ) {
                    accent_color()
                } else {
                    old(canvas).pixel_at(px, py)
                },
        decreases n - k,
    {
        let ghost before = *canvas;
        draw_geometry(canvas, &parts[k], view);
        assert forall|px: int, py: int| old(canvas).contains(px, py) implies (
        #[trigger] canvas.pixel_at(px, py)) == if parts_cover(*view, parts@, k + 1, px, py) {
            accent_color()
        } else {
            old(canvas).pixel_at(px, py)
        } by {
            assert(before.contains(px, py));
            let here = geometry_covers(*view, parts@[k as int], px, py);
            assert(canvas.pixel_at(px, py) == if here {
                accent_color()
            } else {
                before.pixel_at(px, py)
            });
            assert(parts_cover(*view, parts@, k + 1, px, py) <==> (here || parts_cover(
                *view,
                parts@,
                k as int,
                px,
                py,
            )));
        }
        k += 1;
    }
}

/// Renders the geometries of a layer: an image sized by `vector_size`, filled with
/// the background colour, on which every geometry is drawn in the accent colour.
/// The render fails when an image of that size cannot be held.
pub fn render_vector(features: &Vec<Geometry>, extent: &Extent, max_dim: u32) -> (r: Result<
    Canvas,
    RenderError,
>)
    ensures
        r.is_ok() <==> size_fits(
            vector_size(*extent, max_dim as int).0,
            vector_size(*extent, max_dim as int).1,
        ),
        r matches Err(e) ==> e == RenderError::ImageTooLarge,
        r matches Ok(c) ==> {
            let size = vector_size(*extent, max_dim as int);
            let view = Viewport { extent: *extent, width: size.0 as u32, height: size.1 as u32 };
            &&& c.wf()
            &&& canvas_width(c) == size.0
            &&& canvas_height(c) == size.1
            &&& forall|px: int, py: int|
                #![trigger c.pixel_at(px, py)]
                c.contains(px, py) ==> c.pixel_at(px, py) == if parts_cover(
                    view,
                    features@,
                    features@.len() as int,
                    px,
                    py,
                ) {
                    accent_color()
                } else {
                    background_color()
                }
        },
{
    let size = vector_dimensions(extent, max_dim);
    let made = Canvas::filled(size.0, size.1, background());
    match made {
        None => Err(RenderError::ImageTooLarge),
        Some(mut canvas) => {
            if extent.is_valid() {
                let view = Viewport { extent: *extent, width: size.0, height: size.1 };
                draw_parts(&mut canvas, features, &view);
            } else {
                assert(size.0 == 0 || size.1 == 0);
                assert(canvas_width(canvas) * canvas_height(canvas) == 0) by (nonlinear_arith)
                    requires
                        canvas_width(canvas) == 0 || canvas_height(canvas) == 0,
                ;
            }
            Ok(canvas)
        },
    }
}

} // verus!
