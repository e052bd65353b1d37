//! Vector geometries and the mapping from layer coordinates to pixels.
//!
//! Coordinates are integers in a fixed-point unit of the caller's choice; the mapping
//! to pixels depends only on their ratio to the extent, so the unit cancels out.

use vstd::prelude::*;

verus! {

/// A position in layer coordinates.
#[derive(Clone, Copy, Debug, PartialEq, Eq, Structural)]
pub struct Coord {
    pub x: i64,
    pub y: i64,
}

/// An axis-aligned bounding box in layer coordinates.
#[derive(Clone, Copy, Debug, PartialEq, Eq, Structural)]
pub struct Extent {
    pub min_x: i64,
    pub min_y: i64,
    pub max_x: i64,
    pub max_y: i64,
}

impl Extent {
    /// The box has a positive width and a positive height.
    pub open spec fn wf(self) -> bool {
        self.max_x > self.min_x && self.max_y > self.min_y
    }

    /// The width of the box.
    pub open spec fn span_x(self) -> int {
        self.max_x - self.min_x
    }

    /// The height of the box.
    pub open spec fn span_y(self) -> int {
        self.max_y - self.min_y
    }

    /// Whether the box has a positive width and a positive height.
    pub fn is_valid(&self) -> (ok: bool)
        ensures
            ok == self.wf(),
    {
        self.max_x > self.min_x && self.max_y > self.min_y
    }
}

/// A geometry of a vector layer. Composite variants own their parts in order.
#[derive(Debug)]
pub enum Geometry {
    /// A single position.
    Point(Coord),
    /// An open path through its vertices.
    LineString(Vec<Coord>),
    /// Rings of vertices: the exterior ring first, then the holes.
    Polygon(Vec<Vec<Coord>>),
    MultiPoint(Vec<Geometry>),
    MultiLineString(Vec<Geometry>),
    MultiPolygon(Vec<Geometry>),
    GeometryCollection(Vec<Geometry>),
    /// Any other kind of geometry, known only by its parts.
    Other(Vec<Geometry>),
}

/// The quotient of `n` by a positive `d`, rounded towards zero.
pub open spec fn toward_zero(n: int, d: int) -> int {
    if n >= 0 {
        n / d
    } else {
        -((-n) / d)
    }
}

/// The nearest value that a signed 32-bit pixel coordinate can take.
pub open spec fn saturate(v: int) -> int {
    if v < i32::MIN {
        i32::MIN as int
    } else if v > i32::MAX {
        i32::MAX as int
    } else {
        v
    }
}

/// The window through which a layer is drawn: the layer's extent and the size in
/// pixels of the image that the extent is stretched over.
#[derive(Clone, Copy, Debug, PartialEq, Eq, Structural)]
pub struct Viewport {
    pub extent: Extent,
    pub width: u32,
    pub height: u32,
}

impl Viewport {
    /// The extent can be divided by.
    pub open spec fn wf(self) -> bool {
        self.extent.wf()
    }

    /// The pixel column of a layer x coordinate: `(x - min_x) * width / span_x`,
    /// rounded towards zero.
    pub open spec fn pixel_x(self, x: int) -> int {
        saturate(toward_zero((x - self.extent.min_x) * self.width, self.extent.span_x()))
    }

    /// The pixel row of a layer y coordinate: `height - (y - min_y) * height / span_y`,
    /// rounded towards zero. Rows count downwards while y counts upwards.
    pub open spec fn pixel_y(self, y: int) -> int {
        saturate(
            toward_zero(
                self.height * self.extent.span_y() - (y - self.extent.min_y) * self.height,
                self.extent.span_y(),
            ),
        )
    }

    /// Maps a layer position to its pixel.
    pub fn to_pixel(&self, c: Coord) -> (p: (i32, i32))
        requires
            self.wf(),
        ensures
            p.0 == self.pixel_x(c.x as int),
            p.1 == self.pixel_y(c.y as int),
    {
        let span_x: i128 = self.extent.max_x as i128 - self.extent.min_x as i128;
        let span_y: i128 = self.extent.max_y as i128 - self.extent.min_y as i128;
        let off_x: i128 = c.x as i128 - self.extent.min_x as i128;
        let off_y: i128 = c.y as i128 - self.extent.min_y as i128;
        let w: i128 = self.width as i128;
        let h: i128 = self.height as i128;
        assert(-0x1_0000_0000_0000_0000_0000_0000 <= off_x * w <= 0x1_0000_0000_0000_0000_0000_0000)
            by (nonlinear_arith)
            requires
                -0x1_0000_0000_0000_0000 <= off_x <= 0x1_0000_0000_0000_0000,
                0 <= w <= 0x1_0000_0000,
        ;
        assert(-0x1_0000_0000_0000_0000_0000_0000 <= off_y * h <= 0x1_0000_0000_0000_0000_0000_0000)
            by (nonlinear_arith)
            requires
                -0x1_0000_0000_0000_0000 <= off_y <= 0x1_0000_0000_0000_0000,
                0 <= h <= 0x1_0000_0000,
        ;
        assert(0 <= h * span_y <= 0x1_0000_0000_0000_0000_0000_0000) by (nonlinear_arith)
            requires
                0 <= span_y <= 0x1_0000_0000_0000_0000,
                0 <= h <= 0x1_0000_0000,
        ;
        let px = clamp_pixel((off_x * w) / span_x);
        let py = clamp_pixel((h * span_y - off_y * h) / span_y);
        (px, py)
    }
}

/// Brings a value into the range of a signed 32-bit pixel coordinate.
pub fn clamp_pixel(v: i128) -> (p: i32)
    ensures
        p == saturate(v as int),
{
    if v < i32::MIN as i128 {
        i32::MIN
    } else if v > i32::MAX as i128 {
        i32::MAX
    } else {
        v as i32
    }
}

/// The minimum corner of the extent maps to the bottom-left corner of the image and
/// the maximum corner to the top-right one, whenever the image size fits a pixel
/// coordinate.
pub proof fn lemma_extent_corners(view: Viewport)
    requires
        view.wf(),
        view.width <= i32::MAX,
        view.height <= i32::MAX,
    ensures
        view.pixel_x(view.extent.min_x as int) == 0,
        view.pixel_y(view.extent.min_y as int) == view.height,
        view.pixel_x(view.extent.max_x as int) == view.width,
        view.pixel_y(view.extent.max_y as int) == 0,
{
    let sx = view.extent.span_x();
    let sy = view.extent.span_y();
    let w = view.width as int;
    let h = view.height as int;
    assert((view.extent.min_x - view.extent.min_x) * w == 0) by (nonlinear_arith);
    assert((view.extent.min_y - view.extent.min_y) * h == 0) by (nonlinear_arith);
    assert(0int / sx == 0) by (nonlinear_arith)
        requires
            sx > 0,
    ;
    assert(0int / sy == 0) by (nonlinear_arith)
        requires
            sy > 0,
    ;
    assert(sx * w == w * sx && w * sx >= 0) by (nonlinear_arith)
        requires
            sx > 0,
            w >= 0,
    ;
    assert(h * sy >= 0 && sy * h == h * sy) by (nonlinear_arith)
        requires
            sy > 0,
            h >= 0,
    ;
    vstd::arithmetic::div_mod::lemma_div_multiples_vanish(w, sx);
    vstd::arithmetic::div_mod::lemma_div_multiples_vanish(h, sy);
}

} // verus!
