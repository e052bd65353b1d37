//! The raster compositor: chooses the output size and the bands, and assembles three
//! normalized bands into an RGB canvas.

use crate::arith::{lemma_quotient_bounds, lemma_quotient_monotone};
use crate::canvas::{canvas_height, canvas_width, lemma_index_in_range, size_fits, Canvas, Color};
use crate::error::RenderError;
use crate::normalize::{
    display_bytes, normalize_shared, percentile_range, pooled_values, Fraction, Sample,
};
use vstd::prelude::*;

verus! {

/// The most pixels that a raster is rendered with when no maximum resolution is set.
pub const MAX_PIXELS: usize = 16_000_000;

/// Whether `r` is the square root of `n`, rounded down.
pub open spec fn is_floor_sqrt(r: int, n: int) -> bool {
    0 <= r && r * r <= n < (r + 1) * (r + 1)
}

/// The square root of `n`, rounded down.
pub open spec fn floor_sqrt(n: int) -> int {
    choose|r: int| is_floor_sqrt(r, n)
}

/// A number has at most one rounded-down square root.
pub proof fn lemma_floor_sqrt_unique(r1: int, r2: int, n: int)
    requires
        is_floor_sqrt(r1, n),
        is_floor_sqrt(r2, n),
    ensures
        r1 == r2,
{
    if r1 < r2 {
        assert((r1 + 1) * (r1 + 1) <= r2 * r2) by (nonlinear_arith)
            requires
                0 <= r1,
                r1 + 1 <= r2,
        ;
    } else if r2 < r1 {
        assert((r2 + 1) * (r2 + 1) <= r1 * r1) by (nonlinear_arith)
            requires
                0 <= r2,
                r2 + 1 <= r1,
        ;
    }
}

/// Computes the square root of `n`, rounded down.
pub fn integer_sqrt(n: u128) -> (r: u64)
    requires
        n < 0x1_0000_0000_0000_0000_0000_0000_0000,
    ensures
        is_floor_sqrt(r as int, n as int),
        r == floor_sqrt(n as int),
        r < 0x1_0000_0000_0000_00,
{
    let mut lo: u128 = 0;
    let mut hi: u128 = 0x1_0000_0000_0000_00;
    assert(0x1_0000_0000_0000_00 * 0x1_0000_0000_0000_00 == 0x1_0000_0000_0000_0000_0000_0000_0000int)
        by (nonlinear_arith);
    while hi - lo > 1
        invariant
            lo < hi <= 0x1_0000_0000_0000_00,
            lo * lo <= n < hi * hi,
        decreases hi - lo,
    {
        let mid: u128 = lo + (hi - lo) / 2;
        assert(mid * mid < 0x1_0000_0000_0000_00 * 0x1_0000_0000_0000_00) by (nonlinear_arith)
            requires
                0 <= mid < 0x1_0000_0000_0000_00,
        ;
        if mid * mid <= n {
            lo = mid;
        } else {
            hi = mid;
        }
    }
    proof {
        assert(is_floor_sqrt(lo as int, n as int));
        let chosen = floor_sqrt(n as int);
        lemma_floor_sqrt_unique(lo as int, chosen, n as int);
    }
    lo as u64
}

/// An output side is at least one pixel.
pub open spec fn at_least_one(v: int) -> int {
    if v < 1 {
        1
    } else {
        v
    }
}

/// The longer of two sides.
pub open spec fn longer_side(width: int, height: int) -> int {
    if width >= height {
        width
    } else {
        height
    }
}

/// The output size of a raster. With a maximum resolution set, the longer side is
/// scaled down to it and the other side by the same factor, never up; each side is at
/// least one pixel. With none set, a source of at most `MAX_PIXELS` pixels keeps its
/// size, and a larger one is scaled down on both sides by the square root of
/// `MAX_PIXELS / (width * height)`, each side rounded down and at least one pixel.
pub open spec fn raster_size(width: int, height: int, max_res: int) -> (int, int) {
    if max_res > 0 {
        if longer_side(width, height) <= max_res {
            (at_least_one(width), at_least_one(height))
        } else {
            (
                at_least_one(width * max_res / longer_side(width, height)),
                at_least_one(height * max_res / longer_side(width, height)),
            )
        }
    } else if width * height > MAX_PIXELS {
        (
            at_least_one(floor_sqrt(width * MAX_PIXELS / height)),
            at_least_one(floor_sqrt(height * MAX_PIXELS / width)),
        )
    } else {
        (width, height)
    }
}

/// `side * max_res / longer`, rounded down and at least one.
fn scaled_side(side: usize, max_res: usize, longer: usize) -> (r: usize)
    requires
        side <= longer,
        0 < max_res < longer,
    ensures
        r == at_least_one(side * max_res / (longer as int)),
        r <= max_res,
        side == longer ==> r == max_res,
{
    assert(0 <= side * max_res <= longer * max_res <= 0xffff_ffff_ffff_ffff * 0xffff_ffff_ffff_ffff)
        by (nonlinear_arith)
        requires
            0 <= side <= longer <= 0xffff_ffff_ffff_ffff,
            0 < max_res <= 0xffff_ffff_ffff_ffff,
    ;
    let q: u128 = (side as u128) * (max_res as u128) / (longer as u128);
    proof {
        lemma_quotient_monotone(side * max_res, longer * max_res, longer as int);
        vstd::arithmetic::div_mod::lemma_div_multiples_vanish(max_res as int, longer as int);
        assert(longer * max_res == (longer as int) * (max_res as int));
        assert((longer as int) * (max_res as int) == (max_res as int) * (longer as int))
            by (nonlinear_arith);
    }
    if q < 1 {
        1
    } else {
        q as usize
    }
}

/// The side of a source that exceeds the pixel budget, scaled down by the square root
/// of `MAX_PIXELS / (side * other)`, rounded down and at least one.
fn budget_side(side: usize, other: usize) -> (r: usize)
    requires
        side * other > MAX_PIXELS,
    ensures
        r == at_least_one(floor_sqrt(side * MAX_PIXELS / (other as int))),
{
    assert(other > 0 && side > 0) by (nonlinear_arith)
        requires
            side * other > 0,
            side >= 0,
            other >= 0,
    ;
    assert(0 <= side * MAX_PIXELS < 0x1_0000_0000_0000_0000 * 0x1_00_0000) by (nonlinear_arith)
        requires
            0 <= side < 0x1_0000_0000_0000_0000,
            MAX_PIXELS == 16_000_000,
    ;
    let ratio: u128 = (side as u128) * (MAX_PIXELS as u128) / (other as u128);
    proof {
        lemma_quotient_monotone(0, side * MAX_PIXELS, other as int);
        lemma_quotient_bounds(side * MAX_PIXELS, other as int);
        assert(ratio <= side * MAX_PIXELS) by (nonlinear_arith)
            requires
                (ratio as int) * (other as int) <= side * MAX_PIXELS,
                other >= 1,
                ratio >= 0,
        ;
    }
    let root = integer_sqrt(ratio);
    proof {
        // the root is below the side itself, so it fits
        assert(root <= side) by {
            // ratio < side * side, since MAX_PIXELS < side * other
            if root > side {
                assert(root * root >= (side + 1) * (side + 1)) by (nonlinear_arith)
                    requires
                        root >= side + 1,
                        side >= 0,
                ;
                assert((side + 1) * (side + 1) > side * side) by (nonlinear_arith)
                    requires
                        side >= 0,
                ;
                assert(side * MAX_PIXELS < (side * side) * other) by (nonlinear_arith)
                    requires
                        side * other > MAX_PIXELS,
                        side > 0,
                ;
                assert(ratio < side * side) by (nonlinear_arith)
                    requires
                        (ratio as int) * (other as int) <= side * MAX_PIXELS,
                        side * MAX_PIXELS < (side * side) * other,
                        other > 0,
                ;
            }
        }
    }
    if root < 1 {
        1
    } else {
        root as usize
    }
}

/// Chooses the output size of a raster.
pub fn output_dimensions(src_width: usize, src_height: usize, max_res: usize) -> (size: (
    usize,
    usize,
))
    ensures
        (size.0 as int, size.1 as int) == raster_size(
            src_width as int,
            src_height as int,
            max_res as int,
        ),
{
    let longer = if src_width >= src_height {
        src_width
    } else {
        src_height
    };
    if max_res > 0 {
        if longer <= max_res {
            (
                if src_width < 1 {
                    1
                } else {
                    src_width
                },
                if src_height < 1 {
                    1
                } else {
                    src_height
                },
            )
        } else {
            (scaled_side(src_width, max_res, longer), scaled_side(src_height, max_res, longer))
        }
    } else {
        assert(0 <= src_width * src_height <= 0xffff_ffff_ffff_ffff * 0xffff_ffff_ffff_ffff)
            by (nonlinear_arith)
            requires
                0 <= src_width <= 0xffff_ffff_ffff_ffff,
                0 <= src_height <= 0xffff_ffff_ffff_ffff,
        ;
        let total: u128 = (src_width as u128) * (src_height as u128);
        if total > MAX_PIXELS as u128 {
            assert(src_height * src_width == src_width * src_height) by (nonlinear_arith);
            (budget_side(src_width, src_height), budget_side(src_height, src_width))
        } else {
            (src_width, src_height)
        }
    }
}

/// With no maximum resolution set, a source within the pixel budget keeps its size.
pub proof fn lemma_native_size(width: int, height: int)
    requires
        width * height <= MAX_PIXELS,
    ensures
        raster_size(width, height, 0) == (width, height),
{
}

/// With a maximum resolution set that the source exceeds, the longer side of the
/// output is the maximum resolution and the other side is no longer than that.
pub proof fn lemma_longer_side_capped(width: int, height: int, max_res: int)
    requires
        0 <= width,
        0 <= height,
        0 < max_res < longer_side(width, height),
    ensures
        longer_side(
            raster_size(width, height, max_res).0,
            raster_size(width, height, max_res).1,
        ) == max_res,
        width >= height ==> raster_size(width, height, max_res).0 == max_res,
        height >= width ==> raster_size(width, height, max_res).1 == max_res,
{
    let longer = longer_side(width, height);
    vstd::arithmetic::div_mod::lemma_div_multiples_vanish(max_res, longer);
    assert(longer * max_res == max_res * longer) by (nonlinear_arith);
    assert(width * max_res <= longer * max_res && height * max_res <= longer * max_res)
        by (nonlinear_arith)
        requires
            0 <= width <= longer,
            0 <= height <= longer,
            max_res > 0,
    ;
    lemma_quotient_monotone(width * max_res, longer * max_res, longer);
    lemma_quotient_monotone(height * max_res, longer * max_res, longer);
}

/// A maximum resolution never scales a source up: no side of the output is longer
/// than the source's, but for the one pixel that every side has at least.
pub proof fn lemma_never_upscaled(width: int, height: int, max_res: int)
    requires
        0 <= width,
        0 <= height,
        0 < max_res,
    ensures
        raster_size(width, height, max_res).0 <= at_least_one(width),
        raster_size(width, height, max_res).1 <= at_least_one(height),
{
    let longer = longer_side(width, height);
    if longer > max_res {
        assert(width * max_res <= width * longer && height * max_res <= height * longer)
            by (nonlinear_arith)
            requires
                0 <= width,
                0 <= height,
                0 < max_res < longer,
        ;
        lemma_quotient_monotone(width * max_res, width * longer, longer);
        lemma_quotient_monotone(height * max_res, height * longer, longer);
        vstd::arithmetic::div_mod::lemma_div_multiples_vanish(width, longer);
        vstd::arithmetic::div_mod::lemma_div_multiples_vanish(height, longer);
        assert(width * longer == longer * width) by (nonlinear_arith);
        assert(height * longer == longer * height) by (nonlinear_arith);
    }
}

/// The three bands that are shown as red, green and blue. Bands count from 1.
#[derive(Clone, Copy, Debug, PartialEq, Eq, Structural)]
pub struct BandTriplet {
    pub red: usize,
    pub green: usize,
    pub blue: usize,
}

/// The bands to show. Of three or more requested bands the first three are taken; a
/// single requested band is shown in gray. Any other request falls back to bands 1, 2
/// and 3 where the dataset has three bands, and to band 1 in gray where it has fewer.
pub open spec fn selected_bands(requested: Option<Seq<usize>>, band_count: int) -> BandTriplet {
    match requested {
        Some(b) if b.len() >= 3 => BandTriplet { red: b[0], green: b[1], blue: b[2] },
        Some(b) if b.len() == 1 => BandTriplet { red: b[0], green: b[0], blue: b[0] },
        _ => if band_count >= 3 {
            BandTriplet { red: 1, green: 2, blue: 3 }
        } else {
            BandTriplet { red: 1, green: 1, blue: 1 }
        },
    }
}

/// The request as a sequence.
pub open spec fn request_view(requested: Option<Vec<usize>>) -> Option<Seq<usize>> {
    match requested {
        Some(b) => Some(b@),
        None => None,
    }
}

/// Chooses the bands to show.
pub fn select_bands(requested: &Option<Vec<usize>>, band_count: usize) -> (bands: BandTriplet)
    ensures
        bands == selected_bands(request_view(*requested), band_count as int),
{
    match requested {
        Some(b) => {
            if b.len() >= 3 {
                return BandTriplet { red: b[0], green: b[1], blue: b[2] };
            }
            if b.len() == 1 {
                return BandTriplet { red: b[0], green: b[0], blue: b[0] };
            }
        },
        None => {},
    }
    if band_count >= 3 {
        BandTriplet { red: 1, green: 2, blue: 3 }
    } else {
        BandTriplet { red: 1, green: 1, blue: 1 }
    }
}

/// Whether the dataset has a band of this number.
pub open spec fn band_exists(band: usize, band_count: usize) -> bool {
    1 <= band <= band_count
}

/// The first of red, green and blue that names a band which the dataset lacks.
pub open spec fn missing_band(bands: BandTriplet, band_count: usize) -> Option<usize> {
    if !band_exists(bands.red, band_count) {
        Some(bands.red)
    } else if !band_exists(bands.green, band_count) {
        Some(bands.green)
    } else if !band_exists(bands.blue, band_count) {
        Some(bands.blue)
    } else {
        None
    }
}

/// Checks that the dataset has each of the three bands, and names the first that it
/// lacks.
pub fn check_bands(bands: BandTriplet, band_count: usize) -> (r: Result<(), RenderError>)
    ensures
        match missing_band(bands, band_count) {
            Some(band) => r == Err::<(), RenderError>(RenderError::BandOutOfRange { band }),
            None => r.is_ok(),
        },
{
    if bands.red < 1 || bands.red > band_count {
        Err(RenderError::BandOutOfRange { band: bands.red })
    } else if bands.green < 1 || bands.green > band_count {
        Err(RenderError::BandOutOfRange { band: bands.green })
    } else if bands.blue < 1 || bands.blue > band_count {
        Err(RenderError::BandOutOfRange { band: bands.blue })
    } else {
        Ok(())
    }
}

/// What to read from a dataset for a render: the output size at which the bands are
/// sampled, and the bands.
#[derive(Clone, Copy, Debug, PartialEq, Eq, Structural)]
pub struct RasterPlan {
    pub out_width: usize,
    pub out_height: usize,
    pub bands: BandTriplet,
}

/// Plans the render of a raster: chooses the output size and the bands, and fails
/// with the band's number if a chosen band is not in the dataset.
pub fn plan_raster(
    src_width: usize,
    src_height: usize,
    band_count: usize,
    requested: &Option<Vec<usize>>,
    max_res: usize,
) -> (r: Result<RasterPlan, RenderError>)
    ensures
        ({
            let bands = selected_bands(request_view(*requested), band_count as int);
            let size = raster_size(src_width as int, src_height as int, max_res as int);
            match missing_band(bands, band_count) {
                Some(band) => r == Err::<RasterPlan, RenderError>(
                    RenderError::BandOutOfRange { band },
                ),
                None => r matches Ok(plan) && plan.bands == bands && plan.out_width == size.0
                    && plan.out_height == size.1,
            }
        }),
{
    let size = output_dimensions(src_width, src_height, max_res);
    let bands = select_bands(requested, band_count);
    match check_bands(bands, band_count) {
        Err(e) => Err(e),
        Ok(_) => Ok(RasterPlan { out_width: size.0, out_height: size.1, bands }),
    }
}

/// The percentile at which the stretch window starts: half the stretch.
pub open spec fn low_percentile(stretch: Fraction) -> Fraction {
    Fraction { num: stretch.num, den: (2 * stretch.den) as u64 }
}

/// The percentile at which the stretch window ends: one less half the stretch.
pub open spec fn high_percentile(stretch: Fraction) -> Fraction {
    Fraction { num: (2 * stretch.den - stretch.num) as u64, den: (2 * stretch.den) as u64 }
}

/// Whether the halves of a stretch can be written as fractions.
pub open spec fn stretch_fits(stretch: Fraction) -> bool {
    stretch.wf() && 2 * stretch.den <= u64::MAX
}

/// Splits a stretch, the share of samples to clip, evenly between the two ends of
/// the value range.
pub fn stretch_percentiles(stretch: Fraction) -> (p: (Fraction, Fraction))
    requires
        stretch_fits(stretch),
    ensures
        p.0 == low_percentile(stretch),
        p.1 == high_percentile(stretch),
        p.0.wf(),
        p.1.wf(),
{
    let den: u64 = 2 * stretch.den;
    (Fraction { num: stretch.num, den }, Fraction { num: den - stretch.num, den })
}

/// Whether a raster of this size can be rendered.
pub open spec fn raster_fits(out_width: int, out_height: int) -> bool {
    out_width <= u32::MAX && out_height <= u32::MAX && size_fits(out_width, out_height)
}

/// Why three bands of the given lengths cannot be rendered at the given size, if they
/// cannot: the image is too large to be held, or else a band does not hold one sample
/// per pixel.
pub open spec fn raster_error(
    red_len: nat,
    green_len: nat,
    blue_len: nat,
    out_width: int,
    out_height: int,
) -> Option<RenderError> {
    if !raster_fits(out_width, out_height) {
        Some(RenderError::ImageTooLarge)
    } else if red_len != out_width * out_height || green_len != out_width * out_height || blue_len
        != out_width * out_height {
        Some(RenderError::SampleCountMismatch)
    } else {
        None
    }
}

/// The colour that three normalized bands give the pixel `(x, y)` of an image
/// `width` wide.
pub open spec fn composite_pixel(
    red: Seq<u8>,
    green: Seq<u8>,
    blue: Seq<u8>,
    width: int,
    x: int,
    y: int,
) -> Color {
    Color { r: red[y * width + x], g: green[y * width + x], b: blue[y * width + x] }
}

/// Assembles three arrays of display values, one per colour, into a canvas.
pub fn compose_rgb(red: &Vec<u8>, green: &Vec<u8>, blue: &Vec<u8>, out_width: usize, out_height: usize) -> (r:
    Result<Canvas, RenderError>)
    ensures
        r.is_ok() <==> raster_error(
            red@.len(),
            green@.len(),
            blue@.len(),
            out_width as int,
            out_height as int,
        ).is_none(),
        r matches Err(e) ==> Some(e) == raster_error(
            red@.len(),
            green@.len(),
            blue@.len(),
            out_width as int,
            out_height as int,
        ),
        r matches Ok(c) ==> {
            &&& c.wf()
            &&& canvas_width(c) == out_width
            &&& canvas_height(c) == out_height
            &&& forall|x: int, y: int|
                #![trigger c.pixel_at(x, y)]
                c.contains(x, y) ==> c.pixel_at(x, y) == composite_pixel(
                    red@,
                    green@,
                    blue@,
                    out_width as int,
                    x,
                    y,
                )
        },
{
    if out_width > u32::MAX as usize || out_height > u32::MAX as usize {
        return Err(RenderError::ImageTooLarge);
    }
    let made = Canvas::blank(out_width as u32, out_height as u32);
    let mut canvas = match made {
        None => {
            return Err(RenderError::ImageTooLarge);
        },
        Some(c) => c,
    };
    assert(out_width * out_height == (out_width as int) * (out_height as int));
    assert(8 * out_width * out_height == 8 * (out_width * out_height)) by (nonlinear_arith);
    let area: usize = out_width * out_height;
    if red.len() != area || green.len() != area || blue.len() != area {
        return Err(RenderError::SampleCountMismatch);
    }
    let mut y: usize = 0;
    while y < out_height
        invariant
            y <= out_height,
            canvas.wf(),
            canvas_width(canvas) == out_width,
            canvas_height(canvas) == out_height,
            area == out_width * out_height,
            out_width <= u32::MAX,
            out_height <= u32::MAX,
            red@.len() == area,
            green@.len() == area,
            blue@.len() == area,
            forall|px: int, py: int|
                #![trigger canvas.pixel_at(px, py)]
                canvas.contains(px, py) && py < y ==> canvas.pixel_at(px, py) == composite_pixel(
                    red@,
                    green@,
                    blue@,
                    out_width as int,
                    px,
                    py,
                ),
        decreases out_height - y,
    {
        let mut x: usize = 0;
        while x < out_width
            invariant
                x <= out_width,
                y < out_height,
                canvas.wf(),
                canvas_width(canvas) == out_width,
                canvas_height(canvas) == out_height,
                area == out_width * out_height,
                out_width <= u32::MAX,
                out_height <= u32::MAX,
                red@.len() == area,
                green@.len() == area,
                blue@.len() == area,
                forall|px: int, py: int|
                    #![trigger canvas.pixel_at(px, py)]
                    canvas.contains(px, py) && (py < y || (py == y && px < x))
                        ==> canvas.pixel_at(px, py) == composite_pixel(
                        red@,
                        green@,
                        blue@,
                        out_width as int,
                        px,
                        py,
                    ),
            decreases out_width - x,
        {
            proof {
                lemma_index_in_range(out_width as int, out_height as int, x as int, y as int);
            }
            let idx: usize = y * out_width + x;
            let color = Color { r: red[idx], g: green[idx], b: blue[idx] };
            let ghost before = canvas;
            canvas.plot(x as i64, y as i64, color);
            assert forall|px: int, py: int|
                canvas.contains(px, py) && (py < y || (py == y && px < x + 1)) implies (
            #[trigger] canvas.pixel_at(px, py)) == composite_pixel(
                red@,
                green@,
                blue@,
                out_width as int,
                px,
                py,
            ) by {
                assert(before.contains(px, py));
                if !(px == x && py == y) {
                    assert(before.pixel_at(px, py) == composite_pixel(
                        red@,
                        green@,
                        blue@,
                        out_width as int,
                        px,
                        py,
                    ));
                }
            }
            x += 1;
        }
        y += 1;
    }
    Ok(canvas)
}

/// Renders three sampled bands as an RGB image. The bands are normalized with one
/// stretch window, read off their pooled valid samples at the percentiles
/// `stretch / 2` and `1 - stretch / 2`, and each pixel takes its red, green and blue
/// from the sample at its place in the three bands. The nodata sentinel holds for all
/// three bands.
pub fn render_raster(
    red: &[Sample],
    green: &[Sample],
    blue: &[Sample],
    nodata: Option<i64>,
    stretch: Fraction,
    out_width: usize,
    out_height: usize,
) -> (r: Result<Canvas, RenderError>)
    requires
        stretch_fits(stretch),
    ensures
        r.is_ok() <==> raster_error(
            red@.len(),
            green@.len(),
            blue@.len(),
            out_width as int,
            out_height as int,
        ).is_none(),
        r matches Err(e) ==> Some(e) == raster_error(
            red@.len(),
            green@.len(),
            blue@.len(),
            out_width as int,
            out_height as int,
        ),
        r matches Ok(c) ==> {
            let window = percentile_range(
                pooled_values(red@, green@, blue@, nodata),
                low_percentile(stretch),
                high_percentile(stretch),
            );
            &&& c.wf()
            &&& canvas_width(c) == out_width
            &&& canvas_height(c) == out_height
            &&& forall|x: int, y: int|
                #![trigger c.pixel_at(x, y)]
                c.contains(x, y) ==> c.pixel_at(x, y) == composite_pixel(
                    display_bytes(red@, nodata, window.0 as int, window.1 as int),
                    display_bytes(green@, nodata, window.0 as int, window.1 as int),
                    display_bytes(blue@, nodata, window.0 as int, window.1 as int),
                    out_width as int,
                    x,
                    y,
                )
        },
{
    let p = stretch_percentiles(stretch);
    let bytes = normalize_shared(red, green, blue, nodata, p.0, p.1);
    compose_rgb(&bytes.0, &bytes.1, &bytes.2, out_width, out_height)
}

} // verus!
