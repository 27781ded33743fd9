//! Marking the registration circles on a color copy of a scan.

use vstd::prelude::*;
use crate::point::Point;
use crate::raster::{RgbCanvas, lemma_index_in_grid};
use crate::ray::{signed32, signed_of};

verus! {

/// Red, the color of the registration marks.
pub open spec fn spec_red() -> [u8; 3] {
    [255u8, 0u8, 0u8]
}

/// The pixel `(px, py)` belongs to the plus-shaped cross centered on `(x, y)`:
/// the center and its four direct neighbours.
pub open spec fn in_cross(px: int, py: int, x: int, y: int) -> bool {
    (px == x && y - 1 <= py <= y + 1) || (py == y && x - 1 <= px <= x + 1)
}

/// Pixel `i` (bytes `3 * i` to `3 * i + 2`) of `new` is that of `old`, or is
/// entirely `color`.
pub open spec fn pixel_kept_or(new: Seq<u8>, old: Seq<u8>, i: int, color: [u8; 3]) -> bool {
    ||| (new[3 * i] == old[3 * i] && new[3 * i + 1] == old[3 * i + 1] && new[3 * i + 2] == old[3 * i + 2])
    ||| (new[3 * i] == color[0] && new[3 * i + 1] == color[1] && new[3 * i + 2] == color[2])
}

/// The channel bytes of a `width` by `height` image after the pixels of the
/// cross centered on `(x, y)` that lie inside it are set to `color` (an image
/// with a side beyond `i32::MAX` is left as it is: its size, read as an
/// `i32`, is negative and no pixel passes the bounds test).
pub open spec fn cross_drawn(pixels: Seq<u8>, width: u32, height: u32, color: [u8; 3], x: int, y: int) -> Seq<u8> {
    Seq::new(
        pixels.len(),
        |k: int|
            if width <= i32::MAX && height <= i32::MAX && in_cross((k / 3) % (width as int), (k / 3) / (width as int), x, y) {
                color[k % 3]
            } else {
                pixels[k]
            },
    )
}

/// The channel bytes of a `width` by `height` image after
/// `imageproc::drawing::draw_hollow_circle_mut` draws on it, in `color`, the
/// outline of the circle of the given center and radius.
pub uninterp spec fn hollow_circle_drawn(pixels: Seq<u8>, width: u32, height: u32, cx: i32, cy: i32, radius: i32, color: [u8; 3]) -> Seq<u8>;

/// `imageproc::drawing::draw_cross_mut`. Its source sets to `color` each
/// pixel of the plus-shaped stencil (the center and its four neighbours)
/// centered on `(x, y)` that lies inside the image, and touches no other;
/// it compares coordinates with the image's size read as an `i32`.
/// It computes `y - 1`, `y + 1` and `x - 1`, `x + 1` in `i32`, hence the bounds.
#[verifier::external_body]
fn draw_cross(canvas: &mut RgbCanvas, color: [u8; 3], x: i32, y: i32)
    requires
        i32::MIN < x < i32::MAX,
        i32::MIN < y < i32::MAX,
    ensures
        final(canvas).spec_width() == old(canvas).spec_width(),
        final(canvas).spec_height() == old(canvas).spec_height(),
        final(canvas).raw() == cross_drawn(old(canvas).raw(), old(canvas).spec_width(), old(canvas).spec_height(), color, x as int, y as int),
{
    let data = std::mem::take(&mut canvas.data);
    let mut img = image::RgbImage::from_raw(canvas.width, canvas.height, data).unwrap();
    imageproc::drawing::draw_cross_mut(&mut img, image::Rgb(color), x, y);
    canvas.data = img.into_raw();
}

/// `imageproc::drawing::draw_hollow_circle_mut`. What it draws is named
/// `hollow_circle_drawn`; beyond the size and the length of the buffer,
/// which it keeps, its source shows that each pixel is left as it was or
/// set, all three channels at once, to `color` (the eight-way midpoint
/// algorithm only sets whole pixels inside the image to `color`, through
/// `put_pixel`), and that a negative radius
/// draws nothing (its loop runs while `0 <= y`, `y` starting at the radius).
/// Which pixels the outline covers is not stated. Its `i32` arithmetic must
/// not overflow: `1 - radius` needs `radius >= i32::MIN + 2`; for a
/// nonnegative radius, `center ± radius` must stay in range, and the
/// decision variable and its increments `2 * x + 1` and `2 * (x - y) + 1`
/// stay within `2 * radius + 6` in size (the decision variable equals
/// `(x + 1)² + y² - y - radius²`, kept within about `2 * radius` of 0), so
/// `2 * radius + 6 <= i32::MAX` suffices; at about `2^30 + 2^15` the first
/// `2 * (x - y)` overflows.
#[verifier::external_body]
fn draw_hollow_circle(canvas: &mut RgbCanvas, center: (i32, i32), radius: i32, color: [u8; 3])
    requires
        i32::MIN + 1 < radius,
        0 <= radius ==> circle_fits(center.0 as int, center.1 as int, radius as int),
    ensures
        final(canvas).spec_width() == old(canvas).spec_width(),
        final(canvas).spec_height() == old(canvas).spec_height(),
        final(canvas).raw() == hollow_circle_drawn(old(canvas).raw(), old(canvas).spec_width(), old(canvas).spec_height(), center.0, center.1, radius, color),
        final(canvas).raw().len() == old(canvas).raw().len(),
        forall|i: int| 0 <= i < final(canvas).raw().len() / 3 ==>
            #[trigger] pixel_kept_or(final(canvas).raw(), old(canvas).raw(), i, color),
        radius < 0 ==> final(canvas).raw() == old(canvas).raw(),
{
    let data = std::mem::take(&mut canvas.data);
    let mut img = image::RgbImage::from_raw(canvas.width, canvas.height, data).unwrap();
    imageproc::drawing::draw_hollow_circle_mut(&mut img, center, radius, image::Rgb(color));
    canvas.data = img.into_raw();
}

/// A circle of this center and nonnegative radius can be drawn without its
/// `i32` arithmetic overflowing: its coordinates stay in range, and so do
/// the midpoint algorithm's decision variable and increments, which stay
/// within `2 * radius + 6` in size.
pub open spec fn circle_fits(cx: int, cy: int, radius: int) -> bool {
    &&& 0 <= radius
    &&& 2 * radius + 6 <= i32::MAX
    &&& i32::MIN <= cx - radius
    &&& cx + radius <= i32::MAX
    &&& i32::MIN <= cy - radius
    &&& cy + radius <= i32::MAX
}

/// The outlines of radius `radius`, `radius + 1`, .. `radius + n - 1` around
/// `(cx, cy)`, drawn in that order, each radius read as an `i32`.
pub open spec fn rings_drawn(pixels: Seq<u8>, width: u32, height: u32, cx: i32, cy: i32, radius: u32, n: int) -> Seq<u8>
    decreases n,
{
    if n <= 0 {
        pixels
    } else {
        hollow_circle_drawn(
            rings_drawn(pixels, width, height, cx, cy, radius, n - 1),
            width,
            height,
            cx,
            cy,
            signed32((radius + n - 1) as u32) as i32,
            spec_red(),
        )
    }
}

/// The registration marks drawn around the first `n` centers, in order: a
/// red cross on each center (its coordinates read as `i32`), followed, with
/// `rings`, by four red outlines of radius `radius` to `radius + 3`.
pub open spec fn marks_drawn(pixels: Seq<u8>, width: u32, height: u32, centers: Seq<Point>, radius: u32, rings: bool, n: int) -> Seq<u8>
    decreases n,
{
    if n <= 0 {
        pixels
    } else {
        let before = marks_drawn(pixels, width, height, centers, radius, rings, n - 1);
        let c = centers[n - 1];
        let cx = signed32(c.x);
        let cy = signed32(c.y);
        let crossed = cross_drawn(before, width, height, spec_red(), cx, cy);
        if rings {
            rings_drawn(crossed, width, height, cx as i32, cy as i32, radius, 4)
        } else {
            crossed
        }
    }
}

/// The marks around a center can be drawn: the cross's neighbours and, with
/// rings, the four outlines stay in the `i32` range.
pub open spec fn mark_fits(c: Point, radius: u32, rings: bool) -> bool {
    let cx = signed32(c.x);
    let cy = signed32(c.y);
    &&& i32::MIN < cx < i32::MAX
    &&& i32::MIN < cy < i32::MAX
    &&& rings ==> {
        &&& radius + 3 <= u32::MAX
        &&& forall|i: int| 0 <= i < 4 ==> #[trigger] ring_fits(cx, cy, radius, i)
    }
}

/// The outline of radius `radius + i`, read as an `i32`, around `(cx, cy)`
/// can be drawn.
pub open spec fn ring_fits(cx: int, cy: int, radius: u32, i: int) -> bool {
    let r = signed32((radius + i) as u32);
    &&& i32::MIN + 1 < r
    &&& 0 <= r ==> circle_fits(cx, cy, r)
}

/// Drawing a cross keeps each pixel or sets it wholly to the color.
proof fn lemma_cross_pixels(old: Seq<u8>, width: u32, height: u32, color: [u8; 3], x: int, y: int)
    ensures
        cross_drawn(old, width, height, color, x, y).len() == old.len(),
        forall|i: int| 0 <= i < old.len() / 3 ==>
            #[trigger] pixel_kept_or(cross_drawn(old, width, height, color, x, y), old, i, color),
{
    let new = cross_drawn(old, width, height, color, x, y);
    assert forall|i: int| 0 <= i < old.len() / 3 implies #[trigger] pixel_kept_or(new, old, i, color) by {
        assert((3 * i) / 3 == i && (3 * i + 1) / 3 == i && (3 * i + 2) / 3 == i);
        assert((3 * i) % 3 == 0 && (3 * i + 1) % 3 == 1 && (3 * i + 2) % 3 == 2);
        assert(3 * i + 2 < old.len());
    }
}

/// Keeping each pixel or setting it to the color, twice over, keeps each
/// pixel of the first image or sets it to the color.
proof fn lemma_pixels_kept_trans(a: Seq<u8>, b: Seq<u8>, c: Seq<u8>, color: [u8; 3])
    requires
        b.len() == a.len(),
        c.len() == a.len(),
        forall|i: int| 0 <= i < b.len() / 3 ==> #[trigger] pixel_kept_or(b, a, i, color),
        forall|i: int| 0 <= i < c.len() / 3 ==> #[trigger] pixel_kept_or(c, b, i, color),
    ensures
        forall|i: int| 0 <= i < c.len() / 3 ==> #[trigger] pixel_kept_or(c, a, i, color),
{
    assert forall|i: int| 0 <= i < c.len() / 3 implies #[trigger] pixel_kept_or(c, a, i, color) by {
        assert(pixel_kept_or(b, a, i, color));
        assert(pixel_kept_or(c, b, i, color));
    }
}

/// The value a `u32` has when read as an `i32`.
fn as_i32(v: u32) -> (res: i32)
    ensures
        res == signed32(v),
{
    if v <= 0x7fff_ffff {
        v as i32
    } else {
        (v as i64 - 0x1_0000_0000) as i32
    }
}

/// The pixel at `c` of an image `width` pixels wide is red, on all three
/// channels.
pub open spec fn red_at(pixels: Seq<u8>, width: u32, c: Point) -> bool {
    let p = c.y * width + c.x;
    &&& pixels[3 * p] == 255
    &&& pixels[3 * p + 1] == 0
    &&& pixels[3 * p + 2] == 0
}

/// `c` is a pixel of a `width` by `height` image whose sides can be read as
/// `i32`, where the drawing routines reach every pixel.
pub open spec fn inside_drawable(width: u32, height: u32, c: Point) -> bool {
    c.x < width && c.y < height && width <= i32::MAX && height <= i32::MAX
}

/// Pixel `c.y * width + c.x` starts at byte `3 * (c.y * width + c.x)`, and
/// its three bytes lie in an image of `width` by `height` pixels.
proof fn lemma_pixel_bytes(width: u32, height: u32, c: Point)
    requires
        c.x < width,
        c.y < height,
    ensures
        ({
            let p = c.y * width + c.x;
            &&& 0 <= p < width * height
            &&& (3 * p) / 3 == p && (3 * p + 1) / 3 == p && (3 * p + 2) / 3 == p
            &&& (3 * p) % 3 == 0 && (3 * p + 1) % 3 == 1 && (3 * p + 2) % 3 == 2
            &&& p % (width as int) == c.x
            &&& p / (width as int) == c.y
        }),
{
    let p = c.y * width + c.x;
    lemma_index_in_grid(c.x as int, c.y as int, width as int, height as int);
    vstd::arithmetic::div_mod::lemma_fundamental_div_mod_converse(p, width as int, c.y as int, c.x as int);
}

/// A red cross drawn on `c`, inside the image, makes the pixel at `c` red.
proof fn lemma_cross_reddens_center(pixels: Seq<u8>, width: u32, height: u32, c: Point)
    requires
        pixels.len() == 3 * (width * height),
        inside_drawable(width, height, c),
    ensures
        red_at(cross_drawn(pixels, width, height, spec_red(), signed32(c.x), signed32(c.y)), width, c),
{
    lemma_pixel_bytes(width, height, c);
}

/// A pixel that was red stays red when each pixel is kept or set to red.
proof fn lemma_red_kept(new: Seq<u8>, old: Seq<u8>, width: u32, height: u32, c: Point)
    requires
        old.len() == 3 * (width * height),
        new.len() == old.len(),
        c.x < width,
        c.y < height,
        red_at(old, width, c),
        forall|i: int| 0 <= i < new.len() / 3 ==> #[trigger] pixel_kept_or(new, old, i, spec_red()),
    ensures
        red_at(new, width, c),
{
    lemma_pixel_bytes(width, height, c);
    assert(pixel_kept_or(new, old, c.y * width + c.x, spec_red()));
}

/// Every center inside the image gets its red cross: after the crosses of
/// the first `n` centers are drawn (without outlines), the pixel at each of
/// those centers is red, whatever came later.
pub proof fn lemma_crosses_cover_centers(pixels: Seq<u8>, width: u32, height: u32, centers: Seq<Point>, radius: u32, n: int, i: int)
    requires
        pixels.len() == 3 * (width * height),
        0 <= i < n <= centers.len(),
        inside_drawable(width, height, centers[i]),
    ensures
        red_at(marks_drawn(pixels, width, height, centers, radius, false, n), width, centers[i]),
    decreases n,
{
    let before = marks_drawn(pixels, width, height, centers, radius, false, n - 1);
    lemma_marks_len(pixels, width, height, centers, radius, n - 1);
    let c = centers[n - 1];
    let after = cross_drawn(before, width, height, spec_red(), signed32(c.x), signed32(c.y));
    assert(marks_drawn(pixels, width, height, centers, radius, false, n) == after);
    if i == n - 1 {
        lemma_cross_reddens_center(before, width, height, c);
    } else {
        lemma_crosses_cover_centers(pixels, width, height, centers, radius, n - 1, i);
        lemma_cross_pixels(before, width, height, spec_red(), signed32(c.x), signed32(c.y));
        lemma_red_kept(after, before, width, height, centers[i]);
    }
}

/// Drawing crosses alone keeps the buffer's length.
proof fn lemma_marks_len(pixels: Seq<u8>, width: u32, height: u32, centers: Seq<Point>, radius: u32, n: int)
    ensures
        marks_drawn(pixels, width, height, centers, radius, false, n).len() == pixels.len(),
    decreases n,
{
    if n > 0 {
        lemma_marks_len(pixels, width, height, centers, radius, n - 1);
    }
}

/// Draws, for each center in order, a red cross on it and, with `rings`,
/// four red outlines of radius `radius` to `radius + 3` around it.
pub fn mark_centers(canvas: &mut RgbCanvas, centers: &[Point; 3], radius: u32, rings: bool)
    requires
        forall|i: int| 0 <= i < 3 ==> mark_fits(#[trigger] centers[i], radius, rings),
    ensures
        final(canvas).spec_width() == old(canvas).spec_width(),
        final(canvas).spec_height() == old(canvas).spec_height(),
        final(canvas).raw() == marks_drawn(old(canvas).raw(), old(canvas).spec_width(), old(canvas).spec_height(), centers@, radius, rings, 3),
        final(canvas).raw().len() == old(canvas).raw().len(),
        forall|i: int| 0 <= i < final(canvas).raw().len() / 3 ==>
            #[trigger] pixel_kept_or(final(canvas).raw(), old(canvas).raw(), i, spec_red()),
        forall|i: int| 0 <= i < 3 && inside_drawable(old(canvas).spec_width(), old(canvas).spec_height(), #[trigger] centers[i])
            ==> red_at(final(canvas).raw(), old(canvas).spec_width(), centers[i]),
{
    proof {
        use_type_invariant(&*canvas);
    }
    let red: [u8; 3] = [255, 0, 0];
    assert(red == spec_red());
    let ghost w = canvas.spec_width();
    let ghost h = canvas.spec_height();
    let ghost start = canvas.raw();
    let mut j: usize = 0;
    while j < 3
        invariant
            j <= 3,
            red == spec_red(),
            canvas.spec_width() == w,
            canvas.spec_height() == h,
            forall|i: int| 0 <= i < 3 ==> mark_fits(#[trigger] centers[i], radius, rings),
            canvas.raw() == marks_drawn(start, w, h, centers@, radius, rings, j as int),
            canvas.raw().len() == start.len(),
            forall|p: int| 0 <= p < canvas.raw().len() / 3 ==>
                #[trigger] pixel_kept_or(canvas.raw(), start, p, spec_red()),
            start.len() == 3 * (w * h),
            forall|l: int| 0 <= l < j && inside_drawable(w, h, #[trigger] centers[l]) ==> red_at(canvas.raw(), w, centers[l]),
        decreases 3 - j,
    {
        let c = centers[j];
        assert(mark_fits(centers[j as int], radius, rings));
        let x = as_i32(c.x);
        let y = as_i32(c.y);
        let ghost before = canvas.raw();
        draw_cross(canvas, red, x, y);
        proof {
            lemma_cross_pixels(before, w, h, red, x as int, y as int);
            lemma_pixels_kept_trans(start, before, canvas.raw(), spec_red());
            assert forall|l: int| 0 <= l <= j && inside_drawable(w, h, #[trigger] centers[l]) implies red_at(canvas.raw(), w, centers[l]) by {
                if l == j {
                    lemma_cross_reddens_center(before, w, h, c);
                } else {
                    lemma_red_kept(canvas.raw(), before, w, h, centers[l]);
                }
            }
        }
        if rings {
            let ghost crossed = canvas.raw();
            let mut i: u32 = 0;
            while i < 4
                invariant
                    i <= 4,
                    red == spec_red(),
                    rings,
                    canvas.spec_width() == w,
                    canvas.spec_height() == h,
                    mark_fits(c, radius, rings),
                    x == signed32(c.x),
                    y == signed32(c.y),
                    canvas.raw() == rings_drawn(crossed, w, h, x, y, radius, i as int),
                    canvas.raw().len() == start.len(),
                    forall|p: int| 0 <= p < canvas.raw().len() / 3 ==>
                        #[trigger] pixel_kept_or(canvas.raw(), start, p, spec_red()),
                    start.len() == 3 * (w * h),
                    j < 3,
                    forall|l: int| 0 <= l <= j && inside_drawable(w, h, #[trigger] centers[l]) ==> red_at(canvas.raw(), w, centers[l]),
                decreases 4 - i,
            {
                let r = as_i32(radius + i);
                assert(ring_fits(x as int, y as int, radius, i as int));
                let ghost before_ring = canvas.raw();
                draw_hollow_circle(canvas, (x, y), r, red);
                proof {
                    lemma_pixels_kept_trans(start, before_ring, canvas.raw(), spec_red());
                    assert forall|l: int| 0 <= l <= j && inside_drawable(w, h, #[trigger] centers[l]) implies red_at(canvas.raw(), w, centers[l]) by {
                        lemma_red_kept(canvas.raw(), before_ring, w, h, centers[l]);
                    }
                }
                i = i + 1;
            }
        }
        j = j + 1;
    }
}

/// Whether the outline of radius `radius + i`, read as an `i32`, around
/// `(cx, cy)` can be drawn.
fn ring_ok(cx: i64, cy: i64, radius: u32, i: u32) -> (res: bool)
    requires
        radius + i <= u32::MAX,
        i32::MIN <= cx <= i32::MAX,
        i32::MIN <= cy <= i32::MAX,
    ensures
        res == ring_fits(cx as int, cy as int, radius, i as int),
{
    let r = signed_of(radius + i);
    if r <= -0x7fff_ffff {
        return false;
    }
    if r < 0 {
        return true;
    }
    2 * r + 6 <= 0x7fff_ffff && cx - r >= -0x8000_0000 && cx + r <= 0x7fff_ffff
        && cy - r >= -0x8000_0000 && cy + r <= 0x7fff_ffff
}

/// Whether the marks around `c` can be drawn.
pub fn mark_ok(c: Point, radius: u32, rings: bool) -> (res: bool)
    ensures
        res == mark_fits(c, radius, rings),
{
    let cx = signed_of(c.x);
    let cy = signed_of(c.y);
    if cx == -0x8000_0000 || cx == 0x7fff_ffff || cy == -0x8000_0000 || cy == 0x7fff_ffff {
        return false;
    }
    if !rings {
        return true;
    }
    if radius > 0xffff_ffff - 3 {
        return false;
    }
    let mut i: u32 = 0;
    while i < 4
        invariant
            i <= 4,
            rings,
            radius + 3 <= u32::MAX,
            cx == signed32(c.x),
            cy == signed32(c.y),
            i32::MIN < cx < i32::MAX,
            i32::MIN < cy < i32::MAX,
            forall|j: int| 0 <= j < i ==> #[trigger] ring_fits(cx as int, cy as int, radius, j),
        decreases 4 - i,
    {
        if !ring_ok(cx, cy, radius, i) {
            assert(!ring_fits(signed32(c.x), signed32(c.y), radius, i as int));
            return false;
        }
        i = i + 1;
    }
    true
}

/// Whether the marks around each of the three centers can be drawn.
pub fn marks_ok(centers: &[Point; 3], radius: u32, rings: bool) -> (res: bool)
    ensures
        res == forall|i: int| 0 <= i < 3 ==> mark_fits(#[trigger] centers[i], radius, rings),
{
    let a = mark_ok(centers[0], radius, rings);
    let b = mark_ok(centers[1], radius, rings);
    let c = mark_ok(centers[2], radius, rings);
    proof {
        if !(a && b && c) {
            if !a { assert(!mark_fits(centers[0], radius, rings)); }
            if !b { assert(!mark_fits(centers[1], radius, rings)); }
            if !c { assert(!mark_fits(centers[2], radius, rings)); }
        }
    }
    a && b && c
}

} // verus!
