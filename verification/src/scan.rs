//! A scanned answer sheet and the measurements taken on it.

use vstd::prelude::*;
use crate::count::{col_count, rect_count, lemma_col_count_bounds, lemma_rect_count_bounds, lemma_col_count_below,
    lemma_rect_count_columns};
use crate::point::Point;
use crate::raster::{LumaImage, spec_is_dark, is_dark, lemma_u32_product_fits};

verus! {

/// A scanned sheet, binarised: dark pixels are 0.
pub struct Scan {
    pub img: LumaImage,
}

/// How dark a rectangle of a scan is: `dark` of its `total` pixels inside
/// the image are dark. Its blackness is the ratio `dark / total`.
#[derive(Clone, Copy, Debug, PartialEq, Eq, Structural)]
pub struct Blackness {
    pub dark: u32,
    pub total: u32,
}

impl Blackness {
    /// The ratio `dark / total` is below `num / den` (false when `total` is 0,
    /// the ratio then being undefined).
    pub open spec fn spec_below(self, num: int, den: int) -> bool {
        self.total > 0 && self.dark * den < num * self.total
    }

    /// The ratio `dark / total` is at least `num / den` (false when `total` is 0).
    pub open spec fn spec_at_least(self, num: int, den: int) -> bool {
        self.total > 0 && self.dark * den >= num * self.total
    }

    /// Whether the ratio `dark / total` is below `num / den`.
    pub fn below(&self, num: u32, den: u32) -> (res: bool)
        ensures
            res == self.spec_below(num as int, den as int),
    {
        proof {
            lemma_u32_product_fits(self.dark, den);
            lemma_u32_product_fits(num, self.total);
        }
        self.total > 0 && (self.dark as u64) * (den as u64) < (num as u64) * (self.total as u64)
    }

    /// Whether the ratio `dark / total` is at least `num / den`.
    pub fn at_least(&self, num: u32, den: u32) -> (res: bool)
        ensures
            res == self.spec_at_least(num as int, den as int),
    {
        proof {
            lemma_u32_product_fits(self.dark, den);
            lemma_u32_product_fits(num, self.total);
        }
        self.total > 0 && (self.dark as u64) * (den as u64) >= (num as u64) * (self.total as u64)
    }
}

/// The cell `(x, y)` is a dark pixel of `img`.
pub open spec fn dark_cell(img: LumaImage) -> spec_fn(int, int) -> bool {
    |x: int, y: int| img.in_bounds(x, y) && spec_is_dark(img.pixel(x, y))
}

/// The cell `(x, y)` is a pixel of `img`.
pub open spec fn inside_cell(img: LumaImage) -> spec_fn(int, int) -> bool {
    |x: int, y: int| img.in_bounds(x, y)
}

pub open spec fn min_u32(a: u32, b: u32) -> u32 {
    if a <= b {
        a
    } else {
        b
    }
}

pub open spec fn max_u32(a: u32, b: u32) -> u32 {
    if a <= b {
        b
    } else {
        a
    }
}

/// Area of the rectangle spanned by two corners (right and bottom edges excluded).
pub open spec fn span_area(p1: Point, p2: Point) -> int {
    (max_u32(p1.x, p2.x) - min_u32(p1.x, p2.x)) * (max_u32(p1.y, p2.y) - min_u32(p1.y, p2.y))
}

/// Dark pixels and pixels of `img` in the rectangle spanned by `p1` and `p2`,
/// the right column and bottom row excluded.
pub open spec fn spec_blackness(img: LumaImage, p1: Point, p2: Point) -> Blackness {
    let x0 = min_u32(p1.x, p2.x) as int;
    let x1 = max_u32(p1.x, p2.x) as int;
    let y0 = min_u32(p1.y, p2.y) as int;
    let y1 = max_u32(p1.y, p2.y) as int;
    Blackness {
        dark: rect_count(x0, x1, y0, y1, dark_cell(img)) as u32,
        total: rect_count(x0, x1, y0, y1, inside_cell(img)) as u32,
    }
}

/// The number of dark pixels in the rectangle spanned by `p1` and `p2`.
pub open spec fn dark_in_span(img: LumaImage, p1: Point, p2: Point) -> nat {
    rect_count(
        min_u32(p1.x, p2.x) as int,
        max_u32(p1.x, p2.x) as int,
        min_u32(p1.y, p2.y) as int,
        max_u32(p1.y, p2.y) as int,
        dark_cell(img),
    )
}

/// Measurements on a rectangle can be taken: its area fits in a `u32` and its
/// dark pixels in an `i32`.
pub open spec fn span_measurable(img: LumaImage, p1: Point, p2: Point) -> bool {
    span_area(p1, p2) <= u32::MAX && dark_in_span(img, p1, p2) <= i32::MAX
}

impl Scan {
    /// How dark the rectangle spanned by `p1` and `p2` is: its dark pixels and
    /// its pixels inside the image, the right column and bottom row excluded.
    pub fn blackness(&self, p1: Point, p2: Point) -> (res: Blackness)
        requires
            span_measurable(self.img, p1, p2),
        ensures
            res == spec_blackness(self.img, p1, p2),
    {
        self.count_span(p1, p2)
    }

    /// Whether the rectangle spanned by `p1` and `p2` can be measured: its
    /// area fits in a `u32` and its dark pixels in an `i32`.
    pub fn span_ok(&self, p1: Point, p2: Point) -> (res: bool)
        ensures
            res == span_measurable(self.img, p1, p2),
    {
        let x_min = if p1.x <= p2.x { p1.x } else { p2.x };
        let x_max = if p1.x <= p2.x { p2.x } else { p1.x };
        let y_min = if p1.y <= p2.y { p1.y } else { p2.y };
        let y_max = if p1.y <= p2.y { p2.y } else { p1.y };
        let w = x_max - x_min;
        let h = y_max - y_min;
        proof {
            lemma_u32_product_fits(w, h);
        }
        let area: u64 = (w as u64) * (h as u64);
        if area > 0xffff_ffff {
            return false;
        }
        let b = self.count_span(p1, p2);
        proof {
            lemma_rect_count_bounds(x_min as int, x_max as int, y_min as int, y_max as int,
                dark_cell(self.img), inside_cell(self.img));
        }
        b.dark <= 0x7fff_ffff
    }

    /// Dark pixels and pixels inside the image of the rectangle spanned by
    /// `p1` and `p2`.
    fn count_span(&self, p1: Point, p2: Point) -> (res: Blackness)
        requires
            span_area(p1, p2) <= u32::MAX,
        ensures
            res == spec_blackness(self.img, p1, p2),
    {
        let x_min = if p1.x <= p2.x { p1.x } else { p2.x };
        let x_max = if p1.x <= p2.x { p2.x } else { p1.x };
        let y_min = if p1.y <= p2.y { p1.y } else { p2.y };
        let y_max = if p1.y <= p2.y { p2.y } else { p1.y };
        let area: u32 = (x_max - x_min) * (y_max - y_min);
        let (w, h) = self.img.dimensions();
        let ghost img = self.img;
        let ghost hh: int = y_max - y_min;
        let ghost ww: int = x_max - x_min;
        let ghost dk = dark_cell(img);
        let ghost ins = inside_cell(img);

        let mut dark_pixels: u32 = 0;
        let mut total: u32 = area;
        let mut x = x_min;
        assert(rect_count(x_min as int, x as int, y_min as int, y_max as int, ins) == 0);
        assert(rect_count(x_min as int, x as int, y_min as int, y_max as int, dk) == 0);
        assert((x - x_min) * hh == 0) by (nonlinear_arith)
            requires
                x == x_min,
        ;
        while x < x_max
            invariant
                img == self.img,
                w == img.spec_width(),
                h == img.spec_height(),
                dk == dark_cell(img),
                ins == inside_cell(img),
                x_min <= x <= x_max,
                y_min <= y_max,
                hh == y_max - y_min,
                ww == x_max - x_min,
                area == ww * hh,
                dark_pixels == rect_count(x_min as int, x as int, y_min as int, y_max as int, dk),
                rect_count(x_min as int, x as int, y_min as int, y_max as int, dk)
                    <= rect_count(x_min as int, x as int, y_min as int, y_max as int, ins),
                rect_count(x_min as int, x as int, y_min as int, y_max as int, ins) <= (x - x_min) * hh,
                total == area - ((x - x_min) * hh - rect_count(x_min as int, x as int, y_min as int, y_max as int, ins)),
            decreases x_max - x,
        {
            let mut y = y_min;
            proof {
                assert((x - x_min) * hh + hh <= ww * hh) by (nonlinear_arith)
                    requires
                        x < x_max,
                        ww == x_max - x_min,
                        x_min <= x,
                        0 <= hh,
                ;
            }
            while y < y_max
                invariant
                    img == self.img,
                    w == img.spec_width(),
                    h == img.spec_height(),
                    dk == dark_cell(img),
                    ins == inside_cell(img),
                    x_min <= x < x_max,
                    y_min <= y <= y_max,
                    hh == y_max - y_min,
                    ww == x_max - x_min,
                    area == ww * hh,
                    (x - x_min) * hh + hh <= ww * hh,
                    dark_pixels == rect_count(x_min as int, x as int, y_min as int, y_max as int, dk)
                        + col_count(x as int, y_min as int, y as int, dk),
                    rect_count(x_min as int, x as int, y_min as int, y_max as int, dk)
                        <= rect_count(x_min as int, x as int, y_min as int, y_max as int, ins),
                    col_count(x as int, y_min as int, y as int, dk) <= col_count(x as int, y_min as int, y as int, ins),
                    col_count(x as int, y_min as int, y as int, ins) <= y - y_min,
                    rect_count(x_min as int, x as int, y_min as int, y_max as int, ins) <= (x - x_min) * hh,
                    total == area - ((x - x_min) * hh + (y - y_min)
                        - rect_count(x_min as int, x as int, y_min as int, y_max as int, ins)
                        - col_count(x as int, y_min as int, y as int, ins)),
                decreases y_max - y,
            {
                if x < w && y < h {
                    let value = self.img.get_pixel(x, y);
                    if is_dark(value) {
                        dark_pixels = dark_pixels + 1;
                    }
                } else {
                    total = total - 1;
                }
                proof {
                    lemma_col_count_bounds(x as int, y_min as int, y + 1, dk, ins);
                }
                y = y + 1;
            }
            proof {
                lemma_rect_count_bounds(x_min as int, x + 1, y_min as int, y_max as int, dk, ins);
                assert((x + 1 - x_min) * hh == (x - x_min) * hh + hh) by (nonlinear_arith);
            }
            x = x + 1;
        }
        Blackness { dark: dark_pixels, total }
    }
}


/// The corners of the square of half-side `r` around `p`.
pub open spec fn around_lo(p: Point, r: u32) -> Point {
    Point { x: (p.x - r) as u32, y: (p.y - r) as u32 }
}

pub open spec fn around_hi(p: Point, r: u32) -> Point {
    Point { x: (p.x + r) as u32, y: (p.y + r) as u32 }
}

/// The square of half-side `r` around `p` lies within the `u32` range and can
/// be measured.
pub open spec fn around_fits(img: LumaImage, p: Point, r: u32) -> bool {
    &&& r <= p.x
    &&& r <= p.y
    &&& p.x + r <= u32::MAX
    &&& p.y + r <= u32::MAX
    &&& span_measurable(img, around_lo(p, r), around_hi(p, r))
}

/// Blackness of the square `p.x - r .. p.x + r` by `p.y - r .. p.y + r`.
pub open spec fn spec_blackness_around(img: LumaImage, p: Point, r: u32) -> Blackness {
    spec_blackness(img, around_lo(p, r), around_hi(p, r))
}

impl Scan {
    /// Whether the square of half-side `r` around `p` lies within the `u32`
    /// range and can be measured.
    pub fn around_ok(&self, p: Point, r: u32) -> (res: bool)
        ensures
            res == around_fits(self.img, p, r),
    {
        if r > p.x || r > p.y || p.x > 0xffff_ffff - r || p.y > 0xffff_ffff - r {
            return false;
        }
        self.span_ok(Point { x: p.x - r, y: p.y - r }, Point { x: p.x + r, y: p.y + r })
    }

    /// Blackness of the square `p.x - r .. p.x + r` by `p.y - r .. p.y + r`.
    pub fn blackness_around(&self, p: Point, r: u32) -> (res: Blackness)
        requires
            around_fits(self.img, p, r),
        ensures
            res == spec_blackness_around(self.img, p, r),
    {
        self.blackness(Point { x: p.x - r, y: p.y - r }, Point { x: p.x + r, y: p.y + r })
    }
}

/// Length of the part of `lo .. hi` below `lim`.
pub open spec fn clipped_len(lo: int, hi: int, lim: int) -> int {
    if lim <= lo {
        0
    } else if hi <= lim {
        hi - lo
    } else {
        lim - lo
    }
}

/// A measured rectangle counts as its total the pixels of its part inside
/// the image — its width and height clipped to the image's — and no more of
/// them are dark than that.
pub proof fn lemma_blackness_counts_clipped_area(img: LumaImage, p1: Point, p2: Point)
    requires
        span_area(p1, p2) <= u32::MAX,
    ensures
        spec_blackness(img, p1, p2).dark <= spec_blackness(img, p1, p2).total,
        spec_blackness(img, p1, p2).total as int == clipped_len(min_u32(p1.x, p2.x) as int, max_u32(p1.x, p2.x) as int, img.spec_width() as int)
            * clipped_len(min_u32(p1.y, p2.y) as int, max_u32(p1.y, p2.y) as int, img.spec_height() as int),
{
    let x0 = min_u32(p1.x, p2.x) as int;
    let x1 = max_u32(p1.x, p2.x) as int;
    let y0 = min_u32(p1.y, p2.y) as int;
    let y1 = max_u32(p1.y, p2.y) as int;
    let w = img.spec_width() as int;
    let h = img.spec_height() as int;
    let ins = inside_cell(img);
    let dk = dark_cell(img);
    let ch = clipped_len(y0, y1, h);
    assert forall|x: int| x0 <= x < x1 implies #[trigger] col_count(x, y0, y1, ins) == if x < w { ch as nat } else { 0 } by {
        if x < w {
            assert forall|y: int| y0 <= y < y1 implies (#[trigger] ins(x, y) <==> y < h) by {}
            lemma_col_count_below(x, y0, y1, h, ins);
        } else {
            assert forall|y: int| y0 <= y < y1 implies (#[trigger] ins(x, y) <==> y < 0) by {}
            lemma_col_count_below(x, y0, y1, 0, ins);
        }
    }
    lemma_rect_count_columns(x0, x1, y0, y1, w, ch as nat, ins);
    lemma_rect_count_bounds(x0, x1, y0, y1, dk, ins);
    assert(ch * clipped_len(x0, x1, w) == clipped_len(x0, x1, w) * ch) by (nonlinear_arith);
}

/// The rectangle spanned by two corners does not depend on their order,
/// nor on which corner is which.
pub proof fn lemma_blackness_corner_order(img: LumaImage, p1: Point, p2: Point)
    ensures
        spec_blackness(img, p1, p2) == spec_blackness(img, p2, p1),
        spec_blackness(img, p1, p2) == spec_blackness(img, Point { x: p1.x, y: p2.y }, Point { x: p2.x, y: p1.y }),
{
}

} // verus!
