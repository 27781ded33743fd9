//! Searching the square frame around a point for light spots.

use vstd::prelude::*;
use crate::point::Point;
use crate::raster::LumaImage;
use crate::scan::{Scan, around_hi, around_lo, dark_in_span, span_area, spec_blackness_around};

verus! {

/// The `t`-th point of a line of the annulus frame: along `x` from `base`
/// when `horizontal`, else along `y`.
pub open spec fn line_point(base: Point, horizontal: bool, t: int) -> Point {
    if horizontal {
        Point { x: (base.x + t) as u32, y: base.y }
    } else {
        Point { x: base.x, y: (base.y + t) as u32 }
    }
}

/// The first of the points `t`, `t + 1`, .. below `len` of a line whose
/// surrounding square of half-side `s` has blackness below `num / den`.
pub open spec fn first_light(img: LumaImage, base: Point, horizontal: bool, len: int, s: u32, num: int, den: int, t: int) -> Option<Point>
    decreases len - t,
{
    if t >= len {
        None
    } else if spec_blackness_around(img, line_point(base, horizontal, t), s).spec_below(num, den) {
        Some(line_point(base, horizontal, t))
    } else {
        first_light(img, base, horizontal, len, s, num, den, t + 1)
    }
}

/// Half the side of the frame searched around an annulus of inner radius `r`.
pub open spec fn frame_half(r: u32) -> int {
    4 * r / 3
}

pub open spec fn opt_seq(o: Option<Point>) -> Seq<Point> {
    match o {
        Some(p) => seq![p],
        None => Seq::empty(),
    }
}

/// Light spots on the frame of half-side `4 * r / 3` around `start`: the first
/// point of its top, bottom and left edges whose surroundings (half-side
/// `r / 10`) are less than 1% dark, then the first point of its right edge
/// that is less than 10% dark, for the edges where one exists.
pub open spec fn spec_white_spots(img: LumaImage, start: Point, r: u32) -> Seq<Point> {
    let k = frame_half(r);
    let s = (r / 10) as u32;
    let tl = frame_tl(start, r);
    let bl = frame_bl(start, r);
    let tr = frame_tr(start, r);
    opt_seq(first_light(img, tl, true, 2 * k, s, 1, 100, 0))
        + opt_seq(first_light(img, bl, true, 2 * k, s, 1, 100, 0))
        + opt_seq(first_light(img, tl, false, 2 * k, s, 1, 100, 0))
        + opt_seq(first_light(img, tr, false, 2 * k, s, 1, 10, 0))
}

/// The frame around `start`, and the squares of half-side `r / 10` measured
/// around its points, stay within the `u32` range.
pub open spec fn frame_fits(start: Point, r: u32) -> bool {
    let k = frame_half(r);
    let s = r / 10;
    &&& 4 * r <= u32::MAX
    &&& k <= start.x
    &&& k <= start.y
    &&& start.x + k <= u32::MAX
    &&& start.y + k <= u32::MAX
    &&& k > 0 ==> {
        &&& s <= start.x - k
        &&& s <= start.y - k
        &&& start.x + k + s <= u32::MAX
        &&& start.y + k + s <= u32::MAX
        &&& 4 * s * s <= u32::MAX
    }
}

/// The dark pixels of the square of half-side `s` around `p` can be counted
/// in an `i32`.
pub open spec fn window_countable(img: LumaImage, p: Point, s: u32) -> bool {
    dark_in_span(img, around_lo(p, s), around_hi(p, s)) <= i32::MAX
}

/// The square of half-side `s` around `p` lies within the `u32` range and
/// its area fits in a `u32`.
pub open spec fn probe_in_range(p: Point, s: u32) -> bool {
    &&& s <= p.x
    &&& s <= p.y
    &&& p.x + s <= u32::MAX
    &&& p.y + s <= u32::MAX
    &&& span_area(around_lo(p, s), around_hi(p, s)) <= u32::MAX
}

/// No point of the edge from `b` before the `t`-th has surroundings (the
/// square of half-side `s`) below `num / den` dark.
pub open spec fn none_light_before(img: LumaImage, b: Point, horizontal: bool, s: u32, num: int, den: int, t: int) -> bool {
    forall|u: int| 0 <= u < t ==>
        !(#[trigger] spec_blackness_around(img, line_point(b, horizontal, u), s)).spec_below(num, den)
}

/// Around each point of an edge from `b` that the search for the first
/// light point reaches (the first `len` points, up to the first whose
/// surroundings are below `num / den` dark), the dark pixels of the square
/// of half-side `s` can be counted in an `i32`.
pub open spec fn edge_countable(img: LumaImage, b: Point, horizontal: bool, len: int, s: u32, num: int, den: int) -> bool {
    forall|t: int| 0 <= t < len && #[trigger] none_light_before(img, b, horizontal, s, num, den, t)
        ==> window_countable(img, line_point(b, horizontal, t), s)
}

/// Corners of the frame of half-side `4 * r / 3` around `start`.
pub open spec fn frame_tl(start: Point, r: u32) -> Point {
    Point { x: (start.x - frame_half(r)) as u32, y: (start.y - frame_half(r)) as u32 }
}

pub open spec fn frame_bl(start: Point, r: u32) -> Point {
    Point { x: (start.x - frame_half(r)) as u32, y: (start.y + frame_half(r)) as u32 }
}

pub open spec fn frame_tr(start: Point, r: u32) -> Point {
    Point { x: (start.x + frame_half(r)) as u32, y: (start.y - frame_half(r)) as u32 }
}

/// Around every point of the four edges of the frame that the search for
/// light spots reaches, the dark pixels of the square of half-side `r / 10`
/// can be counted in an `i32`.
#[verifier::opaque]
pub open spec fn frame_measurable(img: LumaImage, start: Point, r: u32) -> bool {
    let len = 2 * frame_half(r);
    let s = (r / 10) as u32;
    &&& edge_countable(img, frame_tl(start, r), true, len, s, 1, 100)
    &&& edge_countable(img, frame_bl(start, r), true, len, s, 1, 100)
    &&& edge_countable(img, frame_tl(start, r), false, len, s, 1, 100)
    &&& edge_countable(img, frame_tr(start, r), false, len, s, 1, 10)
}

/// The point lies on the frame of half-side `k` around `start`.
pub open spec fn in_frame(start: Point, k: int, p: Point) -> bool {
    start.x - k <= p.x <= start.x + k && start.y - k <= p.y <= start.y + k
}

impl Scan {
    /// The first point of a line of `len` points from `base` whose square of
    /// half-side `s` is below `num / den` dark.
    fn first_light_on(&self, base: Point, horizontal: bool, len: u32, s: u32, num: u32, den: u32) -> (res: Option<Point>)
        requires
            horizontal ==> base.x + len <= u32::MAX,
            !horizontal ==> base.y + len <= u32::MAX,
            forall|t: int| 0 <= t < len ==> probe_in_range(#[trigger] line_point(base, horizontal, t), s),
            edge_countable(self.img, base, horizontal, len as int, s, num as int, den as int),
        ensures
            res == first_light(self.img, base, horizontal, len as int, s, num as int, den as int, 0),
    {
        let mut t: u32 = 0;
        while t < len
            invariant
                t <= len,
                horizontal ==> base.x + len <= u32::MAX,
                !horizontal ==> base.y + len <= u32::MAX,
                forall|u: int| 0 <= u < len ==> probe_in_range(#[trigger] line_point(base, horizontal, u), s),
                edge_countable(self.img, base, horizontal, len as int, s, num as int, den as int),
                none_light_before(self.img, base, horizontal, s, num as int, den as int, t as int),
                first_light(self.img, base, horizontal, len as int, s, num as int, den as int, 0)
                    == first_light(self.img, base, horizontal, len as int, s, num as int, den as int, t as int),
            decreases len - t,
        {
            let p = if horizontal {
                Point { x: base.x + t, y: base.y }
            } else {
                Point { x: base.x, y: base.y + t }
            };
            assert(p == line_point(base, horizontal, t as int));
            assert(probe_in_range(p, s));
            assert(window_countable(self.img, p, s));
            let b = self.blackness_around(p, s);
            if b.below(num, den) {
                return Some(p);
            }
            assert(none_light_before(self.img, base, horizontal, s, num as int, den as int, t + 1));
            t = t + 1;
        }
        None
    }

    /// Looks for light spots on the square frame of half-side
    /// `4 * inner_radius / 3` around `start`: on its top, bottom and left
    /// edges the first point whose surroundings of half-side
    /// `inner_radius / 10` are less than 1% dark, on its right edge the first
    /// that is less than 10% dark. Edges without such a point add nothing.
    #[verifier::spinoff_prover]
    #[verifier::rlimit(40)]
    pub fn find_white_spot_from_annulus(&self, start: Point, inner_radius: u32) -> (points: Vec<Point>)
        requires
            frame_fits(start, inner_radius),
            frame_measurable(self.img, start, inner_radius),
        ensures
            points@ == spec_white_spots(self.img, start, inner_radius),
            points@.len() <= 4,
            forall|i: int| 0 <= i < points@.len() ==> in_frame(start, frame_half(inner_radius), #[trigger] points@[i]),
    {
        let k = 4 * inner_radius / 3;
        let s = inner_radius / 10;
        let topleft = Point { x: start.x - k, y: start.y - k };
        let botright = Point { x: start.x + k, y: start.y + k };
        let bottomleft = Point { x: topleft.x, y: botright.y };
        let topright = Point { x: botright.x, y: topleft.y };
        let len = botright.x - topleft.x;
        assert(len == 2 * frame_half(inner_radius));
        proof {
            reveal(frame_measurable);
            assert(topleft == frame_tl(start, inner_radius));
            assert(bottomleft == frame_bl(start, inner_radius));
            assert(topright == frame_tr(start, inner_radius));
            if k > 0 {
                lemma_frame_line_fits(start, inner_radius, topleft, true);
                lemma_frame_line_fits(start, inner_radius, bottomleft, true);
                lemma_frame_line_fits(start, inner_radius, topleft, false);
                lemma_frame_line_fits(start, inner_radius, topright, false);
            }
        }
        let top = self.first_light_on(topleft, true, len, s, 1, 100);
        let bottom = self.first_light_on(bottomleft, true, len, s, 1, 100);
        let left = self.first_light_on(topleft, false, len, s, 1, 100);
        let right = self.first_light_on(topright, false, len, s, 1, 10);
        let mut points: Vec<Point> = Vec::new();
        push_found(&mut points, top);
        push_found(&mut points, bottom);
        push_found(&mut points, left);
        push_found(&mut points, right);
        proof {
            lemma_first_light_on_line(self.img, topleft, true, len as int, s, 1, 100, 0);
            lemma_first_light_on_line(self.img, bottomleft, true, len as int, s, 1, 100, 0);
            lemma_first_light_on_line(self.img, topleft, false, len as int, s, 1, 100, 0);
            lemma_first_light_on_line(self.img, topright, false, len as int, s, 1, 10, 0);
            assert(points@ =~= opt_seq(top) + opt_seq(bottom) + opt_seq(left) + opt_seq(right));
            assert forall|i: int| 0 <= i < points@.len() implies in_frame(start, k as int, #[trigger] points@[i]) by {
                let p = points@[i];
                assert(opt_seq(top).contains(p) || opt_seq(bottom).contains(p) || opt_seq(left).contains(p) || opt_seq(right).contains(p));
            }
        }
        points
    }
}

/// Appends what a search found, if anything.
fn push_found(points: &mut Vec<Point>, found: Option<Point>)
    ensures
        final(points)@ == old(points)@ + opt_seq(found),
{
    if let Some(p) = found {
        points.push(p);
    }
    proof {
        assert(final(points)@ =~= old(points)@ + opt_seq(found));
    }
}

/// Every point of an edge of the frame has a measurable square around it.
proof fn lemma_frame_line_fits(start: Point, r: u32, b: Point, horizontal: bool)
    requires
        frame_fits(start, r),
        frame_half(r) > 0,
        in_frame(start, frame_half(r), b),
        horizontal ==> b.x == start.x - frame_half(r),
        !horizontal ==> b.y == start.y - frame_half(r),
    ensures
        forall|t: int| 0 <= t < 2 * frame_half(r) ==> probe_in_range(#[trigger] line_point(b, horizontal, t), (r / 10) as u32),
{
    let k = frame_half(r);
    let s = (r / 10) as u32;
    assert forall|t: int| 0 <= t < 2 * k implies probe_in_range(#[trigger] line_point(b, horizontal, t), s) by {
        let p = line_point(b, horizontal, t);
        assert(in_frame(start, k, p));
        assert((2 * s) * (2 * s) == 4 * s * s) by (nonlinear_arith);
        assert(span_area(around_lo(p, s), around_hi(p, s)) == (2 * s) * (2 * s));
    }
}

/// What `first_light` finds is one of the line's points from `t` on.
pub proof fn lemma_first_light_on_line(img: LumaImage, base: Point, horizontal: bool, len: int, s: u32, num: int, den: int, t: int)
    requires
        0 <= t,
    ensures
        first_light(img, base, horizontal, len, s, num, den, t) matches Some(p) ==>
            exists|u: int| t <= u < len && p == line_point(base, horizontal, u),
    decreases len - t,
{
    if t < len {
        lemma_first_light_on_line(img, base, horizontal, len, s, num, den, t + 1);
    }
}


/// The square of half-side `s` around `p` is below `num / den` dark.
pub open spec fn light_at(img: LumaImage, p: Point, s: u32, num: int, den: int) -> bool {
    spec_blackness_around(img, p, s).spec_below(num, den)
}

/// `found` is the first of the points `pt(0)`, `pt(1)`, .. `pt(len - 1)`
/// whose square of half-side `s` is below `num / den` dark, or `None` when
/// none of them is.
pub open spec fn first_light_among(img: LumaImage, pt: spec_fn(int) -> Point, len: int, s: u32, num: int, den: int, found: Option<Point>) -> bool {
    match found {
        Some(p) => exists|t: int| 0 <= t < len && p == pt(t) && #[trigger] light_at(img, pt(t), s, num, den)
            && forall|u: int| 0 <= u < t ==> !#[trigger] light_at(img, pt(u), s, num, den),
        None => forall|t: int| 0 <= t < len ==> !#[trigger] light_at(img, pt(t), s, num, den),
    }
}

/// The first light point of a line, searched from its `t0`-th point, is
/// the first light one among the points from there.
proof fn lemma_first_light_from(img: LumaImage, base: Point, horizontal: bool, len: int, s: u32, num: int, den: int, pt: spec_fn(int) -> Point, t0: int)
    requires
        0 <= t0,
        forall|t: int| 0 <= t < len ==> #[trigger] pt(t) == line_point(base, horizontal, t),
    ensures
        first_light(img, base, horizontal, len, s, num, den, t0) matches Some(p) ==>
            exists|t: int| t0 <= t < len && p == pt(t) && #[trigger] light_at(img, pt(t), s, num, den)
                && forall|u: int| t0 <= u < t ==> !#[trigger] light_at(img, pt(u), s, num, den),
        first_light(img, base, horizontal, len, s, num, den, t0) is None ==>
            forall|t: int| t0 <= t < len ==> !#[trigger] light_at(img, pt(t), s, num, den),
    decreases len - t0,
{
    if t0 < len {
        lemma_first_light_from(img, base, horizontal, len, s, num, den, pt, t0 + 1);
        assert(pt(t0) == line_point(base, horizontal, t0));
        if !light_at(img, pt(t0), s, num, den) {
            if let Some(p) = first_light(img, base, horizontal, len, s, num, den, t0) {
                let t = choose|t: int| t0 + 1 <= t < len && p == pt(t) && #[trigger] light_at(img, pt(t), s, num, den)
                    && forall|u: int| t0 + 1 <= u < t ==> !#[trigger] light_at(img, pt(u), s, num, den);
                assert forall|u: int| t0 <= u < t implies !#[trigger] light_at(img, pt(u), s, num, den) by {
                    if u > t0 {
                        assert(t0 + 1 <= u < t);
                    }
                }
            }
        } else {
            assert(forall|u: int| t0 <= u < t0 ==> !#[trigger] light_at(img, pt(u), s, num, den));
        }
    }
}

/// At most one result is the first light point of a line.
proof fn lemma_first_light_among_unique(img: LumaImage, pt: spec_fn(int) -> Point, len: int, s: u32, num: int, den: int, a: Option<Point>, b: Option<Point>)
    requires
        first_light_among(img, pt, len, s, num, den, a),
        first_light_among(img, pt, len, s, num, den, b),
    ensures
        a == b,
{
    if let Some(p) = a {
        let t = choose|t: int| 0 <= t < len && p == pt(t) && #[trigger] light_at(img, pt(t), s, num, den)
            && forall|u: int| 0 <= u < t ==> !#[trigger] light_at(img, pt(u), s, num, den);
        if let Some(q) = b {
            let v = choose|v: int| 0 <= v < len && q == pt(v) && #[trigger] light_at(img, pt(v), s, num, den)
                && forall|u: int| 0 <= u < v ==> !#[trigger] light_at(img, pt(u), s, num, den);
            if t < v {
                assert(!light_at(img, pt(t), s, num, den));
            } else if v < t {
                assert(!light_at(img, pt(v), s, num, den));
            }
        } else {
            assert(!light_at(img, pt(t), s, num, den));
        }
    } else if let Some(q) = b {
        let v = choose|v: int| 0 <= v < len && q == pt(v) && #[trigger] light_at(img, pt(v), s, num, den)
            && forall|u: int| 0 <= u < v ==> !#[trigger] light_at(img, pt(u), s, num, den);
        assert(!light_at(img, pt(v), s, num, den));
    }
}

/// The light spots around `start` (frame of half-side `k = 4 * r / 3`,
/// squares of half-side `r / 10`) are, in this order and for the edges where
/// one exists: the first point of the top edge, `(start.x - k + t,
/// start.y - k)` for `t` from 0 up to `2 * k`, that is less than 1% dark; the
/// first such point of the bottom edge, `(start.x - k + t, start.y + k)`;
/// the first such point of the left edge, `(start.x - k, start.y - k + t)`,
/// scanned downward from the top-left corner; and the first point of the
/// right edge, `(start.x + k, start.y - k + t)`, that is less than 10% dark.
pub proof fn lemma_white_spots_edges(img: LumaImage, start: Point, r: u32, top: Option<Point>, bottom: Option<Point>, left: Option<Point>, right: Option<Point>)
    requires
        frame_fits(start, r),
        first_light_among(img, (|t: int| Point { x: (start.x - 4 * r / 3 + t) as u32, y: (start.y - 4 * r / 3) as u32 }),
            2 * (4 * r / 3), (r / 10) as u32, 1, 100, top),
        first_light_among(img, (|t: int| Point { x: (start.x - 4 * r / 3 + t) as u32, y: (start.y + 4 * r / 3) as u32 }),
            2 * (4 * r / 3), (r / 10) as u32, 1, 100, bottom),
        first_light_among(img, (|t: int| Point { x: (start.x - 4 * r / 3) as u32, y: (start.y - 4 * r / 3 + t) as u32 }),
            2 * (4 * r / 3), (r / 10) as u32, 1, 100, left),
        first_light_among(img, (|t: int| Point { x: (start.x + 4 * r / 3) as u32, y: (start.y - 4 * r / 3 + t) as u32 }),
            2 * (4 * r / 3), (r / 10) as u32, 1, 10, right),
    ensures
        spec_white_spots(img, start, r) == opt_seq(top) + opt_seq(bottom) + opt_seq(left) + opt_seq(right),
{
    let k = frame_half(r);
    let len = 2 * k;
    let s = (r / 10) as u32;
    let pt_top = |t: int| Point { x: (start.x - 4 * r / 3 + t) as u32, y: (start.y - 4 * r / 3) as u32 };
    let pt_bottom = |t: int| Point { x: (start.x - 4 * r / 3 + t) as u32, y: (start.y + 4 * r / 3) as u32 };
    let pt_left = |t: int| Point { x: (start.x - 4 * r / 3) as u32, y: (start.y - 4 * r / 3 + t) as u32 };
    let pt_right = |t: int| Point { x: (start.x + 4 * r / 3) as u32, y: (start.y - 4 * r / 3 + t) as u32 };
    let tl = frame_tl(start, r);
    let bl = frame_bl(start, r);
    let tr = frame_tr(start, r);
    assert forall|t: int| 0 <= t < len implies #[trigger] pt_top(t) == line_point(tl, true, t) by {}
    assert forall|t: int| 0 <= t < len implies #[trigger] pt_bottom(t) == line_point(bl, true, t) by {}
    assert forall|t: int| 0 <= t < len implies #[trigger] pt_left(t) == line_point(tl, false, t) by {}
    assert forall|t: int| 0 <= t < len implies #[trigger] pt_right(t) == line_point(tr, false, t) by {}
    lemma_first_light_from(img, tl, true, len, s, 1, 100, pt_top, 0);
    lemma_first_light_from(img, bl, true, len, s, 1, 100, pt_bottom, 0);
    lemma_first_light_from(img, tl, false, len, s, 1, 100, pt_left, 0);
    lemma_first_light_from(img, tr, false, len, s, 1, 10, pt_right, 0);
    lemma_first_light_among_unique(img, pt_top, len, s, 1, 100, top, first_light(img, tl, true, len, s, 1, 100, 0));
    lemma_first_light_among_unique(img, pt_bottom, len, s, 1, 100, bottom, first_light(img, bl, true, len, s, 1, 100, 0));
    lemma_first_light_among_unique(img, pt_left, len, s, 1, 100, left, first_light(img, tl, false, len, s, 1, 100, 0));
    lemma_first_light_among_unique(img, pt_right, len, s, 1, 10, right, first_light(img, tr, false, len, s, 1, 10, 0));
}

/// Whether the frame around `start`, and the squares measured around its
/// points, stay within the `u32` range.
pub fn frame_ok(start: Point, r: u32) -> (res: bool)
    ensures
        res == frame_fits(start, r),
{
    let r64 = r as u64;
    if 4 * r64 > 0xffff_ffff {
        return false;
    }
    let k = 4 * r64 / 3;
    let s = r64 / 10;
    let x = start.x as u64;
    let y = start.y as u64;
    if k > x || k > y || x + k > 0xffff_ffff || y + k > 0xffff_ffff {
        return false;
    }
    if k > 0 {
        if s > x - k || s > y - k || x + k + s > 0xffff_ffff || y + k + s > 0xffff_ffff {
            return false;
        }
        assert(4 * s * s <= 0x1000_0000_0000_0000) by (nonlinear_arith)
            requires
                s < 0x2000_0000,
        ;
        if 4 * s * s > 0xffff_ffff {
            return false;
        }
    }
    true
}

impl Scan {
    /// Whether around each point of an edge from `b` that the search for
    /// the first light point reaches, the dark pixels of the square of
    /// half-side `s` can be counted in an `i32`.
    fn edge_ok(&self, b: Point, horizontal: bool, len: u32, s: u32, num: u32, den: u32) -> (res: bool)
        requires
            horizontal ==> b.x + len <= u32::MAX,
            !horizontal ==> b.y + len <= u32::MAX,
            forall|t: int| 0 <= t < len ==> probe_in_range(#[trigger] line_point(b, horizontal, t), s),
        ensures
            res == edge_countable(self.img, b, horizontal, len as int, s, num as int, den as int),
    {
        let mut t: u32 = 0;
        while t < len
            invariant
                t <= len,
                horizontal ==> b.x + len <= u32::MAX,
                !horizontal ==> b.y + len <= u32::MAX,
                forall|u: int| 0 <= u < len ==> probe_in_range(#[trigger] line_point(b, horizontal, u), s),
                none_light_before(self.img, b, horizontal, s, num as int, den as int, t as int),
                forall|u: int| 0 <= u < t && #[trigger] none_light_before(self.img, b, horizontal, s, num as int, den as int, u)
                    ==> window_countable(self.img, line_point(b, horizontal, u), s),
            decreases len - t,
        {
            let p = if horizontal {
                Point { x: b.x + t, y: b.y }
            } else {
                Point { x: b.x, y: b.y + t }
            };
            assert(p == line_point(b, horizontal, t as int));
            assert(probe_in_range(p, s));
            if !self.span_ok(Point { x: p.x - s, y: p.y - s }, Point { x: p.x + s, y: p.y + s }) {
                assert(!window_countable(self.img, line_point(b, horizontal, t as int), s));
                return false;
            }
            let blk = self.blackness_around(p, s);
            if blk.below(num, den) {
                // the search stops here: no later point is reached
                assert forall|u: int| 0 <= u < len && #[trigger] none_light_before(self.img, b, horizontal, s, num as int, den as int, u)
                    implies window_countable(self.img, line_point(b, horizontal, u), s) by {
                    if u > t {
                        assert(spec_blackness_around(self.img, line_point(b, horizontal, t as int), s).spec_below(num as int, den as int));
                    }
                }
                return true;
            }
            assert(none_light_before(self.img, b, horizontal, s, num as int, den as int, t + 1));
            t = t + 1;
        }
        true
    }

    /// Whether around every point of the four edges of the frame the dark
    /// pixels of the square of half-side `r / 10` can be counted in an `i32`.
    pub fn frame_measurable_ok(&self, start: Point, r: u32) -> (res: bool)
        requires
            frame_fits(start, r),
        ensures
            res == frame_measurable(self.img, start, r),
    {
        reveal(frame_measurable);
        let k = 4 * r / 3;
        let s = r / 10;
        if k == 0 {
            return true;
        }
        let topleft = Point { x: start.x - k, y: start.y - k };
        let bottomleft = Point { x: start.x - k, y: start.y + k };
        let topright = Point { x: start.x + k, y: start.y - k };
        let len = 2 * k;
        assert(topleft == frame_tl(start, r));
        assert(bottomleft == frame_bl(start, r));
        assert(topright == frame_tr(start, r));
        proof {
            lemma_frame_line_fits(start, r, topleft, true);
            lemma_frame_line_fits(start, r, bottomleft, true);
            lemma_frame_line_fits(start, r, topleft, false);
            lemma_frame_line_fits(start, r, topright, false);
        }
        self.edge_ok(topleft, true, len, s, 1, 100) && self.edge_ok(bottomleft, true, len, s, 1, 100)
            && self.edge_ok(topleft, false, len, s, 1, 100) && self.edge_ok(topright, false, len, s, 1, 10)
    }
}

} // verus!
