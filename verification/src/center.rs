//! Locating the centers of the registration rings of a sheet.

use vstd::prelude::*;
use crate::annulus::{frame_fits, frame_measurable, frame_ok, spec_white_spots};
use crate::point::Point;
use crate::raster::LumaImage;
use crate::ray::{find_inner_boundary_points, rays_fit, rays_ok, spec_boundary_points};
use crate::scan::{Scan, around_fits, spec_blackness_around};

verus! {

/// The first of `spots[i..]` from which the boundary search (radius `r`, runs
/// of `r / 10` dark pixels) succeeds, with the points it found.
pub open spec fn first_boundary(img: LumaImage, spots: Seq<Point>, r: u32, i: int) -> Option<[Point; 3]>
    decreases spots.len() - i,
{
    if i >= spots.len() || i < 0 {
        None
    } else {
        match spec_boundary_points(&img, spots[i], r, r / 10) {
            Some(pts) => Some(pts),
            None => first_boundary(img, spots, r, i + 1),
        }
    }
}

/// The three points of the inner edge of a registration ring through which
/// its center is fitted, searched from `approx`. When the square of
/// half-side `r / 4` around `approx` is at least 40% dark, `approx` lies on
/// the ring itself: the search then starts from the light spots found on the
/// frame around it, in order, and the first that succeeds counts.
#[verifier::opaque]
pub open spec fn spec_center_triple(img: LumaImage, approx: Point, r: u32) -> Option<[Point; 3]> {
    if spec_blackness_around(img, approx, (r / 4) as u32).spec_at_least(2, 5) {
        first_boundary(img, spec_white_spots(img, approx, r), r, 0)
    } else {
        spec_boundary_points(&img, approx, r, r / 10)
    }
}

/// `res` is a result the center search near `approx` can give with the
/// circle fit `fit`: `None` when no three edge points are found, else a
/// result `fit` can give for them.
pub open spec fn center_result<F: Fn(Point, Point, Point) -> Option<Point>>(img: LumaImage, approx: Point, r: u32, fit: F, res: Option<Point>) -> bool {
    match spec_center_triple(img, approx, r) {
        None => res is None,
        Some(pts) => fit.ensures((pts[0], pts[1], pts[2]), res),
    }
}

/// The boundary search fails from each of `spots[..j]`.
pub open spec fn all_failed(img: LumaImage, spots: Seq<Point>, r: u32, j: int) -> bool {
    forall|l: int| 0 <= l < j ==> (#[trigger] spec_boundary_points(&img, spots[l], r, r / 10)) is None
}

/// The boundary search can be made from each spot it is tried from: each
/// spot from which no earlier one succeeded.
pub open spec fn spots_searchable(img: LumaImage, spots: Seq<Point>, r: u32) -> bool {
    forall|j: int| 0 <= j < spots.len() && #[trigger] all_failed(img, spots, r, j)
        ==> rays_fit(&img, spots[j], r, r / 10)
}

/// When the search failed from every spot before `j`, the first success from
/// `j` on is the first success overall.
proof fn lemma_first_boundary_skip(img: LumaImage, spots: Seq<Point>, r: u32, i: int, j: int)
    requires
        0 <= i <= j,
        forall|l: int| i <= l < j ==> (#[trigger] spec_boundary_points(&img, spots[l], r, r / 10)) is None,
    ensures
        first_boundary(img, spots, r, i) == first_boundary(img, spots, r, j),
    decreases j - i,
{
    if i < j {
        lemma_first_boundary_skip(img, spots, r, i + 1, j);
    }
}

/// When `approx` lies on the ring (the square of half-side `r / 4` around it
/// is at least 40% dark), every light spot of the frame around it is tried
/// in turn: if the boundary search fails from the spots before the `j`-th
/// and succeeds from the `j`-th, whichever place `j` has among them, the
/// edge points are those found from it; if it fails from all of them,
/// there are none.
pub proof fn lemma_center_triple_on_ring(img: LumaImage, approx: Point, r: u32, j: int)
    requires
        spec_blackness_around(img, approx, (r / 4) as u32).spec_at_least(2, 5),
        0 <= j <= spec_white_spots(img, approx, r).len(),
        forall|l: int| 0 <= l < j ==>
            (#[trigger] spec_boundary_points(&img, spec_white_spots(img, approx, r)[l], r, r / 10)) is None,
    ensures
        j == spec_white_spots(img, approx, r).len() ==> spec_center_triple(img, approx, r) is None,
        j < spec_white_spots(img, approx, r).len()
            && spec_boundary_points(&img, spec_white_spots(img, approx, r)[j], r, r / 10) is Some
            ==> spec_center_triple(img, approx, r) == spec_boundary_points(&img, spec_white_spots(img, approx, r)[j], r, r / 10),
{
    reveal(spec_center_triple);
    let spots = spec_white_spots(img, approx, r);
    lemma_first_boundary_skip(img, spots, r, 0, j);
}

/// Off the ring (the square of half-side `r / 4` around `approx` less than
/// 40% dark), the edge points are searched from `approx` itself.
pub proof fn lemma_center_triple_off_ring(img: LumaImage, approx: Point, r: u32)
    requires
        !spec_blackness_around(img, approx, (r / 4) as u32).spec_at_least(2, 5),
    ensures
        spec_center_triple(img, approx, r) == spec_boundary_points(&img, approx, r, r / 10),
{
    reveal(spec_center_triple);
}

/// The searches made to locate the center of a ring near `approx` stay
/// within the `u32` and `i32` ranges and measure only measurable squares.
#[verifier::opaque]
pub open spec fn center_search_fits(img: LumaImage, approx: Point, r: u32) -> bool {
    &&& around_fits(img, approx, (r / 4) as u32)
    &&& spec_blackness_around(img, approx, (r / 4) as u32).spec_at_least(2, 5) ==> {
        &&& frame_fits(approx, r)
        &&& frame_measurable(img, approx, r)
        &&& spots_searchable(img, spec_white_spots(img, approx, r), r)
    }
    &&& !spec_blackness_around(img, approx, (r / 4) as u32).spec_at_least(2, 5) ==> rays_fit(&img, approx, r, r / 10)
}

impl Scan {
    /// Whether the searches made to locate the center of a ring near
    /// `approx` stay within the `u32` and `i32` ranges and measure only
    /// measurable squares.
    pub fn center_search_ok(&self, approx: Point, r: u32) -> (res: bool)
        ensures
            res == center_search_fits(self.img, approx, r),
    {
        reveal(center_search_fits);
        let q = r / 4;
        if !self.around_ok(approx, q) {
            return false;
        }
        let b = self.blackness_around(approx, q);
        if !b.at_least(2, 5) {
            return rays_ok(&self.img, approx, r, r / 10);
        }
        if !frame_ok(approx, r) {
            return false;
        }
        if !self.frame_measurable_ok(approx, r) {
            return false;
        }
        let points = self.find_white_spot_from_annulus(approx, r);
        let ghost spots = points@;
        let mut i: usize = 0;
        while i < points.len()
            invariant
                spots == points@,
                i <= points@.len(),
                spots == spec_white_spots(self.img, approx, r),
                q == r / 4,
                around_fits(self.img, approx, q),
                spec_blackness_around(self.img, approx, q).spec_at_least(2, 5),
                frame_fits(approx, r),
                frame_measurable(self.img, approx, r),
                all_failed(self.img, spots, r, i as int),
                forall|j: int| 0 <= j < i ==> rays_fit(&self.img, #[trigger] spots[j], r, r / 10),
            decreases points@.len() - i,
        {
            let p = points[i];
            if !rays_ok(&self.img, p, r, r / 10) {
                assert(!spots_searchable(self.img, spots, r)) by {
                    assert(all_failed(self.img, spots, r, i as int));
                }
                proof {
                    reveal(center_search_fits);
                }
                return false;
            }
            if find_inner_boundary_points(p, r, &self.img, r / 10).is_some() {
                assert(spots_searchable(self.img, spots, r)) by {
                    assert forall|j: int| 0 <= j < spots.len() && #[trigger] all_failed(self.img, spots, r, j)
                        implies rays_fit(&self.img, spots[j], r, r / 10) by {
                        if j > i {
                            assert(spec_boundary_points(&self.img, spots[i as int], r, r / 10) is None);
                        }
                    }
                }
                proof {
                    reveal(center_search_fits);
                }
                return true;
            }
            i = i + 1;
        }
        assert(spots_searchable(self.img, spots, r)) by {
            assert forall|j: int| 0 <= j < spots.len() && #[trigger] all_failed(self.img, spots, r, j)
                implies rays_fit(&self.img, spots[j], r, r / 10) by {
                assert(rays_fit(&self.img, spots[j], r, r / 10));
            }
        }
        true
    }

    /// Locates the center of the registration ring near `approx_center`:
    /// finds three points of its inner edge (see `spec_center_triple`) and
    /// hands them to `circle_center`, which gives the center of the circle
    /// through them.
    pub fn real_center<F: Fn(Point, Point, Point) -> Option<Point>>(&self, approx_center: Point, max_radius: u32, circle_center: F) -> (res: Option<Point>)
        requires
            center_search_fits(self.img, approx_center, max_radius),
            forall|a: Point, b: Point, c: Point| circle_center.requires((a, b, c)),
        ensures
            center_result(self.img, approx_center, max_radius, circle_center, res),
    {
        reveal(spec_center_triple);
        reveal(center_search_fits);
        let q = max_radius / 4;
        let a = Point { x: approx_center.x - q, y: approx_center.y - q };
        let b = Point { x: approx_center.x + q, y: approx_center.y + q };
        let min_count = max_radius / 10;

        let blk = self.blackness(a, b);
        assert(blk == spec_blackness_around(self.img, approx_center, q));
        if blk.at_least(2, 5) {
            // the approximate center lies on the ring itself
            let points = self.find_white_spot_from_annulus(approx_center, max_radius);
            let ghost spots = points@;
            let mut i: usize = 0;
            while i < points.len()
                invariant
                    spots == points@,
                    i <= points@.len(),
                    spots == spec_white_spots(self.img, approx_center, max_radius),
                    spots_searchable(self.img, spots, max_radius),
                    min_count == max_radius / 10,
                    forall|a: Point, b: Point, c: Point| circle_center.requires((a, b, c)),
                    spec_center_triple(self.img, approx_center, max_radius) == first_boundary(self.img, spots, max_radius, 0),
                    all_failed(self.img, spots, max_radius, i as int),
                decreases points@.len() - i,
            {
                let p = points[i];
                assert(rays_fit(&self.img, spots[i as int], max_radius, max_radius / 10));
                let res = find_inner_boundary_points(p, max_radius, &self.img, min_count);
                if let Some(pts) = res {
                    proof {
                        lemma_first_boundary_skip(self.img, spots, max_radius, 0, i as int);
                    }
                    return circle_center(pts[0], pts[1], pts[2]);
                }
                i = i + 1;
            }
            proof {
                lemma_first_boundary_skip(self.img, spots, max_radius, 0, spots.len() as int);
            }
            return None;
        }
        match find_inner_boundary_points(approx_center, max_radius, &self.img, min_count) {
            Some(pts) => circle_center(pts[0], pts[1], pts[2]),
            None => None,
        }
    }

    /// Locates the centers of the three registration rings near the given
    /// approximate centers, as `real_center` does for each, in order;
    /// `None` as soon as one of them cannot be located.
    pub fn locate_centers<F: Fn(Point, Point, Point) -> Option<Point>>(&self, approx: [Point; 3], radius: u32, circle_center: F) -> (res: Option<[Point; 3]>)
        requires
            forall|i: int| 0 <= i < 3 ==> center_search_fits(self.img, #[trigger] approx[i], radius),
            forall|a: Point, b: Point, c: Point| circle_center.requires((a, b, c)),
        ensures
            res matches Some(centers) ==> forall|i: int| 0 <= i < 3 ==>
                #[trigger] center_result(self.img, approx[i], radius, circle_center, Some(centers[i])),
            res is None ==> exists|i: int| 0 <= i < 3 && #[trigger] center_result(self.img, approx[i], radius, circle_center, None::<Point>),
    {
        let r0 = self.real_center(approx[0], radius, &circle_center);
        proof {
            lemma_center_result_by_ref(self.img, approx[0], radius, circle_center, r0);
        }
        let c0 = match r0 {
            Some(c) => c,
            None => {
                return None;
            },
        };
        let r1 = self.real_center(approx[1], radius, &circle_center);
        proof {
            lemma_center_result_by_ref(self.img, approx[1], radius, circle_center, r1);
        }
        let c1 = match r1 {
            Some(c) => c,
            None => {
                return None;
            },
        };
        let r2 = self.real_center(approx[2], radius, &circle_center);
        proof {
            lemma_center_result_by_ref(self.img, approx[2], radius, circle_center, r2);
        }
        let c2 = match r2 {
            Some(c) => c,
            None => {
                return None;
            },
        };
        Some([c0, c1, c2])
    }
}


/// A result of the search with a borrowed circle fit is one with the fit itself.
proof fn lemma_center_result_by_ref<F: Fn(Point, Point, Point) -> Option<Point>>(img: LumaImage, approx: Point, r: u32, fit: F, res: Option<Point>)
    requires
        center_result(img, approx, r, &fit, res),
    ensures
        center_result(img, approx, r, fit, res),
{
}

/// With a circle fit that gives one result for given points, the center
/// search gives one result too.
pub proof fn lemma_center_result_unique<F: Fn(Point, Point, Point) -> Option<Point>>(img: LumaImage, approx: Point, r: u32, fit: F, o1: Option<Point>, o2: Option<Point>)
    requires
        forall|a: Point, b: Point, c: Point, p: Option<Point>, q: Option<Point>|
            fit.ensures((a, b, c), p) && fit.ensures((a, b, c), q) ==> p == q,
        center_result(img, approx, r, fit, o1),
        center_result(img, approx, r, fit, o2),
    ensures
        o1 == o2,
{
}

/// Locating the three centers together gives what locating each with
/// `real_center` gives, for a circle fit with one result per three points:
/// `None` exactly when one of the three is `None`, else those centers, in
/// the order of the approximate centers. `each` are results `real_center`
/// can give (its contract), `located` one `locate_centers` can give (its
/// contract).
pub proof fn lemma_locate_is_real_center_each<F: Fn(Point, Point, Point) -> Option<Point>>(
    img: LumaImage,
    approx: [Point; 3],
    r: u32,
    fit: F,
    located: Option<[Point; 3]>,
    each: [Option<Point>; 3],
)
    requires
        forall|a: Point, b: Point, c: Point, p: Option<Point>, q: Option<Point>|
            fit.ensures((a, b, c), p) && fit.ensures((a, b, c), q) ==> p == q,
        forall|i: int| 0 <= i < 3 ==> #[trigger] center_result(img, approx[i], r, fit, each[i]),
        located matches Some(cs) ==> forall|i: int| 0 <= i < 3 ==>
            #[trigger] center_result(img, approx[i], r, fit, Some(cs[i])),
        located is None ==> exists|i: int| 0 <= i < 3 && #[trigger] center_result(img, approx[i], r, fit, None::<Point>),
    ensures
        located is None <==> exists|i: int| 0 <= i < 3 && (#[trigger] each[i]) is None,
        located matches Some(cs) ==> forall|i: int| 0 <= i < 3 ==> #[trigger] each[i] == Some(cs[i]),
{
    if let Some(cs) = located {
        assert forall|i: int| 0 <= i < 3 implies #[trigger] each[i] == Some(cs[i]) by {
            assert(center_result(img, approx[i], r, fit, each[i]));
            assert(center_result(img, approx[i], r, fit, Some(cs[i])));
            lemma_center_result_unique(img, approx[i], r, fit, each[i], Some(cs[i]));
        }
        assert(!exists|i: int| 0 <= i < 3 && (#[trigger] each[i]) is None);
    } else {
        let i = choose|i: int| 0 <= i < 3 && #[trigger] center_result(img, approx[i], r, fit, None::<Point>);
        assert(center_result(img, approx[i], r, fit, each[i]));
        lemma_center_result_unique(img, approx[i], r, fit, each[i], None);
        assert(each[i] is None);
    }
}

} // verus!
