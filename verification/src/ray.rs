//! Walking from a point along the three diagonal rays up-left, down-left and
//! down-right until a run of dark pixels is met.

use vstd::prelude::*;
use crate::point::Point;
use crate::raster::{LumaImage, spec_is_dark, is_dark};

verus! {

/// The value a `u32` has when read as an `i32` (two's complement).
pub open spec fn signed32(v: u32) -> int {
    if v <= i32::MAX {
        v as int
    } else {
        v - 0x1_0000_0000
    }
}

/// The `u32` with the same bits as a value of the `i32` range.
pub open spec fn wrap32(v: int) -> int {
    if v < 0 {
        v + 0x1_0000_0000
    } else {
        v
    }
}

/// Horizontal step of ray `i`: rays 0 and 1 go left, ray 2 goes right.
pub open spec fn ray_dx(i: int) -> int {
    if i == 2 {
        1
    } else {
        -1
    }
}

/// Vertical step of ray `i`: ray 0 goes up, rays 1 and 2 go down.
pub open spec fn ray_dy(i: int) -> int {
    if i == 0 {
        -1
    } else {
        1
    }
}

/// Column reached `d` steps along ray `i` from `c`: start and step count read
/// as `i32`, the sum read back as `u32`.
pub open spec fn ray_x(c: Point, i: int, d: int) -> int {
    wrap32(signed32(c.x) + ray_dx(i) * signed32(d as u32))
}

/// Row reached `d` steps along ray `i` from `c`.
pub open spec fn ray_y(c: Point, i: int, d: int) -> int {
    wrap32(signed32(c.y) + ray_dy(i) * signed32(d as u32))
}

/// Step `d` of ray `i` from `c` is computed within the `i32` range: the step
/// count read as an `i32` can be negated where the ray goes left or up, and
/// the coordinates it leads to stay in range.
pub open spec fn step_in_range(c: Point, i: int, d: int) -> bool {
    let sd = signed32(d as u32);
    &&& (ray_dx(i) == -1 || ray_dy(i) == -1) ==> sd != i32::MIN
    &&& i32::MIN <= signed32(c.x) + ray_dx(i) * sd <= i32::MAX
    &&& i32::MIN <= signed32(c.y) + ray_dy(i) * sd <= i32::MAX
}

pub open spec fn ray_point(c: Point, i: int, d: int) -> Point {
    Point { x: ray_x(c, i, d) as u32, y: ray_y(c, i, d) as u32 }
}

/// The `d`-th point of the ray lies inside the image.
pub open spec fn ray_inside(img: &LumaImage, c: Point, i: int, d: int) -> bool {
    img.in_bounds(ray_x(c, i, d), ray_y(c, i, d))
}

/// The `d`-th point of the ray lies inside the image and is dark.
pub open spec fn ray_dark(img: &LumaImage, c: Point, i: int, d: int) -> bool {
    ray_inside(img, c, i, d) && spec_is_dark(img.pixel(ray_x(c, i, d), ray_y(c, i, d)))
}

/// Number of consecutive dark points of the ray ending at step `d`.
pub open spec fn run_len(img: &LumaImage, c: Point, i: int, d: int) -> nat
    decreases d,
{
    if d < 1 || !ray_dark(img, c, i, d) {
        0
    } else {
        1 + run_len(img, c, i, d - 1)
    }
}

/// The walk ends at step `d`: the ray has left the image, or the dark run
/// ending there is at least `m` long.
pub open spec fn ray_stops(img: &LumaImage, c: Point, i: int, m: int, d: int) -> bool {
    !ray_inside(img, c, i, d) || run_len(img, c, i, d) >= m
}

/// First step from `d` on (up to `n`) at which the walk ends; `n + 1` when
/// it runs through all `n` steps.
pub open spec fn stop_step(img: &LumaImage, c: Point, i: int, n: int, m: int, d: int) -> int
    decreases n + 1 - d,
{
    if d > n {
        n + 1
    } else if ray_stops(img, c, i, m, d) {
        d
    } else {
        stop_step(img, c, i, n, m, d + 1)
    }
}

/// The last step of the walk whose point lies inside the image (0 if none).
pub open spec fn last_step(img: &LumaImage, c: Point, i: int, n: int, m: int) -> int {
    let s = stop_step(img, c, i, n, m, 1);
    if s <= n && ray_inside(img, c, i, s) {
        s
    } else {
        s - 1
    }
}

/// What the walk along ray `i` finds: when its last point inside the image is
/// dark, the first point of the dark run that ends there.
pub open spec fn ray_hit(img: &LumaImage, c: Point, i: int, n: int, m: int) -> Option<Point> {
    let l = last_step(img, c, i, n, m);
    if l >= 1 && ray_dark(img, c, i, l) {
        Some(ray_point(c, i, l - run_len(img, c, i, l) + 1))
    } else {
        None
    }
}

/// Every step the walk along ray `i` takes (up to where it stops) is
/// computed within the `i32` range.
pub open spec fn walk_in_range(img: &LumaImage, c: Point, i: int, n: int, m: int) -> bool {
    forall|d: int| 1 <= d <= n && d <= stop_step(img, c, i, n, m, 1) ==> #[trigger] step_in_range(c, i, d)
}

/// The search from `c` can be made: `2 * r + min_count` fits in a `u32`, and
/// the walks it takes — along ray 0, then ray 1 if ray 0 found a point, then
/// ray 2 if ray 1 did too — compute every step within the `i32` range.
pub open spec fn rays_fit(img: &LumaImage, c: Point, r: u32, min_count: u32) -> bool {
    let n = 2 * r + min_count;
    let m = min_count as int;
    &&& n <= u32::MAX
    &&& walk_in_range(img, c, 0, n, m)
    &&& ray_hit(img, c, 0, n, m) is Some ==> {
        &&& walk_in_range(img, c, 1, n, m)
        &&& ray_hit(img, c, 1, n, m) is Some ==> walk_in_range(img, c, 2, n, m)
    }
}

/// The inner boundary points found from `c`: one per ray, or `None` as soon
/// as one ray finds nothing.
pub open spec fn spec_boundary_points(img: &LumaImage, c: Point, r: u32, min_count: u32) -> Option<[Point; 3]> {
    let n = 2 * r + min_count;
    match (ray_hit(img, c, 0, n, min_count as int), ray_hit(img, c, 1, n, min_count as int), ray_hit(img, c, 2, n, min_count as int)) {
        (Some(p0), Some(p1), Some(p2)) => Some([p0, p1, p2]),
        _ => None,
    }
}

/// When no step before `d` ends the walk and step `d` does, the walk ends at `d`.
proof fn lemma_stop_step_at(img: &LumaImage, c: Point, i: int, n: int, m: int, k: int, d: int)
    requires
        1 <= k <= d <= n,
        forall|e: int| k <= e < d ==> !#[trigger] ray_stops(img, c, i, m, e),
        ray_stops(img, c, i, m, d),
    ensures
        stop_step(img, c, i, n, m, k) == d,
    decreases d - k,
{
    if k < d {
        lemma_stop_step_at(img, c, i, n, m, k + 1, d);
    }
}

/// When no step from `k` to before `d` ends the walk, it ends at `d` or later.
proof fn lemma_stop_step_from(img: &LumaImage, c: Point, i: int, n: int, m: int, k: int, d: int)
    requires
        1 <= k <= d <= n + 1,
        forall|e: int| k <= e < d ==> !#[trigger] ray_stops(img, c, i, m, e),
    ensures
        stop_step(img, c, i, n, m, k) >= d,
    decreases d - k,
{
    if k < d {
        lemma_stop_step_from(img, c, i, n, m, k + 1, d);
    } else {
        lemma_stop_step_range(img, c, i, n, m, k);
    }
}

/// When no step up to `n` ends the walk, it runs through all `n` steps.
proof fn lemma_stop_step_none(img: &LumaImage, c: Point, i: int, n: int, m: int, k: int)
    requires
        1 <= k <= n + 1,
        forall|e: int| k <= e <= n ==> !#[trigger] ray_stops(img, c, i, m, e),
    ensures
        stop_step(img, c, i, n, m, k) == n + 1,
    decreases n + 1 - k,
{
    if k <= n {
        lemma_stop_step_none(img, c, i, n, m, k + 1);
    }
}

/// The step whose point the walk last saw inside the image, given the step
/// it is about to take and whether its latest step left the image.
spec fn last_seen(distance: u64, left_image: bool) -> int {
    if left_image {
        distance - 2
    } else {
        distance - 1
    }
}

/// The value a `u32` has when read as an `i32`, widened.
pub(crate) fn signed_of(v: u32) -> (res: i64)
    ensures
        res == signed32(v),
{
    if v <= 0x7fff_ffff {
        v as i64
    } else {
        v as i64 - 0x1_0000_0000
    }
}

/// The `u32` with the same bits as `v`, which lies in the `i32` range.
fn wrap_of(v: i64) -> (res: u32)
    requires
        i32::MIN <= v <= i32::MAX,
    ensures
        res == wrap32(v as int),
{
    if v < 0 {
        (v + 0x1_0000_0000) as u32
    } else {
        v as u32
    }
}

/// Walks `n` steps along ray `i` from `c` and reports what it finds.
fn try_walk_ray(img: &LumaImage, c: Point, i: usize, n: u32, min_count: u32) -> (res: Option<Option<Point>>)
    requires
        i < 3,
    ensures
        res is Some <==> walk_in_range(img, c, i as int, n as int, min_count as int),
        res matches Some(hit) ==> hit == ray_hit(img, c, i as int, n as int, min_count as int),
{
    let (width, height) = img.dimensions();
    let dx: i64 = if i == 2 { 1 } else { -1 };
    let dy: i64 = if i == 0 { -1 } else { 1 };
    let cx = signed_of(c.x);
    let cy = signed_of(c.y);
    let ghost ii = i as int;
    let ghost nn = n as int;
    let ghost mm = min_count as int;

    let mut found: Option<Point> = None;
    let mut consecutive: u32 = 0;
    let mut distance: u64 = 1;
    let mut stopped = false;
    let mut left_image = false;
    while distance <= n as u64 && !stopped
        invariant
            width == img.spec_width(),
            height == img.spec_height(),
            ii == i,
            nn == n,
            mm == min_count,
            i < 3,
            dx == ray_dx(ii),
            dy == ray_dy(ii),
            cx == signed32(c.x),
            cy == signed32(c.y),
            forall|e: int| 1 <= e < distance ==> #[trigger] step_in_range(c, ii, e),
            1 <= distance <= n + 1,
            !stopped ==> forall|e: int| 1 <= e < distance ==> !#[trigger] ray_stops(img, c, ii, mm, e),
            !stopped ==> !left_image,
            stopped ==> {
                &&& distance >= 2
                &&& forall|e: int| 1 <= e < distance - 1 ==> !#[trigger] ray_stops(img, c, ii, mm, e)
                &&& ray_stops(img, c, ii, mm, distance - 1)
                &&& left_image == !ray_inside(img, c, ii, distance - 1)
            },
            consecutive < distance,
            found == (if last_seen(distance, left_image) >= 1 && ray_dark(img, c, ii, last_seen(distance, left_image)) {
                Some(ray_point(c, ii, last_seen(distance, left_image) - run_len(img, c, ii, last_seen(distance, left_image)) + 1))
            } else {
                None::<Point>
            }),
            !left_image ==> consecutive == run_len(img, c, ii, distance - 1),
        decreases n + 1 - distance, (if stopped { 0int } else { 1int }),
    {
        proof {
            lemma_stop_step_from(img, c, ii, nn, mm, 1, distance as int);
        }
        let sd = signed_of(distance as u32);
        if (dx == -1 || dy == -1) && sd == -0x8000_0000 {
            assert(!step_in_range(c, ii, distance as int));
            return None;
        }
        let vx: i64 = cx + dx * sd;
        let vy: i64 = cy + dy * sd;
        if vx < -0x8000_0000 || vx > 0x7fff_ffff || vy < -0x8000_0000 || vy > 0x7fff_ffff {
            assert(!step_in_range(c, ii, distance as int));
            return None;
        }
        assert(step_in_range(c, ii, distance as int));
        let new_x = wrap_of(vx);
        let new_y = wrap_of(vy);
        assert(new_x == ray_x(c, ii, distance as int));
        assert(new_y == ray_y(c, ii, distance as int));

        if new_x >= width || new_y >= height {
            // the ray has left the image; what was found so far stands
            left_image = true;
            stopped = true;
        } else {
            let value = img.get_pixel(new_x, new_y);
            if is_dark(value) {
                consecutive = consecutive + 1;
                if found.is_none() {
                    found = Some(Point { x: new_x, y: new_y });
                }
            } else {
                consecutive = 0;
                found = None;
            }
            assert(consecutive == run_len(img, c, ii, distance as int));
            if consecutive >= min_count {
                stopped = true;
            }
        }
        distance = distance + 1;
    }
    proof {
        if stopped {
            lemma_stop_step_at(img, c, ii, nn, mm, 1, distance - 1);
        } else {
            lemma_stop_step_none(img, c, ii, nn, mm, 1);
        }
    }
    Some(found)
}

} // verus!

verus! {

/// Walks from `c` along the rays up-left, down-left and down-right, each for
/// at most `2 * r + min_count` steps, and on each ray takes the first point
/// of the dark run at which the walk stopped: the walk stops at the first run
/// of `min_count` consecutive dark pixels, or where the ray leaves the image.
/// `None` when some ray ends on a light pixel (or finds no dark one).
pub fn find_inner_boundary_points(c: Point, r: u32, img: &LumaImage, min_count: u32) -> (res: Option<[Point; 3]>)
    requires
        rays_fit(img, c, r, min_count),
    ensures
        res == spec_boundary_points(img, c, r, min_count),
{
    let n = 2 * r + min_count;
    let p0 = match try_walk_ray(img, c, 0, n, min_count) {
        Some(Some(p)) => p,
        _ => {
            return None;
        },
    };
    let p1 = match try_walk_ray(img, c, 1, n, min_count) {
        Some(Some(p)) => p,
        _ => {
            return None;
        },
    };
    let p2 = match try_walk_ray(img, c, 2, n, min_count) {
        Some(Some(p)) => p,
        _ => {
            return None;
        },
    };
    Some([p0, p1, p2])
}

/// Whether the boundary search from `c` can be made: `2 * r + min_count`
/// fits in a `u32` and every step the search takes is computed within the
/// `i32` range.
pub fn rays_ok(img: &LumaImage, c: Point, r: u32, min_count: u32) -> (res: bool)
    ensures
        res == rays_fit(img, c, r, min_count),
{
    if r as u64 * 2 + min_count as u64 > 0xffff_ffff {
        return false;
    }
    let n = 2 * r + min_count;
    match try_walk_ray(img, c, 0, n, min_count) {
        None => false,
        Some(None) => true,
        Some(Some(_)) => match try_walk_ray(img, c, 1, n, min_count) {
            None => false,
            Some(None) => true,
            Some(Some(_)) => try_walk_ray(img, c, 2, n, min_count).is_some(),
        },
    }
}


/// Every step of the dark run ending at `d` is dark.
proof fn lemma_run_is_dark(img: &LumaImage, c: Point, i: int, d: int, j: int)
    requires
        d - run_len(img, c, i, d) < j <= d,
    ensures
        ray_dark(img, c, i, j),
        j >= 1,
    decreases d,
{
    if j < d {
        lemma_run_is_dark(img, c, i, d - 1, j);
    }
}

/// The walk ends at a step between `d` and `n + 1`.
proof fn lemma_stop_step_range(img: &LumaImage, c: Point, i: int, n: int, m: int, d: int)
    requires
        d <= n + 1,
    ensures
        d <= stop_step(img, c, i, n, m, d) <= n + 1,
    decreases n + 1 - d,
{
    if d <= n && !ray_stops(img, c, i, m, d) {
        lemma_stop_step_range(img, c, i, n, m, d + 1);
    }
}

/// What a walk finds is a dark pixel of the image on its ray, between 1 and
/// `n` steps from the start.
pub proof fn lemma_ray_hit_is_dark(img: &LumaImage, c: Point, i: int, n: int, m: int)
    requires
        0 <= n,
    ensures
        ray_hit(img, c, i, n, m) matches Some(p) ==> exists|d: int| 1 <= d <= n && {
            &&& p == ray_point(c, i, d)
            &&& #[trigger] ray_dark(img, c, i, d)
        },
{
    lemma_stop_step_range(img, c, i, n, m, 1);
    let l = last_step(img, c, i, n, m);
    if l >= 1 && ray_dark(img, c, i, l) {
        let d = l - run_len(img, c, i, l) + 1;
        lemma_run_is_dark(img, c, i, l, d);
        assert(1 <= d <= n && ray_dark(img, c, i, d));
    }
}

/// Each boundary point found is a dark pixel of the image lying on its ray
/// (up-left, down-left, down-right), at most `2 * r + min_count` steps away.
pub proof fn lemma_boundary_points_are_dark(img: &LumaImage, c: Point, r: u32, min_count: u32)
    ensures
        spec_boundary_points(img, c, r, min_count) matches Some(pts) ==> forall|i: int| 0 <= i < 3 ==>
            exists|d: int| 1 <= d <= 2 * r + min_count && {
                &&& #[trigger] pts[i] == ray_point(c, i, d)
                &&& ray_dark(img, c, i, d)
            },
{
    let n = 2 * r + min_count;
    lemma_ray_hit_is_dark(img, c, 0, n, min_count as int);
    lemma_ray_hit_is_dark(img, c, 1, n, min_count as int);
    lemma_ray_hit_is_dark(img, c, 2, n, min_count as int);
}

} // verus!
