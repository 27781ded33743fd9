use exam_scan::point::Point;
use exam_scan::raster::{is_dark, LumaImage};
use exam_scan::ray::{find_inner_boundary_points, rays_ok};
use exam_scan::scan::{Blackness, Scan};

/// A white `w` by `h` image with a black ring centred on `(cx, cy)`, its
/// squared radius between `r_in2` and `r_out2`.
fn ring_image(w: u32, h: u32, cx: i64, cy: i64, r_in2: i64, r_out2: i64) -> LumaImage {
    let mut pixels = Vec::new();
    for y in 0..h as i64 {
        for x in 0..w as i64 {
            let d2 = (x - cx) * (x - cx) + (y - cy) * (y - cy);
            pixels.push(if r_in2 <= d2 && d2 <= r_out2 { 0u8 } else { 255u8 });
        }
    }
    LumaImage::new(w, h, pixels).expect("size matches")
}

fn image_from_rows(rows: &[&[u8]]) -> LumaImage {
    let h = rows.len() as u32;
    let w = rows[0].len() as u32;
    let mut pixels = Vec::new();
    for r in rows {
        pixels.extend_from_slice(r);
    }
    LumaImage::new(w, h, pixels).expect("size matches")
}

/// Center of the circle through three points, rounded to the nearest pixel.
fn circumcenter(a: Point, b: Point, c: Point) -> Option<Point> {
    let (ax, ay) = (a.x as f64, a.y as f64);
    let (bx, by) = (b.x as f64, b.y as f64);
    let (cx, cy) = (c.x as f64, c.y as f64);
    let d = 2.0 * (ax * (by - cy) + bx * (cy - ay) + cx * (ay - by));
    if d.abs() < 1e-9 {
        return None;
    }
    let a2 = ax * ax + ay * ay;
    let b2 = bx * bx + by * by;
    let c2 = cx * cx + cy * cy;
    let ux = (a2 * (by - cy) + b2 * (cy - ay) + c2 * (ay - by)) / d;
    let uy = (a2 * (cx - bx) + b2 * (ax - cx) + c2 * (bx - ax)) / d;
    if ux < 0.0 || uy < 0.0 {
        return None;
    }
    Some(Point { x: ux.round() as u32, y: uy.round() as u32 })
}

fn distance(p: Point, q: Point) -> f64 {
    let dx = p.x as f64 - q.x as f64;
    let dy = p.y as f64 - q.y as f64;
    (dx * dx + dy * dy).sqrt()
}

#[test]
fn image_circle_center_easy() {
    // a ring centred on (47, 47): inner radius 25, outer radius 33
    let img = ring_image(95, 95, 47, 47, 25 * 25, 33 * 33);
    let scan = Scan { img };

    let real_center = Point { x: 47, y: 47 };
    let test_center = Point { x: 40, y: 60 };
    let real_radius = 30;

    let res = scan
        .real_center(test_center, real_radius, circumcenter)
        .expect("could not find a center");

    assert!(distance(real_center, res) < 2.0);
}

#[test]
fn real_center_from_a_point_on_the_ring() {
    // start on the ring itself: the search goes through the light spots of
    // the frame around it
    let img = ring_image(200, 200, 100, 100, 30 * 30, 40 * 40);
    let scan = Scan { img };
    let start = Point { x: 125, y: 125 };
    let b = scan.blackness_around(start, 30 / 4);
    assert!(b.at_least(2, 5));
    let res = scan.real_center(start, 30, circumcenter).expect("a center");
    assert!(distance(res, Point { x: 100, y: 100 }) < 2.0);
}

#[test]
fn real_center_none_when_nothing_is_dark() {
    let img = LumaImage::new(40, 40, vec![255u8; 1600]).unwrap();
    let scan = Scan { img };
    assert_eq!(scan.real_center(Point { x: 20, y: 20 }, 8, circumcenter), None);
}

#[test]
fn real_center_passes_the_found_points_on() {
    let img = ring_image(95, 95, 47, 47, 25 * 25, 33 * 33);
    let scan = Scan { img };
    // whatever the circle fitting returns is the result
    let res = scan.real_center(Point { x: 40, y: 60 }, 30, |_a: Point, _b: Point, _c: Point| None);
    assert_eq!(res, None);
    let res = scan.real_center(Point { x: 40, y: 60 }, 30, |a: Point, _b: Point, _c: Point| Some(a));
    let a = res.unwrap();
    assert!(a.x < 40 && a.y < 60);
}

#[test]
fn locate_centers_finds_three_rings() {
    let w = 200u32;
    let h = 200u32;
    let centers = [(50i64, 50i64), (150i64, 50i64), (50i64, 150i64)];
    let mut pixels = Vec::new();
    for y in 0..h as i64 {
        for x in 0..w as i64 {
            let mut dark = false;
            for (cx, cy) in centers.iter() {
                let d2 = (x - cx) * (x - cx) + (y - cy) * (y - cy);
                if 20 * 20 <= d2 && d2 <= 27 * 27 {
                    dark = true;
                }
            }
            pixels.push(if dark { 0 } else { 255 });
        }
    }
    let scan = Scan { img: LumaImage::new(w, h, pixels).unwrap() };
    let approx = [Point { x: 45, y: 55 }, Point { x: 155, y: 45 }, Point { x: 52, y: 148 }];
    let found = scan.locate_centers(approx, 25, circumcenter).expect("three centers");
    assert!(distance(found[0], Point { x: 50, y: 50 }) < 2.0);
    assert!(distance(found[1], Point { x: 150, y: 50 }) < 2.0);
    assert!(distance(found[2], Point { x: 50, y: 150 }) < 2.0);
    // one ring missing: no result
    let approx = [Point { x: 45, y: 55 }, Point { x: 155, y: 45 }, Point { x: 150, y: 150 }];
    assert_eq!(scan.locate_centers(approx, 25, circumcenter), None);
}

#[test]
fn dark_is_zero() {
    assert!(is_dark(0));
    assert!(!is_dark(1));
    assert!(!is_dark(255));
}

#[test]
fn image_needs_one_byte_per_pixel() {
    assert!(LumaImage::new(3, 2, vec![0; 5]).is_none());
    assert!(LumaImage::new(3, 2, vec![0; 7]).is_none());
    let img = LumaImage::new(3, 2, vec![1, 2, 3, 4, 5, 6]).unwrap();
    assert_eq!(img.dimensions(), (3, 2));
    assert_eq!(img.get_pixel(0, 0), 1);
    assert_eq!(img.get_pixel(2, 0), 3);
    assert_eq!(img.get_pixel(0, 1), 4);
    assert_eq!(img.get_pixel(2, 1), 6);
}

#[test]
fn blackness_counts_dark_and_inside_pixels() {
    let img = image_from_rows(&[
        &[0, 255, 0, 255],
        &[0, 0, 255, 255],
        &[255, 255, 255, 0],
    ]);
    let scan = Scan { img };
    // the whole image: 5 dark out of 12
    assert_eq!(scan.blackness(Point { x: 0, y: 0 }, Point { x: 4, y: 3 }), Blackness { dark: 5, total: 12 });
    // corners in either order give the same rectangle
    assert_eq!(scan.blackness(Point { x: 4, y: 0 }, Point { x: 0, y: 3 }), Blackness { dark: 5, total: 12 });
    // right column and bottom row excluded
    assert_eq!(scan.blackness(Point { x: 0, y: 0 }, Point { x: 2, y: 2 }), Blackness { dark: 3, total: 4 });
    // reaching past the image: only pixels inside count
    assert_eq!(scan.blackness(Point { x: 2, y: 1 }, Point { x: 10, y: 10 }), Blackness { dark: 1, total: 4 });
    // entirely outside
    assert_eq!(scan.blackness(Point { x: 5, y: 5 }, Point { x: 8, y: 8 }), Blackness { dark: 0, total: 0 });
    // empty rectangle
    assert_eq!(scan.blackness(Point { x: 1, y: 1 }, Point { x: 1, y: 3 }), Blackness { dark: 0, total: 0 });
}

#[test]
fn blackness_around_is_the_centred_square() {
    let img = image_from_rows(&[
        &[0, 0, 0, 0],
        &[0, 255, 255, 0],
        &[0, 255, 255, 0],
        &[0, 0, 0, 0],
    ]);
    let scan = Scan { img };
    assert_eq!(scan.blackness_around(Point { x: 2, y: 2 }, 1), Blackness { dark: 0, total: 4 });
    assert_eq!(scan.blackness_around(Point { x: 2, y: 2 }, 2), Blackness { dark: 12, total: 16 });
    assert_eq!(scan.blackness_around(Point { x: 2, y: 2 }, 0), Blackness { dark: 0, total: 0 });
}

#[test]
fn blackness_ratio_comparisons() {
    let b = Blackness { dark: 1, total: 100 };
    assert!(!b.below(1, 100));
    assert!(b.below(1, 10));
    assert!(b.at_least(1, 100));
    let b = Blackness { dark: 2, total: 5 };
    assert!(b.at_least(2, 5));
    assert!(!b.below(2, 5));
    let b = Blackness { dark: 0, total: 0 };
    assert!(!b.below(1, 100));
    assert!(!b.at_least(2, 5));
}

#[test]
fn boundary_points_on_each_ray() {
    // dark pixels up-left, down-left and down-right of (3, 3)
    let mut pixels = vec![255u8; 49];
    for (x, y) in [(1usize, 1usize), (0, 0), (1, 5), (0, 6), (6, 6)] {
        pixels[y * 7 + x] = 0;
    }
    let img = LumaImage::new(7, 7, pixels).unwrap();
    // runs of 2 wanted within 2 * 1 + 2 = 4 steps
    let pts = find_inner_boundary_points(Point { x: 3, y: 3 }, 1, &img, 2).unwrap();
    assert_eq!(pts[0], Point { x: 1, y: 1 });
    assert_eq!(pts[1], Point { x: 1, y: 5 });
    // down-right the ray leaves the image right after its single dark pixel
    assert_eq!(pts[2], Point { x: 6, y: 6 });
}

#[test]
fn boundary_points_none_when_a_ray_ends_light() {
    let mut pixels = vec![255u8; 49];
    for (x, y) in [(1usize, 1usize), (0, 0), (1, 5), (0, 6)] {
        pixels[y * 7 + x] = 0;
    }
    let img = LumaImage::new(7, 7, pixels).unwrap();
    assert_eq!(find_inner_boundary_points(Point { x: 3, y: 3 }, 1, &img, 2), None);
}

#[test]
fn boundary_points_restart_after_a_light_pixel() {
    // up-left: dark at step 1, light at 2, dark at 3 and 4
    let mut pixels = vec![255u8; 100];
    for (x, y) in [(5usize, 5usize), (3, 3), (2, 2), (5, 7), (4, 8), (7, 7), (8, 8)] {
        pixels[y * 10 + x] = 0;
    }
    let img = LumaImage::new(10, 10, pixels).unwrap();
    let pts = find_inner_boundary_points(Point { x: 6, y: 6 }, 2, &img, 2).unwrap();
    assert_eq!(pts[0], Point { x: 3, y: 3 });
    assert_eq!(pts[1], Point { x: 5, y: 7 });
    assert_eq!(pts[2], Point { x: 7, y: 7 });
}

#[test]
fn boundary_points_with_zero_run_length_look_one_step() {
    let mut pixels = vec![0u8; 25];
    pixels[1 * 5 + 1] = 255;
    let img = LumaImage::new(5, 5, pixels).unwrap();
    // the up-left neighbour is light: nothing found
    assert_eq!(find_inner_boundary_points(Point { x: 2, y: 2 }, 3, &img, 0), None);
    let img = LumaImage::new(5, 5, vec![0u8; 25]).unwrap();
    let pts = find_inner_boundary_points(Point { x: 2, y: 2 }, 3, &img, 0).unwrap();
    assert_eq!(pts, [Point { x: 1, y: 1 }, Point { x: 1, y: 3 }, Point { x: 3, y: 3 }]);
}

#[test]
fn boundary_points_of_a_ring_lie_on_its_inner_edge() {
    let img = ring_image(95, 95, 47, 47, 25 * 25, 33 * 33);
    let pts = find_inner_boundary_points(Point { x: 47, y: 47 }, 30, &img, 3).unwrap();
    for p in pts.iter() {
        assert_eq!(img.get_pixel(p.x, p.y), 0);
        let d = distance(*p, Point { x: 47, y: 47 });
        assert!(d >= 25.0 && d < 27.0);
    }
}

#[test]
fn white_spots_on_the_frame() {
    let img = ring_image(120, 120, 60, 60, 14 * 14, 30 * 30);
    let scan = Scan { img };
    // frame of half-side 4 * 30 / 3 = 40 around (60, 60): edges at 20 and 100
    let spots = scan.find_white_spot_from_annulus(Point { x: 60, y: 60 }, 30);
    assert_eq!(spots.len(), 4);
    assert_eq!(spots[0], Point { x: 20, y: 20 });
    assert_eq!(spots[1], Point { x: 20, y: 100 });
    assert_eq!(spots[2], Point { x: 20, y: 20 });
    assert_eq!(spots[3], Point { x: 100, y: 20 });
}

#[test]
fn white_spots_skip_dark_edges() {
    // everything dark but the last column
    let mut pixels = vec![0u8; 60 * 60];
    for y in 0..60usize {
        pixels[y * 60 + 59] = 255;
    }
    let scan = Scan { img: LumaImage::new(60, 60, pixels).unwrap() };
    let spots = scan.find_white_spot_from_annulus(Point { x: 30, y: 30 }, 15);
    // only edges reaching near the light column could qualify; none does
    assert!(spots.is_empty());
    let none = scan.find_white_spot_from_annulus(Point { x: 30, y: 30 }, 0);
    assert!(none.is_empty());
}

#[test]
fn boundary_points_with_a_huge_radius() {
    // the walks leave the image long before their 2 * r + min_count steps
    let img = LumaImage::new(6, 6, vec![255u8; 36]).unwrap();
    assert_eq!(find_inner_boundary_points(Point { x: 3, y: 3 }, 1 << 30, &img, 5), None);
    let mut pixels = vec![255u8; 36];
    for (x, y) in [(0usize, 0usize), (1, 1), (2, 4), (1, 5), (4, 4), (5, 5)] {
        pixels[y * 6 + x] = 0;
    }
    let img = LumaImage::new(6, 6, pixels).unwrap();
    let pts = find_inner_boundary_points(Point { x: 3, y: 3 }, 0x7fff_fff0, &img, 5).unwrap();
    assert_eq!(pts, [Point { x: 1, y: 1 }, Point { x: 2, y: 4 }, Point { x: 4, y: 4 }]);
}

/// A white sheet with a black ring of squared radius `r_in2 ..= r_out2`
/// around each center.
fn sheet_with_rings(w: u32, h: u32, centers: &[(i64, i64)], r_in2: i64, r_out2: i64) -> LumaImage {
    let mut pixels = vec![255u8; (w * h) as usize];
    for (cx, cy) in centers.iter() {
        let reach = 80i64;
        for y in (cy - reach).max(0)..(cy + reach).min(h as i64) {
            for x in (cx - reach).max(0)..(cx + reach).min(w as i64) {
                let d2 = (x - cx) * (x - cx) + (y - cy) * (y - cy);
                if r_in2 <= d2 && d2 <= r_out2 {
                    pixels[(y * w as i64 + x) as usize] = 0;
                }
            }
        }
    }
    LumaImage::new(w, h, pixels).unwrap()
}

#[test]
fn circles_in_sample_bubblesheet() {
    // registration rings at the four corners of a sheet
    let img = sheet_with_rings(
        1600,
        2200,
        &[(173, 203), (1474, 204), (168, 2100), (1470, 2101)],
        53 * 53,
        70 * 70,
    );
    let scan = Scan { img };

    let real_centers = [
        Point { x: 173, y: 203 },
        Point { x: 1474, y: 204 },
        Point { x: 168, y: 2100 },
        Point { x: 1470, y: 2101 },
    ];
    let test_centers = [
        Point { x: 186, y: 210 },
        Point { x: 1461, y: 183 },
        Point { x: 212, y: 2073 },
        Point { x: 1481, y: 2099 },
    ];
    let real_radius = 35;

    for i in 0..3 {
        assert!(scan.center_search_ok(test_centers[i], real_radius));
        let res = scan
            .real_center(test_centers[i], real_radius, circumcenter)
            .expect("could not find a center");
        assert!(distance(real_centers[i], res) < 4.0);
    }
}

#[test]
fn measurability_checks() {
    let img = LumaImage::new(10, 10, vec![0u8; 100]).unwrap();
    let scan = Scan { img };
    assert!(scan.span_ok(Point { x: 0, y: 0 }, Point { x: 10, y: 10 }));
    assert!(scan.span_ok(Point { x: 0, y: 0 }, Point { x: 65535, y: 65535 }));
    assert!(!scan.span_ok(Point { x: 0, y: 0 }, Point { x: 65536, y: 65536 }));
    assert!(scan.around_ok(Point { x: 5, y: 5 }, 5));
    assert!(!scan.around_ok(Point { x: 5, y: 5 }, 6));
    assert!(!scan.around_ok(Point { x: 4294967290, y: 5 }, 6));
}

#[test]
fn ray_range_checks() {
    let img = LumaImage::new(6, 6, vec![255u8; 36]).unwrap();
    assert!(rays_ok(&img, Point { x: 3, y: 3 }, 1 << 30, 5));
    // 2 * r + min_count beyond u32
    assert!(!rays_ok(&img, Point { x: 3, y: 3 }, 0x8000_0000, 0));
    // the first walk leaves the image at once: only its first step counts
    assert!(rays_ok(&img, Point { x: 0x7fff_ffff, y: 3 }, 2, 1));
    // read as an i32 this start is i32::MIN: its first step left overflows
    assert!(!rays_ok(&img, Point { x: 0x8000_0000, y: 3 }, 2, 1));
}

#[test]
fn center_search_checks() {
    let img = ring_image(95, 95, 47, 47, 25 * 25, 33 * 33);
    let scan = Scan { img };
    assert!(scan.center_search_ok(Point { x: 40, y: 60 }, 30));
    // the first square measured would reach below 0
    assert!(!scan.center_search_ok(Point { x: 5, y: 60 }, 30));
}
