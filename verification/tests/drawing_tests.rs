use exam_scan::draw::{mark_ok, marks_ok};
use exam_scan::point::Point;
use exam_scan::raster::{gray_to_rgb, LumaImage};
use exam_scan::scan::Scan;
use exam_scan::template::{ExamKey, Marks, Question, Template, AnswerBox};

fn rgb_at(raw: &[u8], w: u32, x: u32, y: u32) -> [u8; 3] {
    let i = 3 * (y * w + x) as usize;
    [raw[i], raw[i + 1], raw[i + 2]]
}

fn gray_scan(w: u32, h: u32) -> Scan {
    let mut pixels = Vec::new();
    for i in 0..(w * h) {
        pixels.push((i % 200) as u8 + 10);
    }
    Scan { img: LumaImage::new(w, h, pixels).unwrap() }
}

fn template(radius: u32) -> Template {
    Template {
        width: 60,
        height: 60,
        circle_centers: [Point { x: 10, y: 10 }, Point { x: 50, y: 10 }, Point { x: 10, y: 50 }],
        circle_radius: radius,
        questions: vec![Question { boxes: vec![AnswerBox { a: Point { x: 1, y: 1 }, b: Point { x: 3, y: 3 } }] }],
        version: Question { boxes: vec![AnswerBox { a: Point { x: 5, y: 5 }, b: Point { x: 7, y: 7 } }] },
        id_questions: vec![],
    }
}

#[test]
fn gray_becomes_equal_channels() {
    let img = LumaImage::new(2, 2, vec![0, 50, 100, 255]).unwrap();
    let rgb = gray_to_rgb(&img);
    assert_eq!(rgb.dimensions(), (2, 2));
    assert_eq!(rgb.into_raw(), vec![0, 0, 0, 50, 50, 50, 100, 100, 100, 255, 255, 255]);
}

#[test]
fn circle_everything_marks_centers_with_crosses_and_rings() {
    let s = gray_scan(60, 60);
    let t = template(5);
    let centers = [Point { x: 12, y: 11 }, Point { x: 48, y: 9 }, Point { x: 11, y: 47 }];
    let (canvas, boxes) = s.circle_everything(&t, &centers);
    assert_eq!(canvas.dimensions(), (60, 60));
    assert_eq!(boxes, t.all_boxes());
    let raw = canvas.into_raw();
    let red = [255, 0, 0];
    // the crosses
    assert_eq!(rgb_at(&raw, 60, 12, 11), red);
    assert_eq!(rgb_at(&raw, 60, 11, 11), red);
    assert_eq!(rgb_at(&raw, 60, 13, 11), red);
    assert_eq!(rgb_at(&raw, 60, 12, 10), red);
    assert_eq!(rgb_at(&raw, 60, 12, 12), red);
    // the rings of radius 5 to 8 pass through the points straight right of the center
    for r in 5..9 {
        assert_eq!(rgb_at(&raw, 60, 12 + r, 11), red);
        assert_eq!(rgb_at(&raw, 60, 12, 11 + r), red);
    }
    // untouched pixels keep their gray value
    let g = s.img.get_pixel(30, 30);
    assert_eq!(rgb_at(&raw, 60, 30, 30), [g, g, g]);
    let g = s.img.get_pixel(13, 12);
    assert_eq!(rgb_at(&raw, 60, 13, 12), [g, g, g]);
}

#[test]
fn crosses_at_the_border_are_clipped() {
    let s = gray_scan(20, 20);
    let t = template(3);
    let centers = [Point { x: 0, y: 0 }, Point { x: 19, y: 19 }, Point { x: 5, y: 5 }];
    let (canvas, _) = s.circle_everything(&t, &centers);
    let raw = canvas.into_raw();
    assert_eq!(raw.len(), 20 * 20 * 3);
    assert_eq!(rgb_at(&raw, 20, 0, 0), [255, 0, 0]);
    assert_eq!(rgb_at(&raw, 20, 19, 19), [255, 0, 0]);
    assert_eq!(rgb_at(&raw, 20, 18, 19), [255, 0, 0]);
}

#[test]
fn imagereport_draws_only_crosses() {
    let s = gray_scan(60, 60);
    let t = template(5);
    let k: ExamKey = vec![vec![0]];
    let marks = Marks { version: Some(0), answers: vec![Some(0)], id: vec![] };
    let centers = [Point { x: 12, y: 11 }, Point { x: 48, y: 9 }, Point { x: 11, y: 47 }];
    let (canvas, plan) = s.generate_imagereport(&t, &k, &marks, &centers);
    assert_eq!(plan.score, 1);
    assert_eq!(plan.circles.len(), 2);
    let raw = canvas.into_raw();
    assert_eq!(rgb_at(&raw, 60, 12, 11), [255, 0, 0]);
    // no ring: the point five to the right keeps its gray value
    let g = s.img.get_pixel(17, 11);
    assert_eq!(rgb_at(&raw, 60, 17, 11), [g, g, g]);
}

#[test]
fn mark_checks() {
    let c = Point { x: 10, y: 10 };
    assert!(mark_ok(c, 0x2000_0000, true));
    assert!(mark_ok(c, 1_073_741_816, true));
    assert!(!mark_ok(c, 1_073_741_818, true));
    // read as an i32 the radius is negative: nothing is drawn, which is fine
    assert!(mark_ok(c, 0x8000_0002, true));
    // 0x8000_0001 reads as i32::MIN + 1, for which `1 - radius` overflows
    assert!(!mark_ok(c, 0x8000_0001, true));
    assert!(!mark_ok(Point { x: 0x7fff_ffff, y: 10 }, 3, false));
    assert!(mark_ok(Point { x: 0x7fff_fffe, y: 10 }, 3, false));
    assert!(marks_ok(&[c, c, c], 5, true));
    assert!(!marks_ok(&[c, c, Point { x: 0x8000_0000, y: 1 }], 5, false));
}

#[test]
fn marked_pixels_are_gray_or_red() {
    let s = gray_scan(60, 60);
    let t = template(5);
    let centers = [Point { x: 12, y: 11 }, Point { x: 48, y: 9 }, Point { x: 11, y: 47 }];
    let (canvas, _) = s.circle_everything(&t, &centers);
    let raw = canvas.into_raw();
    for y in 0..60u32 {
        for x in 0..60u32 {
            let px = rgb_at(&raw, 60, x, y);
            let g = s.img.get_pixel(x, y);
            assert!(px == [g, g, g] || px == [255, 0, 0]);
        }
    }
}
