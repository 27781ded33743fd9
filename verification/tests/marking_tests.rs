use exam_scan::marking::{report_lookups_ok, score_lookups_ok};
use exam_scan::marking::Circled;
use exam_scan::point::Point;
use exam_scan::raster::LumaImage;
use exam_scan::scan::Scan;
use exam_scan::template::{AnswerBox, ExamKey, Marks, Question, Template};

fn bubble(x: u32, y: u32) -> AnswerBox {
    AnswerBox { a: Point { x, y }, b: Point { x: x + 10, y: y + 10 } }
}

/// A question with `n` bubbles in row `row`.
fn question(row: u32, n: u32) -> Question {
    let mut boxes = Vec::new();
    for i in 0..n {
        boxes.push(bubble(20 * i, 20 * row));
    }
    Question { boxes }
}

fn template(n_questions: u32, n_ids: u32) -> Template {
    let mut questions = Vec::new();
    for r in 0..n_questions {
        questions.push(question(r, 4));
    }
    let mut id_questions = Vec::new();
    for r in 0..n_ids {
        id_questions.push(question(100 + r, 10));
    }
    Template {
        width: 200,
        height: 300,
        circle_centers: [Point { x: 10, y: 10 }, Point { x: 190, y: 10 }, Point { x: 10, y: 290 }],
        circle_radius: 5,
        questions,
        version: question(50, 2),
        id_questions,
    }
}

fn blank_scan() -> Scan {
    Scan { img: LumaImage::new(4, 4, vec![255; 16]).unwrap() }
}

fn marks(version: Option<u32>, answers: Vec<Option<u32>>, id: Vec<Option<u32>>) -> Marks {
    Marks { version, answers, id }
}

#[test]
fn id_reads_the_digits_in_order() {
    let t = template(0, 4);
    let s = blank_scan();
    assert_eq!(s.id(&t, &marks(None, vec![], vec![Some(1), Some(2), Some(3), Some(4)])), Some(1234));
    assert_eq!(s.id(&t, &marks(None, vec![], vec![Some(0), Some(0), Some(7), Some(0)])), Some(70));
}

#[test]
fn id_skips_unmarked_questions() {
    let t = template(0, 4);
    let s = blank_scan();
    assert_eq!(s.id(&t, &marks(None, vec![], vec![Some(1), None, Some(2), None])), Some(12));
    assert_eq!(s.id(&t, &marks(None, vec![], vec![None, None, None, None])), None);
    let t0 = template(0, 0);
    assert_eq!(s.id(&t0, &marks(None, vec![], vec![])), None);
}

#[test]
fn id_writes_multi_digit_choices_whole() {
    let t = template(0, 3);
    let s = blank_scan();
    assert_eq!(s.id(&t, &marks(None, vec![], vec![Some(12), Some(0), Some(345)])), Some(120345));
}

#[test]
fn id_beyond_u32_is_none() {
    let t = template(0, 2);
    let s = blank_scan();
    assert_eq!(s.id(&t, &marks(None, vec![], vec![Some(4294967295), None])), Some(4294967295));
    assert_eq!(s.id(&t, &marks(None, vec![], vec![Some(4294967295), Some(0)])), None);
    assert_eq!(s.id(&t, &marks(None, vec![], vec![Some(429496729), Some(6)])), None);
    assert_eq!(s.id(&t, &marks(None, vec![], vec![Some(429496729), Some(5)])), Some(4294967295));
}

fn key() -> ExamKey {
    vec![vec![0, 1, 2, 3], vec![3, 2, 1, 0]]
}

#[test]
fn score_counts_matching_answers() {
    let t = template(4, 0);
    let s = blank_scan();
    let k = key();
    assert_eq!(s.score(&t, &k, &marks(Some(0), vec![Some(0), Some(1), Some(3), None], vec![])), Some(2));
    assert_eq!(s.score(&t, &k, &marks(Some(1), vec![Some(0), Some(1), Some(3), None], vec![])), Some(0));
    assert_eq!(s.score(&t, &k, &marks(Some(1), vec![Some(3), Some(2), Some(1), Some(0)], vec![])), Some(4));
}

#[test]
fn score_needs_a_version() {
    let t = template(4, 0);
    let s = blank_scan();
    let k = key();
    assert_eq!(s.score(&t, &k, &marks(None, vec![Some(0), Some(1), Some(2), Some(3)], vec![])), None);
}

#[test]
fn score_looks_up_only_marked_answers() {
    // the key row is shorter than the questions; unmarked ones are not looked up
    let t = template(4, 0);
    let s = blank_scan();
    let k: ExamKey = vec![vec![1, 1]];
    assert_eq!(s.score(&t, &k, &marks(Some(0), vec![Some(1), Some(0), None, None], vec![])), Some(1));
}

#[test]
fn report_plan_circles_version_answers_and_id() {
    let t = template(3, 2);
    let s = blank_scan();
    let k: ExamKey = vec![vec![0, 1, 2], vec![2, 2, 2]];
    let m = marks(Some(1), vec![Some(2), Some(0), None], vec![Some(7), None]);
    let plan = s.report_plan(&t, &k, &m);
    assert_eq!(plan.score, 1);
    assert_eq!(plan.version, Some(1));
    assert_eq!(plan.sid, Some(7));
    let expected = vec![
        Circled { area: t.version.boxes[1], good: true },
        Circled { area: t.questions[0].boxes[2], good: true },
        Circled { area: t.questions[1].boxes[2], good: false },
        Circled { area: t.questions[2].boxes[2], good: false },
        Circled { area: t.id_questions[0].boxes[7], good: true },
    ];
    assert_eq!(plan.circles, expected);
}

#[test]
fn report_plan_without_version() {
    let t = template(3, 2);
    let s = blank_scan();
    let k: ExamKey = vec![];
    let m = marks(None, vec![Some(2), Some(0), None], vec![Some(1), Some(2)]);
    let plan = s.report_plan(&t, &k, &m);
    assert_eq!(plan.score, 0);
    assert_eq!(plan.version, None);
    assert_eq!(plan.sid, Some(12));
    assert_eq!(
        plan.circles,
        vec![
            Circled { area: t.id_questions[0].boxes[1], good: true },
            Circled { area: t.id_questions[1].boxes[2], good: true },
        ]
    );
}

#[test]
fn report_score_is_the_score() {
    let t = template(4, 0);
    let s = blank_scan();
    let k = key();
    let m = marks(Some(0), vec![Some(0), Some(1), Some(3), None], vec![]);
    assert_eq!(Some(s.report_plan(&t, &k, &m).score), s.score(&t, &k, &m));
}

#[test]
fn all_boxes_in_sheet_order() {
    let t = template(2, 1);
    let all = t.all_boxes();
    assert_eq!(all.len(), 4 + 4 + 2 + 10);
    assert_eq!(all[0], t.questions[0].boxes[0]);
    assert_eq!(all[4], t.questions[1].boxes[0]);
    assert_eq!(all[8], t.version.boxes[0]);
    assert_eq!(all[9], t.version.boxes[1]);
    assert_eq!(all[10], t.id_questions[0].boxes[0]);
    assert_eq!(all[19], t.id_questions[0].boxes[9]);
}

#[test]
fn lookup_checks() {
    let t = template(3, 1);
    let k: ExamKey = vec![vec![0, 1, 2], vec![3, 3, 9]];
    let good = marks(Some(0), vec![Some(0), None, Some(1)], vec![Some(9)]);
    assert!(report_lookups_ok(&t, &k, &good));
    assert!(score_lookups_ok(&t, &k, &good));
    // version 1's key points at a bubble question 2 does not have
    let bad_key = marks(Some(1), vec![Some(0), None, Some(1)], vec![None]);
    assert!(!report_lookups_ok(&t, &k, &bad_key));
    assert!(score_lookups_ok(&t, &k, &bad_key));
    // an id choice beyond the id question's bubbles
    let bad_id = marks(None, vec![None, None, None], vec![Some(10)]);
    assert!(!report_lookups_ok(&t, &k, &bad_id));
    // a version without a key row
    let no_row = marks(Some(2), vec![Some(0), None, None], vec![None]);
    assert!(!score_lookups_ok(&t, &k, &no_row));
    let unmarked = marks(Some(2), vec![None, None, None], vec![None]);
    assert!(score_lookups_ok(&t, &k, &unmarked));
}

#[test]
fn no_questions_need_no_key_row() {
    let t = template(0, 1);
    let s = blank_scan();
    let k: ExamKey = vec![];
    let m = marks(Some(1), vec![], vec![Some(3)]);
    assert!(report_lookups_ok(&t, &k, &m));
    let plan = s.report_plan(&t, &k, &m);
    assert_eq!(plan.score, 0);
    assert_eq!(plan.circles.len(), 2);
    assert_eq!(plan.circles[0], Circled { area: t.version.boxes[1], good: true });
}
