//! Student id, score and the bubbles a marked-up report circles, from the
//! choices read off a scan.

use vstd::prelude::*;
use crate::decimal::{decimal_digits, digits_value, decimal_scale, pow10, lemma_pow10_positive,
    lemma_digits_value_concat, lemma_decimal_digits_value};
use crate::scan::Scan;
use crate::template::{AnswerBox, ExamKey, Marks, Question, Template};

verus! {

/// The decimal digits of the marked id choices written one after the other
/// (unmarked id questions contribute nothing).
pub open spec fn id_digits(choices: Seq<Option<u32>>) -> Seq<u8>
    decreases choices.len(),
{
    if choices.len() == 0 {
        Seq::empty()
    } else {
        id_digits(choices.drop_last()) + match choices.last() {
            Some(d) => decimal_digits(d as nat),
            None => Seq::empty(),
        }
    }
}

/// The student id: the number the digit string denotes, `None` when no id
/// question is marked or the number exceeds `u32::MAX`.
pub open spec fn spec_id(choices: Seq<Option<u32>>) -> Option<u32> {
    let ds = id_digits(choices);
    if ds.len() == 0 {
        None
    } else if digits_value(ds) <= u32::MAX {
        Some(digits_value(ds) as u32)
    } else {
        None
    }
}

/// Number of the first `n` questions whose marked choice is the key's.
pub open spec fn correct_count(answers: Seq<Option<u32>>, key_row: Seq<u32>, n: int) -> nat
    decreases n,
{
    if n <= 0 {
        0
    } else {
        correct_count(answers, key_row, n - 1) + if answers[n - 1] == Some(key_row[n - 1]) {
            1nat
        } else {
            0nat
        }
    }
}

/// The score: `None` when no version is marked, else the number of answers
/// that match the key of the marked version.
pub open spec fn spec_score(answers: Seq<Option<u32>>, version: Option<u32>, key: Seq<Seq<u32>>) -> Option<u32> {
    match version {
        None => None,
        Some(v) => Some(correct_count(answers, key[v as int], answers.len() as int) as u32),
    }
}

/// The key is looked up only where it has an entry: for each marked answer,
/// the marked version has a key row holding that question.
pub open spec fn key_covers_marked(answers: Seq<Option<u32>>, version: Option<u32>, key: Seq<Seq<u32>>) -> bool {
    version matches Some(v) ==> forall|i: int|
        0 <= i < answers.len() && #[trigger] answers[i] is Some ==> v < key.len() && i < key[v as int].len()
}

pub open spec fn key_view(k: &ExamKey) -> Seq<Seq<u32>> {
    k@.map_values(|row: Vec<u32>| row@)
}

impl Scan {
    /// The student id spelled by the choices marked on the id questions:
    /// their decimal digits written one after the other, read as a number.
    /// `None` when no id question is marked or the number exceeds `u32::MAX`.
    pub fn id(&self, t: &Template, marks: &Marks) -> (res: Option<u32>)
        requires
            marks.id@.len() == t.id_questions@.len(),
        ensures
            res == spec_id(marks.id@),
    {
        let choices = &marks.id;
        let mut acc: u64 = 0;
        let mut any = false;
        let mut overflow = false;
        let mut i: usize = 0;
        while i < choices.len()
            invariant
                i <= choices@.len(),
                any == (id_digits(choices@.take(i as int)).len() > 0),
                !overflow ==> acc == digits_value(id_digits(choices@.take(i as int))) && acc <= u32::MAX,
                overflow ==> digits_value(id_digits(choices@.take(i as int))) > u32::MAX,
            decreases choices@.len() - i,
        {
            let ghost before = id_digits(choices@.take(i as int));
            proof {
                assert(choices@.take(i + 1).drop_last() =~= choices@.take(i as int));
                assert(choices@.take(i + 1).last() == choices@[i as int]);
            }
            if let Some(num) = choices[i] {
                proof {
                    let ds = decimal_digits(num as nat);
                    lemma_digits_value_concat(before, ds);
                    lemma_decimal_digits_value(num as nat);
                    lemma_pow10_positive(ds.len());
                    let v = digits_value(before);
                    assert(v * pow10(ds.len()) >= v) by (nonlinear_arith)
                        requires
                            pow10(ds.len()) >= 1,
                    ;
                }
                any = true;
                if !overflow {
                    let p = decimal_scale(num);
                    proof {
                        assert(acc as int * p as int <= u32::MAX as int * u64::MAX as int) by (nonlinear_arith)
                            requires
                                acc <= u32::MAX,
                                p <= u64::MAX,
                        ;
                    }
                    let next: u128 = (acc as u128) * (p as u128) + num as u128;
                    if next > 0xffff_ffff {
                        overflow = true;
                    } else {
                        acc = next as u64;
                    }
                }
            } else {
                proof {
                    assert(before + Seq::<u8>::empty() =~= before);
                }
            }
            i = i + 1;
        }
        proof {
            assert(choices@.take(choices@.len() as int) =~= choices@);
        }
        if !any || overflow {
            None
        } else {
            Some(acc as u32)
        }
    }

    /// The score of the sheet: `None` when no version is marked; else the
    /// number of questions whose marked choice is the key's for that version.
    pub fn score(&self, t: &Template, k: &ExamKey, marks: &Marks) -> (res: Option<u32>)
        requires
            marks.answers@.len() == t.questions@.len(),
            key_covers_marked(marks.answers@, marks.version, key_view(k)),
            marks.version matches Some(v) ==> correct_count(marks.answers@, key_view(k)[v as int], marks.answers@.len() as int) <= u32::MAX,
        ensures
            res == spec_score(marks.answers@, marks.version, key_view(k)),
    {
        let answers = &marks.answers;
        match marks.version {
            Some(v) => {
                let ghost kv = key_view(k);
                let mut score: u32 = 0;
                let mut i: usize = 0;
                while i < answers.len()
                    invariant
                        kv == key_view(k),
                        i <= answers@.len(),
                        key_covers_marked(answers@, Some(v), kv),
                        correct_count(answers@, kv[v as int], answers@.len() as int) <= u32::MAX,
                        score == correct_count(answers@, kv[v as int], i as int),
                    decreases answers@.len() - i,
                {
                    proof {
                        lemma_correct_count_le(answers@, kv[v as int], i + 1, answers@.len() as int);
                    }
                    if let Some(answer) = answers[i] {
                        assert(answers@[i as int] is Some);
                        assert(kv[v as int] == k@[v as int]@);
                        if answer == k[v as usize][i] {
                            score = score + 1;
                        }
                    }
                    i = i + 1;
                }
                Some(score)
            },
            None => None,
        }
    }
}

/// Counting over fewer questions counts no more.
pub proof fn lemma_correct_count_le(answers: Seq<Option<u32>>, key_row: Seq<u32>, m: int, n: int)
    requires
        m <= n,
    ensures
        correct_count(answers, key_row, m) <= correct_count(answers, key_row, n),
    decreases n - m,
{
    if m < n {
        lemma_correct_count_le(answers, key_row, m, n - 1);
    }
}


/// A bubble to circle on a report: green when `good`, red otherwise.
#[derive(Clone, Copy, Debug, PartialEq, Eq, Structural)]
pub struct Circled {
    pub area: AnswerBox,
    pub good: bool,
}

/// What a marked-up report of a scan shows besides the scan itself.
pub struct ReportPlan {
    /// The student id read off the sheet.
    pub sid: Option<u32>,
    /// The marked exam version.
    pub version: Option<u32>,
    /// Number of answers matching the key (0 when no version is marked).
    pub score: u32,
    /// The bubbles to circle, in drawing order.
    pub circles: Vec<Circled>,
}

/// For each answer question, its correct bubble: green when it is the one
/// marked, red otherwise.
pub open spec fn answer_circles(qs: Seq<Question>, answers: Seq<Option<u32>>, row: Seq<u32>) -> Seq<Circled> {
    Seq::new(qs.len(), |i: int| Circled { area: qs[i].boxes@[row[i] as int], good: answers[i] == Some(row[i]) })
}

/// For each of the first `n` id questions with a marked choice, that bubble, green.
pub open spec fn id_circles(qs: Seq<Question>, ids: Seq<Option<u32>>, n: int) -> Seq<Circled>
    decreases n,
{
    if n <= 0 {
        Seq::empty()
    } else {
        id_circles(qs, ids, n - 1) + match ids[n - 1] {
            Some(j) => seq![Circled { area: qs[n - 1].boxes@[j as int], good: true }],
            None => Seq::empty(),
        }
    }
}

/// The bubbles a report circles: when a version is marked, its bubble (green)
/// and each question's correct bubble; then the marked id bubbles.
pub open spec fn spec_report_circles(t: &Template, key: Seq<Seq<u32>>, marks: &Marks) -> Seq<Circled> {
    let head = match marks.version {
        Some(v) => seq![Circled { area: t.version.boxes@[v as int], good: true }]
            + answer_circles(t.questions@, marks.answers@, key[v as int]),
        None => Seq::empty(),
    };
    head + id_circles(t.id_questions@, marks.id@, marks.id@.len() as int)
}

/// Number of marked choices among `ids`.
pub open spec fn marked_count(ids: Seq<Option<u32>>) -> nat
    decreases ids.len(),
{
    if ids.len() == 0 {
        0
    } else {
        marked_count(ids.drop_last()) + if ids.last() is Some { 1nat } else { 0nat }
    }
}

/// The circles of the first `n` id questions: one per marked question, the
/// one of question `i` after those of the marked questions before it.
proof fn lemma_id_circles_place(qs: Seq<Question>, ids: Seq<Option<u32>>, n: int)
    requires
        0 <= n <= ids.len(),
    ensures
        id_circles(qs, ids, n).len() == marked_count(ids.take(n)),
        forall|i: int| 0 <= i < n && #[trigger] ids[i] is Some ==>
            id_circles(qs, ids, n)[marked_count(ids.take(i)) as int]
                == (Circled { area: qs[i].boxes@[ids[i]->0 as int], good: true }),
    decreases n,
{
    if n > 0 {
        lemma_id_circles_place(qs, ids, n - 1);
        assert(ids.take(n).drop_last() =~= ids.take(n - 1));
        assert(ids.take(n).last() == ids[n - 1]);
        let prev = id_circles(qs, ids, n - 1);
        assert forall|i: int| 0 <= i < n && #[trigger] ids[i] is Some implies
            id_circles(qs, ids, n)[marked_count(ids.take(i)) as int]
                == (Circled { area: qs[i].boxes@[ids[i]->0 as int], good: true }) by {
            if i < n - 1 {
                lemma_marked_count_mono(ids, i, n - 1);
                assert(id_circles(qs, ids, n)[marked_count(ids.take(i)) as int] == prev[marked_count(ids.take(i)) as int]);
            }
        }
    }
}

/// Fewer questions have no more marked choices.
proof fn lemma_marked_count_mono(ids: Seq<Option<u32>>, m: int, n: int)
    requires
        0 <= m <= n <= ids.len(),
    ensures
        marked_count(ids.take(m)) <= marked_count(ids.take(n)),
        m < n && ids[m] is Some ==> marked_count(ids.take(m)) < marked_count(ids.take(n)),
    decreases n - m,
{
    if m < n {
        lemma_marked_count_mono(ids, m, n - 1);
        assert(ids.take(n).drop_last() =~= ids.take(n - 1));
        if m == n - 1 {
            assert(ids.take(n).last() == ids[m]);
        }
    }
}

/// The bubbles a report circles: with a version `v` marked, first the
/// version's bubble in green, then for each question `i` its correct bubble
/// (`key[v][i]`), green exactly when that is the choice marked; after these
/// (none without a version), one green circle for each id question with a
/// marked choice, whatever the choice (0 included), in the order of the
/// questions: that of question `i` comes after those of the marked questions
/// before it, and there are as many as marked id questions.
pub proof fn lemma_report_circles_layout(t: &Template, key: Seq<Seq<u32>>, marks: &Marks)
    requires
        marks.answers@.len() == t.questions@.len(),
        marks.id@.len() == t.id_questions@.len(),
    ensures
        ({
            let circles = spec_report_circles(t, key, marks);
            let head: int = if marks.version is Some { 1 + t.questions@.len() as int } else { 0 };
            &&& circles.len() == head + marked_count(marks.id@)
            &&& marks.version matches Some(v) ==> {
                &&& circles[0] == (Circled { area: t.version.boxes@[v as int], good: true })
                &&& forall|i: int| 0 <= i < t.questions@.len() ==> #[trigger] circles[1 + i] == (Circled {
                    area: t.questions@[i].boxes@[key[v as int][i] as int],
                    good: marks.answers@[i] == Some(key[v as int][i]),
                })
            }
            &&& forall|i: int| 0 <= i < marks.id@.len() && #[trigger] marks.id@[i] is Some ==>
                circles[head + marked_count(marks.id@.take(i))]
                    == (Circled { area: t.id_questions@[i].boxes@[marks.id@[i]->0 as int], good: true })
        }),
{
    let ids = marks.id@;
    lemma_id_circles_place(t.id_questions@, ids, ids.len() as int);
    assert(ids.take(ids.len() as int) =~= ids);
    let circles = spec_report_circles(t, key, marks);
    let head: int = if marks.version is Some { 1 + t.questions@.len() as int } else { 0 };
    assert forall|i: int| 0 <= i < ids.len() && #[trigger] ids[i] is Some implies
        circles[head + marked_count(ids.take(i))] == (Circled { area: t.id_questions@[i].boxes@[ids[i]->0 as int], good: true }) by {
        lemma_marked_count_mono(ids, i, ids.len() as int);
    }
}

/// Every bubble and key entry a report looks up exists (the key is looked up
/// only when there are questions), and the score fits in a `u32`.
pub open spec fn report_lookups_fit(t: &Template, key: Seq<Seq<u32>>, marks: &Marks) -> bool {
    &&& marks.answers@.len() == t.questions@.len()
    &&& marks.id@.len() == t.id_questions@.len()
    &&& marks.version matches Some(v) ==> {
        &&& v < t.version.boxes@.len()
        &&& t.questions@.len() > 0 ==> v < key.len() && t.questions@.len() <= key[v as int].len()
        &&& forall|i: int| 0 <= i < t.questions@.len() ==> key[v as int][i] < (#[trigger] t.questions@[i]).boxes@.len()
        &&& correct_count(marks.answers@, key[v as int], marks.answers@.len() as int) <= u32::MAX
    }
    &&& forall|i: int| 0 <= i < marks.id@.len() && #[trigger] marks.id@[i] is Some
        ==> marks.id@[i]->0 < t.id_questions@[i].boxes@.len()
}

/// Whether `Scan::score` can score these marks: one mark per question, a
/// key entry for every marked answer, and a score that fits in a `u32`.
pub fn score_lookups_ok(t: &Template, k: &ExamKey, marks: &Marks) -> (res: bool)
    ensures
        res == {
            &&& marks.answers@.len() == t.questions@.len()
            &&& key_covers_marked(marks.answers@, marks.version, key_view(k))
            &&& marks.version matches Some(v) ==> correct_count(marks.answers@, key_view(k)[v as int], marks.answers@.len() as int) <= u32::MAX
        },
{
    let ghost kv = key_view(k);
    if marks.answers.len() != t.questions.len() {
        return false;
    }
    let v = match marks.version {
        None => {
            return true;
        },
        Some(v) => v,
    };
    let ghost row = kv[v as int];
    let mut count: u64 = 0;
    let mut i: usize = 0;
    while i < marks.answers.len()
        invariant
            kv == key_view(k),
            marks.version == Some(v),
            row == kv[v as int],
            i <= marks.answers@.len(),
            count == correct_count(marks.answers@, row, i as int),
            count <= i,
            forall|j: int| 0 <= j < i && #[trigger] marks.answers@[j] is Some ==> v < kv.len() && j < kv[v as int].len(),
        decreases marks.answers@.len() - i,
    {
        if let Some(a) = marks.answers[i] {
            if v as usize >= k.len() || i >= k[v as usize].len() {
                assert(marks.answers@[i as int] is Some);
                assert(!key_covers_marked(marks.answers@, marks.version, kv));
                return false;
            }
            assert(k@[v as int]@ == row);
            if a == k[v as usize][i] {
                count = count + 1;
            }
        }
        i = i + 1;
    }
    count <= 0xffff_ffff
}

/// Whether every marked id choice has its bubble.
fn id_lookups_ok(t: &Template, marks: &Marks) -> (res: bool)
    requires
        marks.id@.len() == t.id_questions@.len(),
    ensures
        res == forall|i: int| 0 <= i < marks.id@.len() && #[trigger] marks.id@[i] is Some
            ==> marks.id@[i]->0 < t.id_questions@[i].boxes@.len(),
{
    let mut j: usize = 0;
    while j < marks.id.len()
        invariant
            j <= marks.id@.len(),
            marks.id@.len() == t.id_questions@.len(),
            forall|l: int| 0 <= l < j && #[trigger] marks.id@[l] is Some
                ==> marks.id@[l]->0 < t.id_questions@[l].boxes@.len(),
        decreases marks.id@.len() - j,
    {
        if let Some(idx) = marks.id[j] {
            if idx as usize >= t.id_questions[j].boxes.len() {
                assert(marks.id@[j as int] is Some);
                return false;
            }
        }
        j = j + 1;
    }
    true
}

/// Whether every bubble and key entry a report looks up exists, and the
/// score fits in a `u32`.
pub fn report_lookups_ok(t: &Template, k: &ExamKey, marks: &Marks) -> (res: bool)
    ensures
        res == report_lookups_fit(t, key_view(k), marks),
{
    let ghost kv = key_view(k);
    if marks.answers.len() != t.questions.len() || marks.id.len() != t.id_questions.len() {
        return false;
    }
    if let Some(v) = marks.version {
        if v as usize >= t.version.boxes.len() {
            return false;
        }
        if t.questions.len() == 0 {
            return id_lookups_ok(t, marks);
        }
        if v as usize >= k.len() {
            return false;
        }
        let row = &k[v as usize];
        assert(row@ == kv[v as int]);
        if t.questions.len() > row.len() {
            return false;
        }
        let mut count: u64 = 0;
        let mut i: usize = 0;
        while i < t.questions.len()
            invariant
                kv == key_view(k),
                marks.version == Some(v),
                v < kv.len(),
                row@ == kv[v as int],
                i <= t.questions@.len(),
                t.questions@.len() <= row@.len(),
                marks.answers@.len() == t.questions@.len(),
                count == correct_count(marks.answers@, row@, i as int),
                count <= i,
                forall|j: int| 0 <= j < i ==> row@[j] < (#[trigger] t.questions@[j]).boxes@.len(),
            decreases t.questions@.len() - i,
        {
            let correct = row[i];
            if correct as usize >= t.questions[i].boxes.len() {
                assert(!(kv[v as int][i as int] < t.questions@[i as int].boxes@.len()));
                return false;
            }
            if marks.answers[i] == Some(correct) {
                count = count + 1;
            }
            i = i + 1;
        }
        if count > 0xffff_ffff {
            return false;
        }
    }
    id_lookups_ok(t, marks)
}

impl Scan {
    /// Everything a marked-up report of this scan shows besides the scan:
    /// the id and version read off it, the score, and the bubbles to circle —
    /// with a version marked, that version's bubble in green and each
    /// question's correct bubble, green when it is the one marked and red
    /// otherwise; then every marked id bubble in green.
    pub fn report_plan(&self, t: &Template, k: &ExamKey, marks: &Marks) -> (res: ReportPlan)
        requires
            report_lookups_fit(t, key_view(k), marks),
        ensures
            res.sid == spec_id(marks.id@),
            res.version == marks.version,
            res.score == spec_report_score(marks.answers@, marks.version, key_view(k)),
            res.circles@ == spec_report_circles(t, key_view(k), marks),
    {
        let ghost kv = key_view(k);
        let mut circles: Vec<Circled> = Vec::new();
        let mut score: u32 = 0;
        if let Some(v) = marks.version {
            circles.push(Circled { area: t.version.boxes[v as usize], good: true });
            let ghost row = kv[v as int];
            let mut i: usize = 0;
            while i < t.questions.len()
                invariant
                    kv == key_view(k),
                    row == kv[v as int],
                    t.questions@.len() > 0 ==> v < k@.len() && row == k@[v as int]@,
                    i <= t.questions@.len(),
                    report_lookups_fit(t, kv, marks),
                    marks.version == Some(v),
                    score == correct_count(marks.answers@, row, i as int),
                    circles@ == seq![Circled { area: t.version.boxes@[v as int], good: true }]
                        + answer_circles(t.questions@, marks.answers@, row).take(i as int),
                decreases t.questions@.len() - i,
            {
                let q = &t.questions[i];
                let correct = k[v as usize][i];
                assert(correct < t.questions@[i as int].boxes@.len());
                let good = match marks.answers[i] {
                    Some(answer) => answer == correct,
                    None => false,
                };
                proof {
                    lemma_correct_count_le(marks.answers@, row, i + 1, marks.answers@.len() as int);
                }
                if good {
                    score = score + 1;
                }
                circles.push(Circled { area: q.boxes[correct as usize], good });
                proof {
                    let full = answer_circles(t.questions@, marks.answers@, row);
                    assert(full.take(i + 1) =~= full.take(i as int).push(full[i as int]));
                }
                i = i + 1;
            }
            proof {
                let full = answer_circles(t.questions@, marks.answers@, row);
                assert(full.take(t.questions@.len() as int) =~= full);
            }
        }
        let ghost head = circles@;
        let mut j: usize = 0;
        while j < t.id_questions.len()
            invariant
                j <= t.id_questions@.len(),
                report_lookups_fit(t, kv, marks),
                circles@ == head + id_circles(t.id_questions@, marks.id@, j as int),
            decreases t.id_questions@.len() - j,
        {
            if let Some(idx) = marks.id[j] {
                assert(marks.id@[j as int] is Some);
                circles.push(Circled { area: t.id_questions[j].boxes[idx as usize], good: true });
            }
            proof {
                assert(circles@ =~= head + id_circles(t.id_questions@, marks.id@, j + 1));
            }
            j = j + 1;
        }
        let sid = self.id(t, marks);
        ReportPlan { sid, version: marks.version, score, circles }
    }
}


/// Marking one more id question with `num` writes the digits of `num` after
/// those read so far: the id's value is shifted left by as many decimal
/// places and `num` added.
pub proof fn lemma_id_appends_digits(choices: Seq<Option<u32>>, num: u32)
    ensures
        id_digits(choices.push(Some(num))) == id_digits(choices) + decimal_digits(num as nat),
        digits_value(id_digits(choices.push(Some(num))))
            == digits_value(id_digits(choices)) * pow10(decimal_digits(num as nat).len()) + num,
{
    assert(choices.push(Some(num)).drop_last() =~= choices);
    lemma_digits_value_concat(id_digits(choices), decimal_digits(num as nat));
    lemma_decimal_digits_value(num as nat);
}

/// An unmarked id question contributes nothing to the id.
pub proof fn lemma_id_skips_unmarked(choices: Seq<Option<u32>>)
    ensures
        spec_id(choices.push(None)) == spec_id(choices),
{
    assert(choices.push(None).drop_last() =~= choices);
    assert(id_digits(choices) + Seq::<u8>::empty() =~= id_digits(choices));
}

/// A single marked id question gives its own choice as the id.
pub proof fn lemma_id_single_choice(num: u32)
    ensures
        spec_id(seq![Some(num)]) == Some(num),
{
    let e = Seq::<Option<u32>>::empty();
    assert(e.push(Some(num)) =~= seq![Some(num)]);
    lemma_id_appends_digits(e, num);
    assert(id_digits(e) =~= Seq::<u8>::empty());
    assert(Seq::<u8>::empty() + decimal_digits(num as nat) =~= decimal_digits(num as nat));
    lemma_decimal_digits_value(num as nat);
}

/// The score counts at most one point per question, and all of them exactly
/// when every question is marked with the key's choice.
pub proof fn lemma_score_bounds(answers: Seq<Option<u32>>, key_row: Seq<u32>, n: int)
    requires
        0 <= n,
    ensures
        correct_count(answers, key_row, n) <= n,
        correct_count(answers, key_row, n) == n <==> forall|i: int| 0 <= i < n ==> #[trigger] answers[i] == Some(key_row[i]),
    decreases n,
{
    if n > 0 {
        lemma_score_bounds(answers, key_row, n - 1);
        if correct_count(answers, key_row, n) == n {
            assert forall|i: int| 0 <= i < n implies #[trigger] answers[i] == Some(key_row[i]) by {
                if i < n - 1 {
                    assert(correct_count(answers, key_row, n - 1) == n - 1);
                }
            }
        }
    }
}

/// The score a report shows: the score, or 0 when no version is marked.
pub open spec fn spec_report_score(answers: Seq<Option<u32>>, version: Option<u32>, key: Seq<Seq<u32>>) -> nat {
    match version {
        Some(v) => correct_count(answers, key[v as int], answers.len() as int),
        None => 0,
    }
}

/// The score a report shows (`ReportPlan::score`, by `report_plan`'s
/// contract `spec_report_score`) is the one `Scan::score` gives
/// (`spec_score`) whenever a version is marked; without a version `score`
/// gives `None` and the report shows 0.
pub proof fn lemma_report_agrees_with_score(answers: Seq<Option<u32>>, version: Option<u32>, key: Seq<Seq<u32>>)
    requires
        spec_report_score(answers, version, key) <= u32::MAX,
    ensures
        version is Some ==> spec_score(answers, version, key) == Some(spec_report_score(answers, version, key) as u32),
        version is None ==> spec_score(answers, version, key) is None && spec_report_score(answers, version, key) == 0,
{
}

} // verus!
