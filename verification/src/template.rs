//! The layout of an answer sheet and the marks read off a scan of it.

use vstd::prelude::*;
use crate::point::Point;

verus! {

/// A bubble of the sheet, given by two opposite corners.
#[derive(Clone, Copy, Debug, PartialEq, Eq, Structural)]
pub struct AnswerBox {
    pub a: Point,
    pub b: Point,
}

/// A question: its bubbles, choice `i` being `boxes[i]`.
pub struct Question {
    pub boxes: Vec<AnswerBox>,
}

/// The layout of a sheet: its size, its three registration circles, the
/// answer questions, the question whose choice gives the exam version, and
/// the questions whose choices spell the student id, one digit group each.
pub struct Template {
    pub width: u32,
    pub height: u32,
    pub circle_centers: [Point; 3],
    pub circle_radius: u32,
    pub questions: Vec<Question>,
    pub version: Question,
    pub id_questions: Vec<Question>,
}

/// For each exam version, the correct choice of each question.
pub type ExamKey = Vec<Vec<u32>>;

/// The choices read off one scan for the questions of a template (`None`
/// where no bubble of a question is marked): for the version question,
/// for each answer question, and for each id question.
pub struct Marks {
    pub version: Option<u32>,
    pub answers: Vec<Option<u32>>,
    pub id: Vec<Option<u32>>,
}

/// The bubbles of the questions, question after question.
pub open spec fn boxes_of(qs: Seq<Question>) -> Seq<AnswerBox>
    decreases qs.len(),
{
    if qs.len() == 0 {
        Seq::empty()
    } else {
        boxes_of(qs.drop_last()) + qs.last().boxes@
    }
}

impl Template {
    /// Every bubble of the sheet: those of the answer questions, then those
    /// of the version question, then those of the id questions.
    pub open spec fn spec_all_boxes(&self) -> Seq<AnswerBox> {
        boxes_of(self.questions@.push(self.version).add(self.id_questions@))
    }
}

/// Appends the bubbles of `qs` to `out`.
fn append_boxes(out: &mut Vec<AnswerBox>, qs: &Vec<Question>)
    ensures
        final(out)@ == old(out)@ + boxes_of(qs@),
{
    let mut i: usize = 0;
    while i < qs.len()
        invariant
            i <= qs@.len(),
            out@ == old(out)@ + boxes_of(qs@.take(i as int)),
        decreases qs@.len() - i,
    {
        append_question_boxes(out, &qs[i]);
        proof {
            assert(qs@.take(i + 1).drop_last() =~= qs@.take(i as int));
            assert(qs@.take(i + 1).last() == qs@[i as int]);
        }
        i = i + 1;
    }
    proof {
        assert(qs@.take(qs@.len() as int) =~= qs@);
    }
}

/// Appends the bubbles of `q` to `out`.
fn append_question_boxes(out: &mut Vec<AnswerBox>, q: &Question)
    ensures
        final(out)@ == old(out)@ + q.boxes@,
{
    let mut j: usize = 0;
    while j < q.boxes.len()
        invariant
            j <= q.boxes@.len(),
            out@ == old(out)@ + q.boxes@.take(j as int),
        decreases q.boxes@.len() - j,
    {
        out.push(q.boxes[j]);
        proof {
            assert(q.boxes@.take(j + 1) =~= q.boxes@.take(j as int).push(q.boxes@[j as int]));
        }
        j = j + 1;
    }
    proof {
        assert(q.boxes@.take(q.boxes@.len() as int) =~= q.boxes@);
    }
}

/// The bubbles of a list of questions followed by those of another.
pub proof fn lemma_boxes_of_concat(a: Seq<Question>, b: Seq<Question>)
    ensures
        boxes_of(a + b) == boxes_of(a) + boxes_of(b),
    decreases b.len(),
{
    if b.len() == 0 {
        assert(a + b =~= a);
        assert(boxes_of(a) + boxes_of(b) =~= boxes_of(a));
    } else {
        lemma_boxes_of_concat(a, b.drop_last());
        assert((a + b).drop_last() =~= a + b.drop_last());
        assert((a + b).last() == b.last());
        assert(boxes_of(a) + boxes_of(b) =~= boxes_of(a) + boxes_of(b.drop_last()) + b.last().boxes@);
    }
}

impl Template {
    /// Every bubble of the sheet: those of the answer questions, then those
    /// of the version question, then those of the id questions.
    pub fn all_boxes(&self) -> (res: Vec<AnswerBox>)
        ensures
            res@ == self.spec_all_boxes(),
    {
        let mut res: Vec<AnswerBox> = Vec::new();
        append_boxes(&mut res, &self.questions);
        append_question_boxes(&mut res, &self.version);
        append_boxes(&mut res, &self.id_questions);
        proof {
            let qs = self.questions@;
            let v = seq![self.version];
            let ids = self.id_questions@;
            assert(qs.push(self.version).add(ids) =~= qs + v + ids);
            lemma_boxes_of_concat(qs + v, ids);
            lemma_boxes_of_concat(qs, v);
            assert(v.drop_last() =~= Seq::<Question>::empty());
            assert(v.last() == self.version);
            assert(boxes_of(v.drop_last()) =~= Seq::<AnswerBox>::empty());
            assert(boxes_of(v) =~= self.version.boxes@);
            assert(res@ =~= boxes_of(qs) + self.version.boxes@ + boxes_of(ids));
        }
        res
    }
}

/// Number of bubbles of the questions together.
pub open spec fn bubble_count(qs: Seq<Question>) -> nat
    decreases qs.len(),
{
    if qs.len() == 0 {
        0
    } else {
        bubble_count(qs.drop_last()) + qs.last().boxes@.len()
    }
}

/// The questions before the `i`-th hold no more bubbles than all of them,
/// nor than those before the `i`-th together with the `i`-th's.
proof fn lemma_bubble_count_prefix(qs: Seq<Question>, i: int)
    requires
        0 <= i <= qs.len(),
    ensures
        bubble_count(qs.take(i)) <= bubble_count(qs),
        i < qs.len() ==> bubble_count(qs.take(i)) + qs[i].boxes@.len() <= bubble_count(qs),
    decreases qs.len(),
{
    if i == qs.len() {
        assert(qs.take(i) =~= qs);
    } else {
        let init = qs.drop_last();
        assert(qs.take(i) =~= init.take(i));
        if i < init.len() {
            lemma_bubble_count_prefix(init, i);
        } else {
            assert(init.take(i) =~= init);
        }
    }
}

/// The bubbles of a list of questions, laid end to end: the `j`-th bubble
/// of the `i`-th question stands after all bubbles of the questions before
/// it, and nothing else is there.
pub proof fn lemma_boxes_of_layout(qs: Seq<Question>)
    ensures
        boxes_of(qs).len() == bubble_count(qs),
        forall|i: int, j: int| 0 <= i < qs.len() && 0 <= j < qs[i].boxes@.len() ==>
            boxes_of(qs)[bubble_count(qs.take(i)) + j] == #[trigger] qs[i].boxes@[j],
    decreases qs.len(),
{
    if qs.len() > 0 {
        let init = qs.drop_last();
        lemma_boxes_of_layout(init);
        assert forall|i: int, j: int| 0 <= i < qs.len() && 0 <= j < qs[i].boxes@.len() implies
            boxes_of(qs)[bubble_count(qs.take(i)) + j] == #[trigger] qs[i].boxes@[j] by {
            if i < init.len() {
                assert(qs.take(i) =~= init.take(i));
                assert(qs[i] == init[i]);
                lemma_bubble_count_prefix(init, i);
            } else {
                assert(qs.take(i) =~= init);
            }
        }
    }
}

/// Every bubble of the sheet, and nothing else, is in the list of all
/// bubbles: taking the questions in sheet order — the answer questions, the
/// version question, then every id question — bubble `j` of question `i`
/// stands right after the bubbles of the questions before it, and the list
/// holds exactly as many bubbles as the questions together.
pub proof fn lemma_all_boxes_layout(t: &Template)
    ensures
        ({
            let sheet = t.questions@.push(t.version) + t.id_questions@;
            &&& t.spec_all_boxes().len() == bubble_count(sheet)
            &&& forall|i: int, j: int| 0 <= i < sheet.len() && 0 <= j < sheet[i].boxes@.len() ==>
                t.spec_all_boxes()[bubble_count(sheet.take(i)) + j] == #[trigger] sheet[i].boxes@[j]
        }),
        t.spec_all_boxes().len() == bubble_count(t.questions@) + t.version.boxes@.len() + bubble_count(t.id_questions@),
        forall|i: int, j: int| 0 <= i < t.id_questions@.len() && 0 <= j < t.id_questions@[i].boxes@.len() ==>
            t.spec_all_boxes().contains(#[trigger] t.id_questions@[i].boxes@[j]),
{
    let sheet = t.questions@.push(t.version) + t.id_questions@;
    assert(t.questions@.push(t.version).add(t.id_questions@) == sheet);
    lemma_boxes_of_layout(sheet);
    let qs = t.questions@;
    let v = seq![t.version];
    let ids = t.id_questions@;
    assert(sheet =~= qs + v + ids);
    lemma_boxes_of_concat(qs + v, ids);
    lemma_boxes_of_concat(qs, v);
    assert(v.drop_last() =~= Seq::<Question>::empty());
    assert(boxes_of(v.drop_last()) =~= Seq::<AnswerBox>::empty());
    lemma_boxes_of_layout(qs);
    lemma_boxes_of_layout(ids);
    lemma_boxes_of_layout(v);
    assert(bubble_count(v.drop_last()) == 0);
    assert forall|i: int, j: int| 0 <= i < ids.len() && 0 <= j < ids[i].boxes@.len() implies
        t.spec_all_boxes().contains(#[trigger] t.id_questions@[i].boxes@[j]) by {
        let m = boxes_of(qs + v).len() + bubble_count(ids.take(i)) + j;
        lemma_bubble_count_prefix(ids, i);
        assert(t.spec_all_boxes()[m] == ids[i].boxes@[j]);
    }
}

} // verus!
