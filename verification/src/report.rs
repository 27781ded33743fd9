//! Color copies of a scan marked up for inspection.

use vstd::prelude::*;
use crate::draw::{inside_drawable, mark_centers, red_at, mark_fits, marks_drawn, pixel_kept_or, spec_red};
use crate::marking::{ReportPlan, key_view, report_lookups_fit, spec_id, spec_report_circles, spec_report_score};
use crate::point::Point;
use crate::raster::{RgbCanvas, gray_to_rgb, gray_as_rgb};
use crate::scan::Scan;
use crate::template::{AnswerBox, ExamKey, Marks, Template};

verus! {

impl Scan {
    /// A color copy of the scan showing where the template's marks fall:
    /// on each registration circle (at `mapped_centers`, the template's
    /// circle centers as placed on this scan) a red cross and four red
    /// outlines of radius `circle_radius` to `circle_radius + 3`; together
    /// with every bubble of the template, to be circled in green. Each
    /// pixel of the copy is the scan's gray value on all three channels, or
    /// red.
    pub fn circle_everything(&self, t: &Template, mapped_centers: &[Point; 3]) -> (res: (RgbCanvas, Vec<AnswerBox>))
        requires
            forall|i: int| 0 <= i < 3 ==> mark_fits(#[trigger] mapped_centers[i], t.circle_radius, true),
        ensures
            res.0.spec_width() == self.img.spec_width(),
            res.0.spec_height() == self.img.spec_height(),
            res.0.raw() == marks_drawn(gray_as_rgb(self.img.raw()), self.img.spec_width(), self.img.spec_height(),
                mapped_centers@, t.circle_radius, true, 3),
            res.0.raw().len() == 3 * self.img.raw().len(),
            forall|i: int| 0 <= i < res.0.raw().len() / 3 ==>
                #[trigger] pixel_kept_or(res.0.raw(), gray_as_rgb(self.img.raw()), i, spec_red()),
            forall|i: int| 0 <= i < 3 && inside_drawable(self.img.spec_width(), self.img.spec_height(), #[trigger] mapped_centers[i])
                ==> red_at(res.0.raw(), self.img.spec_width(), mapped_centers[i]),
            res.1@ == t.spec_all_boxes(),
    {
        let mut image = gray_to_rgb(&self.img);
        mark_centers(&mut image, mapped_centers, t.circle_radius, true);
        let boxes = t.all_boxes();
        (image, boxes)
    }

    /// A color copy of the scan with a red cross on each registration circle
    /// (at `mapped_centers`, the template's circle centers as placed on this
    /// scan), together with what the report shows besides: the id, version
    /// and score read off the sheet and the bubbles to circle (see
    /// `report_plan`).
    pub fn generate_imagereport(&self, t: &Template, k: &ExamKey, marks: &Marks, mapped_centers: &[Point; 3]) -> (res: (RgbCanvas, ReportPlan))
        requires
            forall|i: int| 0 <= i < 3 ==> mark_fits(#[trigger] mapped_centers[i], t.circle_radius, false),
            report_lookups_fit(t, key_view(k), marks),
        ensures
            res.0.spec_width() == self.img.spec_width(),
            res.0.spec_height() == self.img.spec_height(),
            res.0.raw() == marks_drawn(gray_as_rgb(self.img.raw()), self.img.spec_width(), self.img.spec_height(),
                mapped_centers@, t.circle_radius, false, 3),
            res.0.raw().len() == 3 * self.img.raw().len(),
            forall|i: int| 0 <= i < res.0.raw().len() / 3 ==>
                #[trigger] pixel_kept_or(res.0.raw(), gray_as_rgb(self.img.raw()), i, spec_red()),
            forall|i: int| 0 <= i < 3 && inside_drawable(self.img.spec_width(), self.img.spec_height(), #[trigger] mapped_centers[i])
                ==> red_at(res.0.raw(), self.img.spec_width(), mapped_centers[i]),
            res.1.sid == spec_id(marks.id@),
            res.1.version == marks.version,
            res.1.score == spec_report_score(marks.answers@, marks.version, key_view(k)),
            res.1.circles@ == spec_report_circles(t, key_view(k), marks),
    {
        let mut image = gray_to_rgb(&self.img);
        mark_centers(&mut image, mapped_centers, t.circle_radius, false);
        let plan = self.report_plan(t, k, marks);
        (image, plan)
    }
}

} // verus!
