//! Reading of scanned multiple-choice answer sheets: locating the three
//! registration circles printed on a sheet, measuring how dark a region of
//! the scan is, and turning the marks read off the bubbles into a student
//! id, a score and the set of boxes a marked-up report circles.

pub mod annulus;
pub mod center;
pub mod count;
pub mod decimal;
pub mod draw;
pub mod marking;
pub mod point;
pub mod raster;
pub mod report;
pub mod ray;
pub mod scan;
pub mod template;
pub mod webapp;
