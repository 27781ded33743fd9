# exam_scan

Verified core of a reader for scanned multiple-choice answer sheets.

- `src/raster.rs` — gray and color images as plain buffers; gray to color.
- `src/ray.rs` — the walk along three diagonal rays to the inner edge of a ring.
- `src/scan.rs`, `src/count.rs` — how dark a rectangle of a scan is.
- `src/annulus.rs` — light spots on the frame around a point.
- `src/center.rs` — locating the registration rings' centers.
- `src/decimal.rs`, `src/marking.rs`, `src/template.rs` — student id, score
  and the bubbles a report circles, from the marks read off a sheet.
- `src/draw.rs`, `src/report.rs` — registration marks drawn with `imageproc`.
- `src/webapp.rs` — the navigation bar's choice of page.
- `app/` — conversions from `image` buffers, the floating-point steps,
  report drawing and the `eframe` window.
