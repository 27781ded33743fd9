[package]
name = "exam_scan"
version = "0.1.0"
edition = "2021"
publish = false

[dependencies]
image = { version = "=0.25.10", default-features = false, features = ["png"] }
imageproc = { version = "=0.27.0", default-features = false }
eframe = { version = "=0.37.0", default-features = false, features = ["glow", "default_fonts", "x11"] }
