[package]
name = "fuzzy_group"
version = "0.1.0"
edition = "2021"
publish = false

[dependencies]
unicode-segmentation = "1"
csv = "1"
serde = { version = "1", features = ["derive"] }
egui = "0.22"
eframe = { version = "0.22", default-features = false, features = ["default_fonts", "glow", "persistence"] }
egui_extras = "0.22"
poll-promise = "0.2"
rfd = "0.11"
