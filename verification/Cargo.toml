[package]
name = "csv_viewer"
version = "0.1.0"
edition = "2021"
publish = false

[dependencies]
csv = "1"
sysinfo = "0.29"
eframe = { version = "0.22", default-features = false, features = ["default_fonts", "glow"] }
egui = "0.22"
egui_extras = "0.22"
rfd = "0.11"
atty = "0.2"
tracing-subscriber = "0.3"
