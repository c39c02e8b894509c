[package]
name = "scalarboard"
version = "0.1.0"
edition = "2021"
publish = false

[dependencies]
clap = { version = "=4.6.7", features = ["derive"] }
dashmap = "=6.2.1"
eframe = { version = "=0.34.3", default-features = false, features = ["default_fonts", "glow", "x11"] }
egui_plot = "=0.35.0"
image = { version = "=0.25.10", default-features = false, features = ["png"] }
notify = "=8.2.1"
rayon = "=1.12.0"
tfrecord = "=0.15.0"
