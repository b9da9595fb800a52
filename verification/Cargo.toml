[package]
name = "disk_doctor"
version = "0.1.0"
edition = "2021"
publish = false

[dependencies]
sha2 = "0.10"
egui = "*"
eframe = { version = "*", default-features = false, features = ["glow", "x11", "default_fonts"] }
