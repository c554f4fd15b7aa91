[package]
name = "notif_tasks"
version = "0.1.0"
edition = "2021"
publish = false

[dependencies]
chrono = "=0.4.45"
eframe = { version = "=0.36.2", default-features = false, features = ["glow", "x11", "default_fonts"] }
egui = "=0.36.2"
egui_extras = { version = "=0.36.2", features = ["datepicker"] }
jiff = "=0.2.38"
