[package]
name = "plot_digitizer"
version = "0.1.0"
edition = "2021"
publish = false

[dependencies]
rhai = "*"
nalgebra = "*"
eframe = { version = "*", default-features = false, features = ["default_fonts", "glow", "x11"] }
egui = "*"
egui_extras = "*"
clipboard-rs = "*"
