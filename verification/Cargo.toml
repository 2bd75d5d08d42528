[package]
name = "sim_core"
version = "0.1.0"
edition = "2021"
publish = false

[dependencies]
glam = "0.30"
rand = "0.9"
eframe = { version = "0.32", default-features = false, features = ["default_fonts", "glow", "x11"] }
egui = "0.32"
