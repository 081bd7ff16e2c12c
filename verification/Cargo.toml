[package]
name = "editor_91to9"
version = "0.1.1"
edition = "2021"
publish = false

[dependencies]
crossterm = "0.28"
eframe = { version = "0.31", default-features = false, features = ["default_fonts", "glow", "x11"] }
