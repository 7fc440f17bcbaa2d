[package]
name = "rook_terminal"
version = "0.1.0"
edition = "2021"
publish = false

[dependencies]
bevy_ecs = { version = "*", default-features = false, features = ["std"] }
egui = "*"
eframe = { version = "*", default-features = false, features = ["default_fonts", "glow", "x11"] }
