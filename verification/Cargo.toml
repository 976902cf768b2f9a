[package]
name = "pallette"
version = "0.1.0"
edition = "2021"
publish = false

[dependencies]
rand = "0.9"
csv = "1"
image = { version = "0.25", default-features = false, features = ["png", "jpeg"] }
eframe = { version = "0.32", default-features = false, features = ["default_fonts", "glow", "x11"] }
egui = "0.32"
egui_extras = { version = "0.32", default-features = false, features = ["image"] }
env_logger = "0.11"
rfd = "0.15"
raqote = { version = "0.8", default-features = false, features = ["png"] }
serde = { version = "1", features = ["derive"] }
