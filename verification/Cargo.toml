[package]
name = "wiliplayerconvert"
version = "0.1.0"
edition = "2021"
publish = false

[dependencies]
eframe = { version = "*", default-features = false, features = ["default_fonts", "glow", "x11"] }
egui_extras = "*"
rfd = { version = "*", default-features = false, features = ["gtk3"] }
ffmpeg-next = "*"
