[package]
name = "chronosub"
version = "0.1.0"
edition = "2021"
publish = false

[dependencies]
eframe = { version = "0.24", default-features = false, features = ["default_fonts", "glow", "x11"] }
rayon = "1.8"
rustfft = "6"
serde = { version = "1", features = ["derive"] }
symphonia = { version = "0.5", features = ["all"] }
ureq = { version = "2", features = ["json"] }
