[package]
name = "alts_checker"
version = "0.1.0"
edition = "2021"
publish = false

[dependencies]
regex = "=1.13.1"
serde = { version = "=1.0.229", features = ["derive"] }
serde_json = "=1.0.154"
flate2 = "=1.1.10"
chrono = "=0.4.45"
walkdir = "=2.5.0"
dirs = "=7.0.0"
sysinfo = "0.29"
image = { version = "0.25", default-features = false, features = ["ico"] }
eframe = { version = "=0.31.1", default-features = false, features = ["glow", "default_fonts", "x11"] }
