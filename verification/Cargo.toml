[package]
name = "visor"
version = "0.1.0"
edition = "2021"
publish = false

[dependencies]
eframe = { version = "0.31", default-features = false, features = ["default_fonts", "glow", "x11"] }
log = "0.4"
notify = "7"
serde = { version = "1", features = ["derive"] }
serde_json = "1"
simple_logger = "5"
zip = { version = "2", default-features = false, features = ["deflate"] }
