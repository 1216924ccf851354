[package]
name = "vnstudio"
version = "0.1.0"
edition = "2021"
publish = false

[dependencies]
serde = { version = "1", features = ["derive"] }
serde_json = "1"
rayon = "1"
libc = "0.2"
roxmltree = "*"
eframe = { version = "*", default-features = false, features = ["glow", "x11", "default_fonts"] }
rfd = { version = "*", default-features = false, features = ["xdg-portal", "tokio"] }
