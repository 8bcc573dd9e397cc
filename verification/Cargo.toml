[package]
name = "imgsearch"
version = "0.1.0"
edition = "2021"
publish = false

[dependencies]
sha2 = "=0.11.0"
hex = "=0.4.3"
serde = { version = "=1.0.229", features = ["derive"] }
serde_json = "=1.0.151"
thiserror = "=2.0.21"
walkdir = "=2.5.0"
dirs = "=7.0.0"
bytes = "=1.12.1"
image = { version = "=0.25.10", default-features = false, features = ["png", "jpeg", "webp"] }
fast_image_resize = { version = "=6.1.0", features = ["image"] }
