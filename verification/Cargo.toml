[package]
name = "zagorakys"
version = "0.1.0"
edition = "2021"
publish = false

[dependencies]
base64 = "=0.22.1"
image = { version = "=0.25.10", default-features = false, features = ["bmp", "gif", "jpeg", "png", "pnm", "tiff", "webp"] }
kindling-mobi = "=0.46.0"
libc = "0.2"
lopdf = "=0.46.0"
rayon = "=1.12.0"
serde = { version = "1", features = ["derive"] }
tempfile = "3"
walkdir = "=2.5.0"
zip = { version = "=2.6.1", default-features = false, features = ["deflate"] }
