[package]
name = "doubao_clean"
version = "0.1.0"
edition = "2021"
publish = false

[dependencies]
ab_glyph = "0.2"
base64 = "0.22"
image = { version = "0.25", default-features = false, features = ["png", "jpeg", "webp", "bmp", "tiff"] }
imageproc = { version = "0.25", default-features = false }
jni = "0.21"
ort = { version = "=2.0.0-rc.10", default-features = false, features = ["std", "load-dynamic"] }
serde = { version = "1", features = ["derive"] }
serde_json = "1"
ureq = "2"

[dev-dependencies]
png = "0.17"
