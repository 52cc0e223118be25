[package]
name = "aurora"
version = "0.1.0"
edition = "2021"
publish = false

[dependencies]
url = "=2.5.8"
chrono = { version = "=0.4.45", default-features = false, features = ["alloc", "clock"] }
md5 = "=0.8.1"
serde = { version = "=1.0.229", features = ["derive"] }
serde_json = "=1.0.154"
anyhow = "=1.0.104"
dirs = "=7.0.0"
image = { version = "=0.25.10", default-features = false, features = ["gif", "png", "jpeg", "bmp", "webp"] }
twox-hash = { version = "=2.1.5", default-features = false, features = ["xxhash3_64", "std"] }
