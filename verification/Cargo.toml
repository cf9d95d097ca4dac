[package]
name = "win_disk_info"
version = "0.1.0"
edition = "2021"
publish = false

[dependencies]
walkdir = "*"
infer = "*"
sha256 = { version = "*", default-features = false }
chrono = "*"
serde = { version = "*", features = ["derive"] }
wmi = "*"

[dev-dependencies]
tempfile = "*"
