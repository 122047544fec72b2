[package]
name = "xfast_manager"
version = "0.1.0"
edition = "2021"
publish = false

[dependencies]
url = "=2.5.8"
semver = "=1.0.28"
base64 = "=0.22.1"
uuid = { version = "=1.29.1", features = ["v4"] }
md5 = "=0.7.0"
crc32fast = "=1.5.4"
flate2 = "1"
serde = { version = "=1.0.229", features = ["derive"] }
serde_json = "=1.0.154"
walkdir = "=2.5.0"
