[package]
name = "blitz"
version = "0.1.0"
edition = "2021"
publish = false

[dependencies]
serde_json = "=1.0.154"
miniz_oxide = "=0.7.4"
snap = "=1.1.2"
flate2 = "=1.1.10"
zstd = "=0.13.4"
bytes = "=1.12.1"
libc = "=0.2.191"
tokio = { version = "=1.54.1", features = ["rt-multi-thread"] }
aws-config = { version = "=1.13.0", default-features = false, features = ["behavior-version-latest", "rt-tokio", "default-https-client"] }
aws-sdk-s3 = { version = "=1.157.0", default-features = false, features = ["behavior-version-latest", "rt-tokio", "default-https-client"] }
