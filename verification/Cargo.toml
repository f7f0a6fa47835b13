[package]
name = "sector_store"
version = "0.1.0"
edition = "2021"
publish = false

[dependencies]
anyhow = "1"
aws-sdk-s3 = { version = "1", default-features = false, features = ["rt-tokio", "behavior-version-latest", "default-https-client"] }
aws-types = "1"
dirs = "5"
futures = "0.3"
futures-util = "0.3"
hex = "0.4"
log = "0.4"
multer = "3"
parity-scale-codec = "=3.7.5"
rust-lapper = "=1.3.0"
serde = { version = "1", features = ["derive"] }
serde_json = "1"
thiserror = "1"
tokio = { version = "1", features = ["full"] }
tokio-util = { version = "0.7", features = ["io"] }
tracing = "0.1"
warp = { version = "0.3", default-features = false }
