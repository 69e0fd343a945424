[package]
name = "dll-rs"
version = "0.2.0"
edition = "2021"
publish = false

[dependencies]
anyhow = "1"
minreq = { version = "2", features = ["https", "proxy"] }
regex = "1"
serde = { version = "1", features = ["derive"] }
serde_json = "1"
thiserror = "1"
zip = { version = "2", default-features = false, features = ["deflate"] }
