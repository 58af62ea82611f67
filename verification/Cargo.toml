[package]
name = "rom-mod"
version = "0.1.0"
edition = "2021"
publish = false

[dependencies]
sha1 = "0.10"
crc32fast = "1"
anyhow = "1"
serde = { version = "1", features = ["derive"] }
serde_json = "1"
clap = { version = "4", features = ["derive"] }
tokio = { version = "1", features = ["rt-multi-thread", "macros", "net"] }
axum = "0.7"
ureq = "2"
walkdir = "2"
open = "5"
zip = { version = "2", default-features = false, features = ["deflate"] }
