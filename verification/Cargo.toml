[package]
name = "crash_dedup"
version = "0.1.0"
edition = "2021"
publish = false

[dependencies]
anyhow = "=1.0.104"
libafl = { version = "=0.16.1", default-features = false, features = ["std"] }
log = "=0.4.35"
reqwest = { version = "=0.12.28", default-features = false, features = ["blocking", "json"] }
serde = { version = "1", features = ["derive"] }
serde_json = "=1.0.154"
walkdir = "=2.5.0"

[dev-dependencies]
http = "=1.5.0"
