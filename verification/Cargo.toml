[package]
name = "json-commit"
version = "0.1.0"
edition = "2021"
publish = false

[dependencies]
elliptic-curve = { version = "0.13", features = ["hash2curve", "arithmetic"] }
p256 = { version = "0.13", features = ["hash2curve", "arithmetic"] }
serde_json = "1"
sha2 = "0.10"
thiserror = "1"
tokio = { version = "1", features = ["rt-multi-thread", "sync", "time", "macros"] }
