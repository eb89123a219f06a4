[package]
name = "aan"
version = "0.1.0"
edition = "2021"
publish = false

[dependencies]
regex = "=1.13.1"
serde = { version = "=1.0.229", features = ["derive"] }
serde_json = "=1.0.151"
jfs = "=0.9.0"
dirs = "=7.0.0"
tokio = { version = "=1.53.2", features = ["rt-multi-thread", "time", "macros"] }
futures = "=0.3.34"
reqwest = { version = "=0.13.5", default-features = false }
link-preview = { version = "=0.2.1", features = ["fetch"] }
once_cell = "=1.21.4"
