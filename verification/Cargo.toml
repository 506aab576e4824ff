[package]
name = "ccdu"
version = "0.1.0"
edition = "2021"
publish = false

[dependencies]
anyhow = "1"
blake3 = "1"
clap = { version = "4", features = ["derive"] }
crossbeam-channel = "0.5"
ratatui = "*"
rustix = { version = "1", features = ["fs", "process", "system", "std"] }
serde = { version = "1", features = ["derive"] }
serde_json = "1"
toml = "*"

[dev-dependencies]
tempfile = "3"
