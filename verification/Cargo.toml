[package]
name = "dmw3_randomizer"
version = "0.1.0"
edition = "2021"
publish = false

[dependencies]
rand_xoshiro = "0.6"
chrono = "0.4"
anyhow = "1"
clap = { version = "4", features = ["derive"] }
serde = { version = "1", features = ["derive"] }
serde_json = "1"
serde_yaml = "0.9"
quick-xml = { version = "0.31", features = ["serialize"] }
tokio = { version = "1", features = ["rt-multi-thread", "process"] }
rusqlite = { version = "0.31", features = ["bundled"] }
