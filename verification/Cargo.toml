[package]
name = "metrical"
version = "0.1.0"
edition = "2021"
publish = false

[dependencies]
rocksdb = { version = "*", default-features = false }
anyhow = "1"
clap = { version = "4", features = ["derive"] }
once_cell = "1"
serde = { version = "1", features = ["derive"] }
serde_json = "1"
tokio = { version = "1", features = ["macros", "rt-multi-thread", "sync", "net", "io-util"] }

[dev-dependencies]
tempfile = "3"
