[package]
name = "resp_kv"
version = "0.1.0"
edition = "2021"
publish = false

[dependencies]
anyhow = "*"
config = { version = "*", default-features = false, features = ["toml"] }
log = "*"
serde = { version = "*", features = ["derive"] }
serde_json = "*"
simple_logger = "*"
time = { version = "*", features = ["macros", "formatting"] }
tokio = { version = "*", features = ["rt-multi-thread", "net", "io-util", "macros", "sync"] }
