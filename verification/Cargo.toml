[package]
name = "diamond"
version = "0.1.0"
edition = "2021"
publish = false

[dependencies]
regex = "1"
glob = "0.3"
serde_urlencoded = "0.7"
chrono = { version = "0.4", default-features = false, features = ["alloc"] }
serde = { version = "1", features = ["derive"] }
serde_json = "1"
whisper = "*"
config = { version = "*", default-features = false, features = ["toml"] }
clap = { version = "4", features = ["derive"] }
tokio = { version = "1", features = ["rt-multi-thread", "net", "macros"] }
tokio-util = { version = "0.7", features = ["codec", "net"] }
futures = "0.3"
actix-web = { version = "4", default-features = false, features = ["macros"] }
env_logger = { version = "*", default-features = false }
