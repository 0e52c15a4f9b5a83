[package]
name = "linksbot"
version = "0.1.0"
edition = "2021"
publish = false

[dependencies]
regex = "1"
serde = { version = "1", features = ["derive"] }
serde_derive = "1"
serde_yaml = "0.9"
serde_with = "3"
clap = { version = "4", features = ["derive"] }
env_logger = "0.11"
log = "0.4"
futures = "0.3"
tokio = { version = "1", features = ["rt-multi-thread", "macros", "time"] }
reqwest = { version = "0.12", default-features = false, features = ["rustls-tls"] }
anyhow = "1"
thiserror = "1"
lazy_static = "1"
config = "0.14"
