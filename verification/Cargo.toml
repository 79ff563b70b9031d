[package]
name = "amnia_desktop"
version = "0.1.0"
edition = "2021"
publish = false

[dependencies]
serde = { version = "1", features = ["derive"] }
serde_json = "1"
thiserror = "1"
log = "0.4"
env_logger = "0.11"
dirs = "5"
reqwest = { version = "0.12", default-features = false, features = ["json", "stream", "rustls-tls"] }
tokio = { version = "1", features = ["fs", "io-util", "rt"] }
futures-util = "0.3"
zip = { version = "2", default-features = false, features = ["deflate"] }
sysinfo = { version = "0.32", default-features = false, features = ["system"] }
