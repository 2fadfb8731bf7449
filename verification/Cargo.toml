[package]
name = "mirror-cache"
version = "0.1.0"
edition = "2021"
publish = false

[dependencies]
bytes = "1"
chrono = "0.4"
clap = "2.33"
config = "0.11"
futures = "0.3"
lazy_static = "1.4"
log = "0.4"
metrics = "0.17"
metrics-exporter-prometheus = "0.6"
metrics-util = "0.10"
notify = "5"
pretty_env_logger = "0.4"
redis = "0.21"
regex = "1"
reqwest = { version = "0.11", default-features = false, features = ["rustls-tls", "stream"] }
rusoto_core = { version = "0.47", default-features = false, features = ["rustls"] }
rusoto_s3 = { version = "0.47", default-features = false, features = ["rustls"] }
serde = { version = "1", features = ["derive"] }
serde_derive = "1"
sled = "0.34"
thiserror = "1"
tokio = { version = "1", features = ["full"] }
tokio-util = { version = "0.6", features = ["codec"] }
warp = "0.3"
