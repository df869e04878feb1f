[package]
name = "alpha_raptor"
version = "0.1.0"
edition = "2021"
publish = false

[dependencies]
anyhow = "1"
arc-swap = "1"
axum = { version = "0.8", features = ["ws"] }
bincode = "=1.3.3"
chrono = { version = "=0.4.45", features = ["serde"] }
dashmap = "=6.2.1"
flate2 = "=1.1.10"
futures = "0.3"
gtfs-structures = { version = "=0.52.0", default-features = false }
memmap2 = "*"
osmpbfreader = "=0.19.1"
prost = "0.11"
protobuf = "=3.7.2"
quick-xml = "=0.42.0"
rayon = "1"
reqwest = { version = "=0.12.28", default-features = false, features = ["blocking", "json", "rustls-tls", "stream"] }
rstar = "=0.14.0"
serde = { version = "1", features = ["derive"] }
serde_json = "1"
tokio = { version = "1", features = ["full"] }
toml = "1.1"
tower-http = { version = "*", features = ["fs", "trace"] }
tracing = "0.1"
tracing-subscriber = { version = "0.3", features = ["env-filter"] }
