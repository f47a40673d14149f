[package]
name = "yinyang"
version = "0.1.0"
edition = "2021"
publish = false

[dependencies]
blake3 = "=1.8.7"
unicode-normalization = "=0.1.26"
unicode-casefold = "=0.2.0"
uuid = { version = "=1.29.0", features = ["v4"] }
opendal = { version = "=0.59.5", default-features = false, features = ["services-memory", "services-fs"] }
futures = "=0.3.34"
tokio = { version = "=1.54.1", features = ["fs", "io-util", "macros", "rt-multi-thread", "sync"] }
tokio-util = { version = "=0.7.20", features = ["io", "compat"] }
serde = { version = "=1.0.229", features = ["derive"] }
ciborium = "=0.2.2"
tempfile = "=3.27.0"
walkdir = "=2.5.0"

[dev-dependencies]
bincode = { version = "2", default-features = false, features = ["std"] }
