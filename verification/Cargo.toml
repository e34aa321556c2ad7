[package]
name = "simple_downloader"
version = "0.1.0"
edition = "2021"
publish = false

[dependencies]
bitcode = "*"
bytes = "1"
faststr = "*"
futures-util = { version = "0.3", default-features = false, features = ["std"] }
governor = { version = "*", default-features = false, features = ["std", "quanta"] }
parking_lot = "0.12"
reqwest = { version = "0.12", default-features = false, features = ["stream"] }
thiserror = "2"
tokio = { version = "1", features = ["rt", "sync", "time", "fs", "io-util", "macros"] }
tracing = "0.1"
tracing-subscriber = { version = "0.3", features = ["env-filter", "json"] }
uuid = { version = "1", features = ["v4"] }
