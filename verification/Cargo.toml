[package]
name = "minnal_db"
version = "0.1.0"
edition = "2021"
publish = false

[dependencies]
rkyv = "0.8"
serde = { version = "1", features = ["derive"] }
serde_json = "1"
memmap2 = "0.9"
parking_lot = "0.12"
rayon = "1"
simsimd = "6"
tokio = { version = "1", features = ["rt-multi-thread", "macros", "sync", "time"] }
log = "0.4"
thiserror = "2"
tracing-appender = "0.2"
tracing-subscriber = { version = "0.3", features = ["env-filter"] }
