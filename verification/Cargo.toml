[package]
name = "index_scheduler"
version = "0.1.0"
edition = "2021"
publish = false

[dependencies]
roaring = "=0.10.12"
regex = "=1.13.1"
serde_json = "=1.0.154"
serde = { version = "=1.0.229", features = ["derive"] }
byte-unit = { version = "=4.0.19", default-features = false, features = ["std"] }
either = "=1.19.0"
indexmap = { version = "=2.14.2", features = ["serde"] }
thiserror = "=1.0.69"
actix-web = { version = "=4.18.1", default-features = false }
tokio = { version = "=1.54.1", features = ["rt", "sync", "time"] }
tracing = "=0.1.44"
deserr = { version = "=0.6.4", features = ["actix-web"] }
lazy_static = "=1.5.1"
obkv = "=0.2.2"
