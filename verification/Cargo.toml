[package]
name = "horaedb_core"
version = "0.1.0"
edition = "2021"
publish = false

[dependencies]
etcd-client = "=0.9.2"
futures = "=0.3.34"
lazy_static = "=1.5.1"
prometheus = "=0.14.0"
serde = { version = "=1.0.229", features = ["derive"] }
tokio = { version = "=1.53.2", features = ["macros", "rt-multi-thread", "sync", "time"] }
toml = "=1.1.6"
