[package]
name = "ddcp"
version = "0.1.0"
edition = "2021"
publish = false

[dependencies]
capnp = "=0.18.13"
rusqlite = { version = "0.29", features = ["bundled", "load_extension"] }
tokio-rusqlite = "0.4"
tokio = { version = "1", features = ["full"] }
flume = "0.11"
clap = { version = "4", features = ["derive", "env"] }
thiserror = "1"
tracing = "0.1"
tracing-subscriber = { version = "0.3", features = ["env-filter"] }
exec = "0.3"
async-trait = "0.1"
tokio-util = "0.7"
