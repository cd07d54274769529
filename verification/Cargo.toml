[package]
name = "zone_sdk"
version = "0.1.0"
edition = "2021"
publish = false

[dependencies]
rpds = "=1.2.1"
hex = "=0.4.3"
serde = { version = "1", features = ["derive"] }
thiserror = "2"
tokio = { version = "1", features = ["sync", "time", "macros", "rt"] }
futures = "0.3"
tracing = "0.1"
