[package]
name = "bus_exporter"
version = "0.1.0"
edition = "2021"
publish = false

[dependencies]
regex = "=1.13.1"
indexmap = "=2.14.2"
anyhow = "=1.0.104"
async-trait = "=0.1.92"
axum = "=0.7.9"
bytes = "=1.12.1"
clap = { version = "=4.6.7", features = ["derive"] }
dashmap = "=6.2.1"
futures = "=0.3.34"
humantime = "=2.4.0"
humantime-serde = "=1.1.1"
libc = "=0.2.191"
reqwest = { version = "=0.12.28", default-features = false, features = ["rustls-tls"] }
rumqttc = { version = "=0.24.0", default-features = false, features = ["use-rustls"] }
serde = { version = "=1.0.229", features = ["derive"] }
serde_json = "=1.0.154"
serde_yaml = "=0.9.34"
spidev = "=0.6.1"
syslog = "=6.1.1"
tokio = { version = "=1.54.1", features = ["full"] }
tokio-modbus = { version = "=0.14.0", default-features = false, features = ["rtu", "tcp"] }
tokio-serial = { version = "=5.5.0", default-features = false }
tokio-util = "=0.7.20"
tracing = "=0.1.44"
tracing-subscriber = { version = "=0.3.23", features = ["env-filter", "json"] }
