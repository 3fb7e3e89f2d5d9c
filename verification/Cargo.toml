[package]
name = "tsdb-tools"
version = "0.1.0"
edition = "2021"
publish = false

[dependencies]
chrono = { version = "=0.4.45", default-features = false, features = ["std"] }
clap = { version = "=4.6.7", features = ["derive"] }
csv = "=1.4.0"
influxdb-line-protocol = "=2.0.0"
ryu = "=1.0.23"
