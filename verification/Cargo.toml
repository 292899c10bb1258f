[package]
name = "rabbit_net"
version = "0.1.0"
edition = "2021"
publish = false

[dependencies]
rand = "=0.7.3"
serde = "=1.0.229"
log = "=0.4.35"
tokio = { version = "0.2", features = ["full"] }
futures = "0.3"
cgmath = "0.17"
