[package]
name = "rustleak"
version = "0.1.0"
edition = "2021"
publish = false

[dependencies]
rand = "0.8"
tokio = { version = "1", features = ["full"] }
futures = "0.3"
clap = { version = "4", features = ["derive"] }
log = "0.4"
simple_logger = "5"
thiserror = "1"
async-trait = "0.1"
hickory-proto = "0.24"
hickory-resolver = "0.24"
hickory-server = "0.24"
