[package]
name = "etcd"
version = "0.1.0"
edition = "2021"
publish = false

[dependencies]
rand = "0.8"
serde = { version = "1", features = ["derive"] }
serde_json = "1"
tokio = { version = "1", features = ["full"] }
tonic = "*"
env_logger = "*"
log = "0.4"
jsonrpc-core = "18"
jsonrpc-derive = "18"
etcd-rs = "*"
