[package]
name = "grovedb"
version = "0.1.0"
edition = "2021"
publish = false

[dependencies]
anyhow = "=1.0.104"
bincode = "=1.3.3"
blake3 = { version = "=1.8.7", default-features = false, features = ["pure"] }
rs_merkle = "=1.5.0"
thiserror = "=1.0.69"
