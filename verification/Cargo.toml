[package]
name = "local_mixing"
version = "0.1.0"
edition = "2021"
publish = false

[dependencies]
rand = "=0.9.5"
byteorder = "=1.5.0"
blake3 = "=1.8.7"
lmdb = "=0.8.0"
lmdb-sys = "=0.8.0"
bincode = "=1.3.3"
serde = { version = "=1.0.229", features = ["derive"] }
serde_json = "=1.0.154"
clap = { version = "=4.6.7", features = ["derive"] }
ndarray = "=0.16.1"
