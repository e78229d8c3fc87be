[package]
name = "merk"
version = "0.1.0"
edition = "2021"
publish = false

[dependencies]
blake2-rfc = "=0.2.18"
hex = "=0.4.3"
num_cpus = "=1.17.0"
rocksdb = "*"
tempfile = "=3.27.0"

[dev-dependencies]
bincode = "=1.3.3"
serde = "=1.0.229"
