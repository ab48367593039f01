[package]
name = "hnsw"
version = "0.1.0"
edition = "2021"
publish = false

[dependencies]
rand = "=0.10.3"
serde = { version = "=1.0.229", features = ["derive"] }
bincode2 = "=2.0.1"
serde_json = "=1.0.154"
toml = "=1.1.8"
rayon = "=1.12.0"
hdf5 = "=0.8.1"
