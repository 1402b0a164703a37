[package]
name = "noid_gkr"
version = "0.1.0"
edition = "2021"
publish = false

[dependencies]
blake3 = "=1.8.7"
rayon = "=1.12.0"
serde = { version = "=1.0.229", features = ["derive"] }
zeroize = { version = "=1.9.1", features = ["derive"] }

[dev-dependencies]
rand = "0.8"
