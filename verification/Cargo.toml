[package]
name = "smtverifier"
version = "0.1.0"
edition = "2021"
publish = false

[dependencies]
light-poseidon = "=0.2.0"
ark-bn254 = "=0.4.0"
ark-ff = "=0.4.2"
blake3 = { version = "=1.5.5", default-features = false, features = ["pure", "std"] }
num-bigint = "=0.4.8"
num-traits = "=0.2.19"
serde = { version = "=1.0.229", features = ["derive"] }
serde_json = "=1.0.151"
clap = { version = "=4.6.7", features = ["derive"] }
hex = "=0.4.3"
