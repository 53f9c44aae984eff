[package]
name = "kate"
version = "0.1.0"
edition = "2021"
publish = false

[dependencies]
bls12_381 = "=0.3.1"
dusk-plonk = "=0.2.11"
rand = "=0.7.3"
serde = { version = "=1.0.229", features = ["derive"] }
lru = "=0.19.0"
parity-scale-codec = { version = "=3.7.5", features = ["derive"] }
jsonrpc-core = "=18.0.0"

[dev-dependencies]
dusk-bls12_381 = "=0.1.4"
dusk-jubjub = "=0.3.8"
