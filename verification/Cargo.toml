[package]
name = "consensus"
version = "0.1.0"
edition = "2021"
publish = false

[dependencies]
ed25519-dalek = { version = "=1.0.1", features = ["batch"] }
serde = { version = "=1.0.229", features = ["derive"] }
bincode = "=1.3.3"
bytes = "=1.12.1"
tokio = { version = "=1.54.1", features = ["full"] }
log = "=0.4.35"
futures = "=0.3.34"
async-trait = "=0.1.92"
async-recursion = "=1.2.0"

[dev-dependencies]
curve25519-dalek = "=3.2.1"
