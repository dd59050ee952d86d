[package]
name = "autonomous_execution"
version = "0.1.0"
edition = "2021"
publish = false

[dependencies]
anyhow = "=1.0.104"
bcs = "=0.1.6"
fastcrypto = "=0.1.11"
itertools = "=0.13.0"
move-core-types = "=0.0.3"
reqwest = { version = "=0.12.28", default-features = false }
serde = { version = "=1.0.229", features = ["derive"] }
tempfile = "=3.27.0"
tokio = { version = "=1.54.1", features = ["time"] }
typed-store = "=0.4.0"

[dev-dependencies]
blake2 = "=0.10.6"
