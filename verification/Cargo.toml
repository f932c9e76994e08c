[package]
name = "nova_core"
version = "0.1.0"
edition = "2021"
publish = false

[dependencies]
uuid = { version = "1", features = ["v4"] }
num_cpus = "1"
anyhow = "1"
async-trait = "0.1"
bytes = "1"
clap = { version = "4", features = ["derive"] }
crossbeam = "0.8"
dashmap = "5"
env_logger = "0.11"
log = "0.4"
parking_lot = "0.12"
prost = "0.12"
rayon = "1"
serde = { version = "1", features = ["derive"] }
serde_json = "1"
thiserror = "1"
tokio = { version = "1", features = ["full"] }
toml = "0.8"
