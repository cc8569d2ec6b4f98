[package]
name = "hetu"
version = "0.1.0"
edition = "2021"
publish = false

[dependencies]
biodivine-lib-bdd = "*"
dashmap = "*"
hashbrown = "*"
num_cpus = "*"
serde = { version = "1", features = ["derive"] }
serde_json = "1"
