[package]
name = "policy_engine"
version = "0.1.0"
edition = "2021"
publish = false

[dependencies]
anyhow = "=1.0.104"
redbpf = { version = "=2.3.0", features = ["load"] }
redbpf-probes = "=2.3.0"
serde = { version = "=1.0.229", features = ["derive"] }
serde_json = "=1.0.154"
