[package]
name = "rage"
version = "0.1.0"
edition = "2021"
publish = false

[dependencies]
chrono = "0.4"
comfy-table = "7"
num_cpus = "1"
reqwest = { version = "0.12", default-features = false, features = ["json", "rustls-tls"] }
rlimit = "0.10"
serde = { version = "1", features = ["derive"] }
serde_json = "1"
serde_yaml = "0.9"
sysinfo = "0.30"
tokio = { version = "1", features = ["full"] }
tokio-util = "0.7"
