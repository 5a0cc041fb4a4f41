[package]
name = "codebase_viewer"
version = "0.1.0"
edition = "2021"
publish = false

[dependencies]
anyhow = "*"
chrono = "*"
clap = { version = "*", features = ["derive"] }
crossbeam-channel = "*"
dirs-next = "*"
humansize = "*"
ignore = "*"
log = "*"
num_cpus = "*"
serde = { version = "*", features = ["derive"] }
serde_json = "*"
tiktoken-rs = "*"
tokei = "*"
