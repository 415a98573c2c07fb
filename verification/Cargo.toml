[package]
name = "rod"
version = "0.1.0"
edition = "2021"
publish = false

[dependencies]
ulid = "*"
base64 = "0.13"
serde = { version = "1", features = ["derive"] }
thiserror = "*"
async-executor = "*"
async-trait = "*"
blocking = "*"
futures-lite = "*"
num_cpus = "*"
once_cell = "*"
tap = "*"
tracing = "*"
