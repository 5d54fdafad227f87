[package]
name = "libcix"
version = "0.1.0"
edition = "2021"
publish = false

[dependencies]
time = "0.1"
regex = "1"
uuid = "1"
bincode = "1.3"
serde = { version = "1", features = ["derive"] }
memmap = "0.7"
rand = "0.8"
futures = "0.1"
tokio-core = "0.1"
futures-cpupool = "0.1"
