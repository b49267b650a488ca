[package]
name = "ch4"
version = "0.1.0"
edition = "2021"
publish = false

[dependencies]
anyhow = "1"
base64 = "0.13"
chrono = "0.4"
rsdns = { version = "*", default-features = false, features = ["net-std"] }
serde = { version = "1", features = ["derive"] }
serde_json = "1"
structopt = "0.3"
