[package]
name = "ruft"
version = "0.1.0"
edition = "2021"
publish = false

[dependencies]
bincode = "1.3"
futures = "0.3"
log = "0.4"
rand = "0.9"
serde = { version = "1", features = ["derive"] }
tarpc = { version = "*", features = ["full"] }
tokio = { version = "1", features = ["full"] }
