[package]
name = "sm64gs2pc"
version = "0.1.0"
edition = "2021"
publish = false

[dependencies]
patch = "*"
serde = { version = "*", features = ["derive"] }
bincode = "1"
