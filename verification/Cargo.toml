[package]
name = "succinct"
version = "0.1.0"
edition = "2021"
publish = false

[dependencies]
seahash = "4"
rand = "0.8"
serde = { version = "1", features = ["derive"] }
bincode = "1"
csv = "1"
