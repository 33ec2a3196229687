[package]
name = "catan_cli"
version = "0.1.0"
edition = "2021"
publish = false

[dependencies]
rand = "0.8"
csv = "1"
serde = { version = "1", features = ["derive"] }
uuid = { version = "1", features = ["v4"] }
rayon = "1"
