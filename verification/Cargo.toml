[package]
name = "l3replay"
version = "0.1.0"
edition = "2021"
publish = false

[dependencies]
chrono = "*"
flate2 = "*"
glob = "*"
rayon = "*"
serde = { version = "*", features = ["derive"] }
serde_json = "*"
