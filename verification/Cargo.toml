[package]
name = "m4ri_rust"
version = "0.4.0"
edition = "2021"
publish = false

[dependencies]
vob = "=3.0.6"
rand = "=0.8.8"
serde = { version = "=1.0.229", features = ["derive"] }
serde_json = "=1.0.154"
