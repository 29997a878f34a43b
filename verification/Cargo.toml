[package]
name = "actor_params"
version = "0.1.0"
edition = "2021"
publish = false

[dependencies]
serde_json = { version = "=1.0.151", features = ["float_roundtrip"] }
byteorder = "=1.5.0"
serde = { version = "=1.0.229", features = ["derive"] }
strum = "=0.28.0"
strum_macros = "=0.28.0"
