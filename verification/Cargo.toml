[package]
name = "mental_poker"
version = "0.1.0"
edition = "2021"
publish = false

[dependencies]
ark-ec = "0.4"
ark-ff = "0.4"
ark-pallas = "0.4"
ark-serialize = "0.4"
ark-std = "0.4"
rand = "0.8"
serde = { version = "1", features = ["derive"] }
serde_json = "1"
sha2 = "0.10"
