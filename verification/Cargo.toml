[package]
name = "multiway_tug"
version = "0.1.0"
edition = "2021"
publish = false

[dependencies]
rand = "0.7"
rand_pcg = { version = "0.2", features = ["serde1"] }
serde = "1"
serde_derive = "1"
serde_cbor = "0.11"
termion = "1"
