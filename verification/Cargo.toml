[package]
name = "zstor_meta"
version = "0.1.0"
edition = "2021"
publish = false

[dependencies]
serde = { version = "1.0", features = ["derive"] }
async-trait = "0.1"
