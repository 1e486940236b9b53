[package]
name = "resolc_output"
version = "0.1.0"
edition = "2021"
publish = false

[dependencies]
semver = { version = "1.0", features = ["serde"] }
serde = { version = "1.0", features = ["derive"] }
serde_json = "1.0"
yansi = "1.0"
