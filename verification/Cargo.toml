[package]
name = "fir_boundaries"
version = "0.1.0"
edition = "2021"
publish = false

[dependencies]
rust_decimal = "=1.43.0"
indexmap = { version = "=2.14.2", features = ["serde"] }
itertools = "=0.15.0"
serde = { version = "=1.0.229", features = ["derive"] }
serde_json = "=1.0.154"
thiserror = "=2.0.21"
clap = { version = "=4.6.7", features = ["derive"] }
color-eyre = "=0.6.5"
either = "=1.19.0"
