[package]
name = "iridion"
version = "0.1.0"
edition = "2021"
publish = false

[dependencies]
anyhow = "1"
clap = { version = "4", features = ["derive"] }
hex = "0.4"
image = "0.25"
palette = "0.7"
serde_json = "1"
