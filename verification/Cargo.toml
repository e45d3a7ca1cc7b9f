[package]
name = "perf_site"
version = "0.1.0"
edition = "2021"
publish = false

[dependencies]
semver = "*"
flate2 = "*"
serde = { version = "*", features = ["derive"] }
serde_json = "*"
rmp-serde = "*"
antidote = "*"
