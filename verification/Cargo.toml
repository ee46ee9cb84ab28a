[package]
name = "crev_lib"
version = "0.1.0"
edition = "2021"
publish = false

[dependencies]
blake2 = "=0.10.6"
chrono = { version = "=0.4.45", default-features = false, features = ["std"] }
dirs = "=7.0.0"
semver = "=1.0.28"
serde = { version = "1", features = ["derive"] }
serde_yaml = "0.9"
structopt = "=0.3.26"
