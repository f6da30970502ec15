[package]
name = "plox"
version = "0.1.0"
edition = "2021"
publish = false

[dependencies]
regex = "1"
semver = "1"
lenient_semver = "0.4"
petgraph = "0.6"
seahash = "4"
log = "0.4"
env_logger = "0.11"
clap = { version = "4", features = ["derive"] }
filetime = "0.2"
rust-ini = "0.21"
openmw-cfg = "*"
reqwest = { version = "0.12", default-features = false, features = ["blocking", "rustls-tls"] }
