[package]
name = "gpiosentry"
version = "0.1.0"
edition = "2021"
publish = false

[dependencies]
url = "2"
rust-ini = "0.13"
log = "0.4"
env_logger = "0.7"
clap = "2.33"
rppal = "0.11"
subprocess = "0.2"
reqwest = { version = "0.10", default-features = false, features = ["blocking", "rustls-tls"] }
