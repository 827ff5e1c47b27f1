[package]
name = "nago-http"
version = "0.1.0"
edition = "2021"
publish = false

[dependencies]
nagoya = { version = "=0.1.19", features = ["reactor"] }
nago-rustls = "=0.1.3"
rustls = { version = "=0.23.46", default-features = false, features = ["ring", "std", "tls12", "logging"] }
