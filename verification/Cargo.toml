[package]
name = "casc_cdn_client"
version = "0.1.0"
edition = "2021"
publish = false

[dependencies]
md-5 = "*"
miniz_oxide = "*"
hex = "*"
rust-ini = "*"
reqwest = { version = "*", default-features = false, features = ["blocking", "rustls-tls"] }
