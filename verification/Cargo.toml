[package]
name = "drawbridge"
version = "0.1.0"
edition = "2021"
publish = false

[dependencies]
sha2 = "*"
futures = "0.3"
tokio = { version = "*", default-features = false, features = ["sync"] }
