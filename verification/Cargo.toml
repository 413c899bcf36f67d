[package]
name = "ofx"
version = "0.1.0"
edition = "2021"
publish = false

[dependencies]
chrono = { version = "0.4", default-features = false }

[dev-dependencies]
nom = { version = "5.1", default-features = false, features = ["std"] }
