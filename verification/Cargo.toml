[package]
name = "octane"
version = "0.2.0"
edition = "2021"
publish = false

[dependencies]
tokio = { version = "0.2.22", default-features = false, features = ["tcp", "io-util", "rt-core", "stream"] }
