[package]
name = "yazi_shared"
version = "0.1.0"
edition = "2021"
publish = false

[dependencies]
anyhow = "1"
libc = "0.2"
tokio = { version = "1", default-features = false, features = ["fs", "io-util", "macros", "rt", "sync", "time"] }
