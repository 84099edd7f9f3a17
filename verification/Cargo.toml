[package]
name = "apollo"
version = "0.1.0"
edition = "2021"
publish = false

[dependencies]
rust-argon2 = "=3.0.0"
chacha20poly1305 = "=0.10.1"
uuid = { version = "=1.29.0", features = ["v4"] }
csv = "=1.4.0"
secrecy = "=0.10.3"
tokio = { version = "=1.54.1", features = ["sync", "rt-multi-thread", "fs", "io-util", "macros", "time"] }

[dev-dependencies]
ciborium = "=0.2.2"
