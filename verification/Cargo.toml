[package]
name = "atlas"
version = "0.1.0"
edition = "2021"
publish = false

[dependencies]
sha2 = "0.8"
ripemd160 = "0.8"
serde = { version = "1", features = ["derive"] }
lazy_static = "1.4"
