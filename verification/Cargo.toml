[package]
name = "melpow"
version = "0.1.0"
edition = "2021"
publish = false

[dependencies]
rustc-hash = "1.1"
serde = { version = "1", features = ["derive"] }
smallvec = "1"
tmelcrypt = "*"
