[package]
name = "gluapack"
version = "0.1.0"
edition = "2021"
publish = false

[dependencies]
glob = "*"
sha2 = "*"
gmod-lzma = "*"
serde = { version = "*", features = ["derive"] }
serde_json = "*"
