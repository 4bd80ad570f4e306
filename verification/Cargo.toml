[package]
name = "archivist"
version = "0.1.0"
edition = "2021"
publish = false

[dependencies]
anyhow = "1"
argon2 = "0.5"
chacha20poly1305 = "0.10"
clap = { version = "4", features = ["derive"] }
filetime = "0.2"
hostname = "0.4"
rand = "0.9"
rpassword = "7"
serde = { version = "1", features = ["derive"] }
serde_cbor = "0.11"
sha2 = "0.10"
tracing = "0.1"
zeroize = "1"
