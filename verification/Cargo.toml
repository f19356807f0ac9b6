[package]
name = "group_chat"
version = "0.1.0"
edition = "2021"
publish = false

[dependencies]
base64 = "0.22"
chacha20poly1305 = "0.10"
rand = "0.9"
sha2 = "0.10"
x25519-dalek = { version = "2", features = ["static_secrets"] }
