[package]
name = "librespot"
version = "0.1.0"
edition = "2021"
publish = false

[dependencies]
protobuf = "1.7"
byteorder = "1"
rust-crypto = "0.2"
rustc-serialize = "0.3"
num = "0.2"
rand = "0.4"
bit-set = "0.5"
url = "1.7"
tempfile = "3"
totp-lite = "2"
serde = { version = "1", features = ["derive"] }
serde_json = "1"
