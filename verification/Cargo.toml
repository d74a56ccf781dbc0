[package]
name = "cry"
version = "0.6.0"
edition = "2021"
publish = false

[dependencies]
aes-gcm = "0.10"
argon2 = "0.5"
base64ct = { version = "1", features = ["alloc"] }
chacha20poly1305 = "0.10"
clap = { version = "4", features = ["derive"] }
ed25519-dalek = "2"
hmac = "0.12"
rand = "0.8"
rpassword = "7"
sha2 = "0.10"
ssh-key = { version = "0.6", features = ["ed25519", "encryption"] }
thiserror = "1"
zeroize = "1"
