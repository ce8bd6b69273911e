[package]
name = "sonic_share"
version = "0.1.0"
edition = "2021"
publish = false

[dependencies]
reed-solomon = "0.2"
reed-solomon-erasure = "6"
sha2 = "0.10"
zstd = "0.13"
aes-gcm = "0.10"
rand = "0.8"
x25519-dalek = { version = "2", features = ["static_secrets"] }
infer = "0.16"
mime_guess = "2"
rustfft = "6"
hound = "3"
cpal = "0.15"
crossterm = "0.28"
ratatui = "0.29"
