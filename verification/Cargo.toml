[package]
name = "fast-floe"
version = "0.1.0"
edition = "2021"
publish = false

[dependencies]
aes-gcm = "=0.11.1"
aws-lc-rs = "=1.19.0"
getrandom = "=0.4.3"
hmac = "=0.13.0"
rand_chacha = "=0.10.0"
ring = "=0.17.14"
sha2 = "=0.11.1"
subtle = "=2.6.1"
zeroize = "=1.9.1"

[dev-dependencies]
hex = "*"
rayon = "*"
