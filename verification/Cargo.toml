[package]
name = "gigatoken"
version = "0.1.0"
edition = "2021"
publish = false

[dependencies]
icu = "=2.2.0"
base64 = "=0.22.1"
spm_precompiled = "=0.1.4"
itertools = "=0.14.0"
serde = { version = "=1.0.229", features = ["derive"] }
sonic-rs = "=0.5.10"
eyre = "=0.6.14"

[dev-dependencies]
rand = "=0.9.5"
fancy-regex = "=0.20.0"
