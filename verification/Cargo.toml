[package]
name = "monotextor_utils"
version = "0.1.0"
edition = "2021"
publish = false

[dependencies]
gaoya = "=0.2.2"
seahash = "=4.1.0"
serde_json = "=1.0.151"
fastbloom-rs = "=0.5.10"
shingles = "=0.1.1"
zstd = { version = "=0.14.0", features = ["zstdmt"] }
