[package]
name = "polypasswordhasher"
version = "0.1.0"
edition = "2021"
publish = false

[dependencies]
sodiumoxide = "=0.2.7"

[dev-dependencies]
serde_json = "=1.0.151"
