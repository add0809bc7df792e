[package]
name = "forge_ai"
version = "1.0.0"
edition = "2021"
publish = false

[dependencies]
reqwest = { version = "0.12", default-features = false, features = ["json"] }
serde = { version = "1", features = ["derive"] }
serde_json = "1"
keyring = "3"
dirs = "6"
sysinfo = "0.33"
