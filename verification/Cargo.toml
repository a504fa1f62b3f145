[package]
name = "forge_scriptgen"
version = "0.1.0"
edition = "2021"
publish = false

[dependencies]
serde_json = "1"
rpassword = "7"
