[package]
name = "zanbil"
version = "0.1.0"
edition = "2021"
publish = false

[dependencies]
anyhow = "*"
base64 = "*"
build-rs = "*"
cc = "*"
clap = { version = "*", features = ["derive"] }
directories = "*"
fs_extra = "*"
serde = { version = "*", features = ["derive"] }
toml = "*"
toml_edit = "*"
walkdir = "*"
