[package]
name = "xcheck_core"
version = "0.1.0"
edition = "2021"
publish = false

[dependencies]
zip = "*"
uuid = { version = "*", features = ["v4"] }
walkdir = "*"
directories = "*"
serde = { version = "*", features = ["derive"] }
toml = "*"
