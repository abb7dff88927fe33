[package]
name = "gitstore"
version = "0.1.0"
edition = "2021"
publish = false

[dependencies]
git2 = "*"
uuid = { version = "*", features = ["v4"] }

[dev-dependencies]
tempfile = "*"
