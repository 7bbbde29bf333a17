[package]
name = "cheese_rebuild"
version = "0.1.0"
edition = "2021"
publish = false

[dependencies]
rustc-hash = "*"
uuid = { version = "*", features = ["v4"] }
clap = { version = "*", features = ["derive"] }
rand = "*"
