[package]
name = "bittorrent"
version = "0.1.0"
edition = "2021"
publish = false

[dependencies]
clap = { version = "2", default-features = false }

[dev-dependencies]
nom = { version = "5", default-features = false, features = ["std"] }
