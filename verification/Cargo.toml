[package]
name = "fresh"
version = "0.1.0"
edition = "2021"
publish = false

[dependencies]
orga = { version = "*", default-features = false }
base64 = "0.13"
clap = { version = "3", features = ["derive"] }
failure = "0.1"
tokio = { version = "1", features = ["macros", "rt-multi-thread"] }
