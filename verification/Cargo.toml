[package]
name = "rsdd"
version = "0.1.0"
edition = "2021"
publish = false

[dependencies]
rand = "0.8"
ordered-float = "3"
serde = { version = "1", features = ["derive"] }
