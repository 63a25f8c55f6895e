[package]
name = "mog_parser"
version = "0.1.0"
edition = "2021"
publish = false

[dependencies]
kdl = "6"
serde = { version = "1", features = ["derive"] }
strum = { version = "*", features = ["derive"] }
