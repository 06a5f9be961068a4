[package]
name = "blitzbeaver"
version = "0.1.0"
edition = "2021"
publish = false

[dependencies]
unicode-segmentation = "*"
uuid = { version = "*", features = ["v4"] }
serde = { version = "*", features = ["derive"] }
bincode = "1"
