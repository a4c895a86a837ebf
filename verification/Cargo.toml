[package]
name = "rayzo"
version = "0.1.0"
edition = "2021"
publish = false

[dependencies]
bincode = "1"
downcast-rs = "*"
rmp-serde = "*"
serde = { version = "1", features = ["derive"] }
serde-diff = "*"
laminar = "*"
