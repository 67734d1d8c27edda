[package]
name = "serde_gvariant"
version = "0.1.0"
edition = "2021"
publish = false

[dependencies]
byteorder = "1"
ordered-float = "*"
serde = { version = "1", features = ["derive"] }
