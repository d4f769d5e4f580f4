[package]
name = "gitobj"
version = "0.1.0"
edition = "2021"
publish = false

[dependencies]
hex = "0.4"
libflate = "2"
serde = { version = "1", features = ["derive"] }
sha1 = "0.10"
