[package]
name = "neo_replay"
version = "0.1.0"
edition = "2021"
publish = false

[dependencies]
ab_glyph = "*"
anyhow = "1"
font-kit = "*"
image = { version = "*", default-features = false, features = ["png"] }
lz-str = "*"
serde = { version = "1", features = ["derive"] }
serde_json = "1"
