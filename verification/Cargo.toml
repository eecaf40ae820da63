[package]
name = "wyrm"
version = "0.1.0"
edition = "2021"
publish = false

[dependencies]
rayon = "*"
serde = { version = "*", features = ["derive"] }

[dev-dependencies]
rand = "*"
