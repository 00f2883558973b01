[package]
name = "anova"
version = "0.1.0"
edition = "2021"
publish = false

[dependencies]
bincode = "1.3"
rand = "0.8"
serde = { version = "1", features = ["derive"] }
sha3 = "0.10"
