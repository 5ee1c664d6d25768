[package]
name = "minigit"
version = "0.1.0"
edition = "2021"
publish = false

[dependencies]
chrono = "*"
flate2 = "*"
hex = "*"
reqwest = { version = "*", features = ["blocking"] }
sha1_smol = "*"
