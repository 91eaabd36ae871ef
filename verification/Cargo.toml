[package]
name = "preimages"
version = "0.1.0"
edition = "2021"
publish = false

[dependencies]
alloy-primitives = "*"
anyhow = "1"
clap = { version = "4", features = ["derive"] }
hex = "0.4"
indicatif = "*"
rayon = "1"
serde = { version = "1", features = ["derive"] }
tabled = "*"
