[package]
name = "authorship"
version = "0.1.0"
edition = "2021"
publish = false

[dependencies]
anyhow = "1"
clap = { version = "4", features = ["derive"] }
ignore = "0.4"
indicatif = "*"
jiff = { version = "*", features = ["serde"] }
lru = "*"
rayon = "1"
serde = { version = "1", features = ["derive"] }
serde_json = "1"
sha2 = "0.10"
tempfile = "3"
unicode-width = "*"
