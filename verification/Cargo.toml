[package]
name = "pixel_shell"
version = "0.1.0"
edition = "2021"
publish = false

[dependencies]
anyhow = "1"
byteorder = "1"
clap = { version = "4", features = ["derive"] }
dialoguer = "*"
indicatif = "*"
minifb = "*"
serde = { version = "1", features = ["derive"] }
serde_json = "1"
which = "*"
