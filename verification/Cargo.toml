[package]
name = "prisoner"
version = "0.1.0"
edition = "2021"
publish = false

[dependencies]
block-id = "0.1"
clap = { version = "3", features = ["derive"] }
fake = "2"
rand = "0.8"
strum = "0.24"
strum_macros = "0.24"
tabled = "0.8"
