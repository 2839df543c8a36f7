[package]
name = "trafalgar"
version = "0.1.0"
edition = "2021"
publish = false

[dependencies]
cpal = "0.15"
midir = "0.10"
rosc = "0.10"
rusty_link = "0.4"
serde = { version = "1", features = ["derive"] }
