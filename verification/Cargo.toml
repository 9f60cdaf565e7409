[package]
name = "classic_games_collection"
version = "0.1.0"
edition = "2021"
publish = false

[dependencies]
rand = "0.8"
crossterm = "0.27"
dirs = "5"
serde = { version = "1", features = ["derive"] }
serde_json = "1"
