[package]
name = "spotify_sorter"
version = "0.1.0"
edition = "2021"
publish = false

[dependencies]
chrono = "0.4"
dirs = "*"
rand = "0.8"
serde = { version = "1", features = ["derive"] }
serde_json = "1"
uuid = { version = "1", features = ["v4"] }
walkdir = "2"
