[package]
name = "maze_bot"
version = "0.1.0"
edition = "2021"
publish = false

[dependencies]
serde = { version = "1", features = ["derive"] }
toml = "*"
log = "*"
env_logger = "*"
rand = "0.8"
