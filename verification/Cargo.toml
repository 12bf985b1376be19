[package]
name = "obsidian-dict-sync"
version = "0.1.0"
edition = "2021"
publish = false

[dependencies]
md5 = "0.7"
shellexpand = "3"
clap = { version = "4", features = ["derive", "env"] }
const_format = "0.2"
env_logger = "0.11"
log = "0.4"
serde = { version = "1", features = ["derive"] }
toml = "0.8"
