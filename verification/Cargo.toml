[package]
name = "dev_cleaner_core"
version = "0.1.0"
edition = "2021"
publish = false

[dependencies]
walkdir = "*"
clap = { version = "*", features = ["derive"] }
confy = "*"
dialoguer = "*"
env_logger = "*"
figlet-rs = "*"
log = "*"
owo-colors = "*"
serde = { version = "*", features = ["derive"] }
