[package]
name = "rxyz"
version = "0.1.0"
edition = "2021"
publish = false

[dependencies]
chrono = "0.4"
markdown = "1.0.0-alpha.14"
http = "1"
html_parser = "0.7"
mogwai = "0.7"
syntect = { version = "5", default-features = false, features = ["default-fancy"] }
serde = { version = "1", features = ["derive"] }
serde_yaml = "0.9"
snafu = "0.8"
log = "0.4"
env_logger = "0.11"
clap = { version = "4", features = ["derive"] }
tokio = { version = "1", features = ["macros", "rt-multi-thread", "process", "fs"] }

