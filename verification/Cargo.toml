[package]
name = "task_link_cli"
version = "0.1.0"
edition = "2021"
publish = false

[dependencies]
clap = "4"
dirs = "*"
walkdir = "2"

[dev-dependencies]
serde_json = "1"
