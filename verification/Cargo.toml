[package]
name = "quicktag_cli"
version = "0.1.0"
edition = "2021"
publish = false

[dependencies]
anyhow = "1"
clap = { version = "4", features = ["derive"] }
env_logger = "0.11"
serde = { version = "1", features = ["derive"] }
serde_json = "1"
tiger-pkg = { version = "=0.20.1", features = ["global_manager_instance"] }
