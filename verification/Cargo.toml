[package]
name = "ssm_fs"
version = "0.1.0"
edition = "2021"
publish = false

[dependencies]
anyhow = "1"
aws-config = "1"
aws-sdk-ssm = "1"
clap = { version = "4", features = ["derive", "env"] }
futures = "0.3"
itertools = "*"
serde = { version = "1", features = ["derive"] }
serde_yaml = "0.9"
tempfile = "3"
tokio = { version = "1", features = ["macros", "rt-multi-thread", "fs"] }
walkdir = "2"
