[package]
name = "pf8"
version = "0.1.0"
edition = "2021"
publish = false

[dependencies]
clap = { version = "4", features = ["derive"] }
env_logger = "0.11"
glob = "0.3"
human_bytes = "0.4"
log = "0.4"
memmap2 = "0.9"
sha1 = "0.10"
tabled = "*"
thiserror = "1"
walkdir = "2"
