[package]
name = "sysmon_merge"
version = "0.1.0"
edition = "2021"
publish = false

[dependencies]
clap = { version = "=4.6.7", features = ["derive"] }
env_logger = "=0.11.11"
log = "=0.4.34"
tempfile = "=3.27.0"
walkdir = "=2.5.0"
