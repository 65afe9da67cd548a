[package]
name = "wall_cli"
version = "0.1.0"
edition = "2021"
publish = false

[dependencies]
anyhow = "=1.0.104"
clap = { version = "=4.6.7", features = ["derive"] }
dirs = "=7.0.0"
image = "=0.25.10"
notify = "=8.2.0"
rayon = "=1.12.0"
tokio = { version = "=1.53.2", features = ["rt-multi-thread", "macros", "time", "sync", "fs"] }
tokio-stream = "=0.1.19"
tracing = "=0.1.44"
tracing-appender = "=0.2.5"
tracing-subscriber = "=0.3.23"
wall = "=0.2.3"
