[package]
name = "t_trace"
version = "0.1.0"
edition = "2021"
publish = false

[dependencies]
anyhow = "*"
clap = { version = "*", features = ["derive"] }
comfy-table = "*"
daemonize = "*"
dirs = "*"
libc = "*"
tokio = { version = "*", features = ["rt-multi-thread", "net", "io-util", "signal", "sync", "macros", "time"] }
tracing = "*"
tracing-appender = "*"
tracing-subscriber = { version = "*", features = ["env-filter"] }
