[package]
name = "swhkd"
version = "0.1.0"
edition = "2021"
publish = false

[dependencies]
clap = { version = "*", features = ["derive"] }
env_logger = "*"
evdev = { version = "*", features = ["tokio"] }
log = "*"
nix = { version = "*", features = ["fs", "user", "signal", "process"] }
regex = "*"
serde = { version = "*", features = ["derive"] }
serde_yml = "*"
signal-hook = "*"
signal-hook-tokio = { version = "*", features = ["futures-v0_3"] }
sysinfo = "*"
tokio = { version = "*", features = ["full"] }
tokio-stream = "*"
