[package]
name = "lion_solver"
version = "0.1.0"
edition = "2021"
publish = false

[dependencies]
log = "*"
pretty_env_logger = "*"
tokio = { version = "*", features = ["rt-multi-thread", "sync", "time", "macros"] }
