[package]
name = "balancer"
version = "0.1.0"
edition = "2021"
publish = false

[dependencies]
rand = "=0.8.5"
tokio = { version = "1", default-features = false, features = ["net", "rt-multi-thread", "macros", "io-util"] }
clap = { version = "4", features = ["derive"] }
log = "0.4"
pretty_env_logger = "0.5"
