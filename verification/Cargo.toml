[package]
name = "tty2pty-mux"
version = "0.1.0"
edition = "2021"
publish = false

[dependencies]
tokio-util = { version = "0.7", features = ["codec"] }
tokio = { version = "1", features = ["full"] }
futures = "0.3"
clap = { version = "4", features = ["derive"] }
env_logger = "*"
log = "0.4"
pty-process = { version = "*", features = ["async"] }
rustix = { version = "*", features = ["termios"] }
tokio-serial = "5"
