[package]
name = "rptagfs"
version = "0.1.0"
edition = "2021"
publish = false

[dependencies]
bytes = "1"
clap = { version = "4", features = ["derive"] }
env_logger = "*"
fuse3 = { version = "*", features = ["tokio-runtime", "unprivileged"] }
futures-util = "0.3"
libc = "0.2"
log = "0.4"
tokio = { version = "1", features = ["macros", "rt-multi-thread", "signal"] }
