[package]
name = "shellfs"
version = "0.1.0"
edition = "2021"
publish = false

[dependencies]
clap = { version = "=4.6.7", features = ["derive"] }
daemonize-me = "=2.0.4"
env_logger = "=0.11.11"
fuse = "=0.3.1"
libc = "=0.2.190"
log = "=0.4.34"
time = "=0.1.45"
