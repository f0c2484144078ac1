[package]
name = "qemu_harness"
version = "0.1.0"
edition = "2021"
publish = false

[dependencies]
rand = "*"
anyhow = "1"
env_logger = "*"
qapi = { version = "*", features = ["qmp"] }
tempfile = "3"
syn = { version = "2", features = ["full"] }
quote = "1"
proc-macro2 = "1"
