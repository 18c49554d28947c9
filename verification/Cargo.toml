[package]
name = "dm_core"
version = "0.1.0"
edition = "2021"
publish = false

[dependencies]
clap = { version = "4", features = ["derive"] }
crossbeam-channel = "0.5"
num_cpus = "1"
term_size = "0.3"
libc = "0.2"
serde = { version = "1", features = ["derive"] }
fs4 = "*"
