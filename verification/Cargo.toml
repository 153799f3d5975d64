[package]
name = "md2core"
version = "0.1.0"
edition = "2021"
publish = false

[dependencies]
minidump = "*"
minidump-common = "*"
procfs-core = "*"
scroll = "*"
thiserror = "*"
clap = { version = "*", features = ["derive"] }
