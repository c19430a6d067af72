[package]
name = "task_storage"
version = "0.1.0"
edition = "2021"
publish = false

[dependencies]
dashmap = "6.1"
rustc-hash = "2.1"
tracing = "0.1"
