[package]
name = "resp_server"
version = "0.1.0"
edition = "2021"
publish = false

[dependencies]
dashmap = "6"
nom = "7"
thiserror = "1"
