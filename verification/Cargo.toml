[package]
name = "code_reader"
version = "0.1.0"
edition = "2021"
publish = false

[dependencies]
ropey = "1"
syntect = { version = "5", default-features = false, features = ["default-fancy"] }
anyhow = "1"
log = "0.4"
env_logger = "0.10"
egui = "0.22"
