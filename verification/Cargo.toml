[package]
name = "toyrender"
version = "0.1.0"
edition = "2021"
publish = false

[dependencies]
num = "0.4"
log = "0.4"
env_logger = "*"
sdl2 = "*"
