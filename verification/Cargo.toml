[package]
name = "auto_correct"
version = "0.1.0"
edition = "2021"
publish = false

[dependencies]
hashbrown = "*"
crossbeam-channel = "*"
threads_pool = "*"
