[package]
name = "sqlite_clone"
version = "0.1.0"
edition = "2021"
publish = false

[dependencies]
lru = "*"
positioned-io = "*"
