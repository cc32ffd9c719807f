[package]
name = "dcs"
version = "0.1.0"
edition = "2021"
publish = false

[dependencies]
priority-queue = "*"
pathfinding = "*"

[dev-dependencies]
rand = "0.8"
rand_chacha = "0.3"
