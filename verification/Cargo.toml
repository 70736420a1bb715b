[package]
name = "burrows_wheeler"
version = "0.1.0"
edition = "2021"
publish = false

[dependencies]
atlist-rs = "*"
bit-vec = "*"
priority-queue = "*"
