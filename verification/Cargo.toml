[package]
name = "r_path_finder"
version = "0.1.0"
edition = "2021"
publish = false

[dependencies]
priority-queue = "*"
