[package]
name = "md5_collision"
version = "0.1.0"
edition = "2021"
publish = false

[dependencies]
fastrand = "1"
num_cpus = "1"
