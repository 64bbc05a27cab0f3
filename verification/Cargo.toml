[package]
name = "empyrean"
version = "0.1.0"
edition = "2021"
publish = false

[dependencies]
glam = "*"
rand = "0.9"
rand_distr = "0.5"
thiserror = "2"
