[package]
name = "itree"
version = "0.1.0"
edition = "2021"
publish = false

[dependencies]
i_overlay = "*"

[dev-dependencies]
rand = "0.9"
