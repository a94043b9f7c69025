[package]
name = "ftl_wire"
version = "0.1.0"
edition = "2021"
publish = false

[dependencies]
rmp = "0.8"
rocket = { version = "0.5", features = ["json"] }
