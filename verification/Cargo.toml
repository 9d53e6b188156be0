[package]
name = "plasma"
version = "0.1.0"
edition = "2021"
publish = false

[dev-dependencies]
pest = "2"
pest_meta = "2"
pest_vm = "2"
