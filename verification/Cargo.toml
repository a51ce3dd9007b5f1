[package]
name = "binding_generator"
version = "0.1.0"
edition = "2021"
publish = false

[dependencies]
clang = { version = "1", features = ["clang_6_0", "runtime"] }
dunce = "1"
once_cell = "1"
