[package]
name = "a_tree"
version = "0.1.0"
edition = "2021"
publish = false

[dependencies]
itertools = "*"
rust_decimal = { version = "1", default-features = false, features = ["std"] }
slab = "0.4"
thiserror = "*"
