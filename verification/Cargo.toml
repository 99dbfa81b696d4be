[package]
name = "spanning_tree"
version = "0.1.0"
edition = "2021"
publish = false

[dependencies]
rand = "=0.9.5"
itertools = "=0.15.0"
indexmap = "=2.14.2"
iced = { version = "=0.14.0", default-features = false, features = ["canvas", "tiny-skia", "x11", "thread-pool"] }
