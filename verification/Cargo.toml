[package]
name = "quadtree_impl"
version = "0.1.0"
edition = "2021"
publish = false

[dependencies]
num = "0.4"
uuid = { version = "1", features = ["v4"] }
