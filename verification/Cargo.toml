[package]
name = "static-fuse-map"
version = "0.1.0"
edition = "2021"
publish = false

[dependencies]
serde = "1"
allocator-api2 = "0.2"
