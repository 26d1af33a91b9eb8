[package]
name = "warp_subdomain"
version = "0.1.0"
edition = "2021"
publish = false

[dependencies]
warp = { version = "0.3", default-features = false }
