[package]
name = "sfinder_lib"
version = "0.1.0"
edition = "2021"
publish = false

[dependencies]
rand = "0.8"
nohash = "0.2"
dyn-clone = "1"

[dev-dependencies]
