[package]
name = "vl1"
version = "0.1.0"
edition = "2021"
publish = false

[dependencies]
lazy_static = "1"
parking_lot = "0.12"
