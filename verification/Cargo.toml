[package]
name = "flat_map"
version = "0.1.0"
edition = "2021"

[dependencies]
serde = "1"
