[package]
name = "page_store"
version = "0.1.0"
edition = "2021"
publish = false

[dependencies]
twox-hash = "*"
parking_lot = "*"
