[package]
name = "memtypes"
version = "0.1.0"
edition = "2021"
publish = false

[dependencies]
rhai = "1"
memflow = "0.2"
