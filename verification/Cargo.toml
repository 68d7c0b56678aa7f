[package]
name = "datapack"
version = "0.1.0"
edition = "2021"
publish = false

[dependencies]
lz4_flex = "*"
sha1 = "=0.10.7"
tempfile = "*"
memmap = "=0.7.0"
futures = "0.1"
