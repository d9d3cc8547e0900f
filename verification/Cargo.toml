[package]
name = "prefix_varint"
version = "0.1.0"
edition = "2021"
publish = false

[dependencies]
byteorder = "1"
