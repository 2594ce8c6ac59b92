[package]
name = "tre"
version = "0.1.0"
edition = "2021"
publish = false

[dependencies]
slab = "0.4"
indexmap = "2"
walkdir = "2"
