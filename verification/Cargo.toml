[package]
name = "fast_sweeping"
version = "0.1.0"
edition = "2021"
publish = false
