[package]
name = "complex_num"
version = "0.1.0"
edition = "2021"
publish = false

[dependencies]
beryllium = "0.13"
log = "0.4"
simple_logger = "*"
