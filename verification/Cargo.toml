[package]
name = "yaml12"
version = "0.1.0"
edition = "2021"
publish = false

[dependencies]
saphyr = "=0.2.2"
ordered-float = "=5.5.0"
num-traits = "=0.2.19"
extendr-api = "=0.9.0"
extendr-ffi = "=0.9.0"
