[package]
name = "hypertrie"
version = "0.1.0"
edition = "2021"
publish = false

[dependencies]
bit-vec = "=0.10.1"
gxhash = "=2.3.1"
