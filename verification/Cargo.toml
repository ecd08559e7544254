[package]
name = "step_runtime"
version = "0.1.0"
edition = "2021"
publish = false

[dependencies]
const-fnv1a-hash = "*"
image = "*"
