[package]
name = "dataflow_join"
version = "0.1.0"
edition = "2021"
publish = false

[dependencies]
timely = "*"
mmap = "0.1"
time = "0.1"
