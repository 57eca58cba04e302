[package]
name = "leak_tracer"
version = "0.1.0"
edition = "2021"
publish = false

[dependencies]
backtrace = "0.3"
heapless = "0.8"
once_cell = "1"
spin = "0.9"
