[package]
name = "rudish"
version = "0.1.0"
edition = "2021"
publish = false

[dependencies]
ctrlc = "3"
tracing = "0.1"
