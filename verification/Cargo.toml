[package]
name = "kernel_core"
version = "0.1.0"
edition = "2021"
publish = false

[dependencies]
spin = "=0.9.9"
parking_lot = "=0.12.5"
