[package]
name = "parking_lot_core"
version = "0.1.0"
edition = "2021"
publish = false

[dependencies]
backtrace = "0.3"
instant = "0.1"
petgraph = "0.5"
smallvec = "1"
thread-id = "3"
