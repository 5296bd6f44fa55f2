[package]
name = "proton"
version = "0.1.0"
edition = "2021"
publish = false

[dependencies]
rayon = "1"
parking_lot = "0.12"
lazy_static = "1"
scoped_threadpool = "0.1"
crossbeam-channel = "0.5"
strum = { version = "0.26", features = ["derive"] }
strum_macros = "0.26"
