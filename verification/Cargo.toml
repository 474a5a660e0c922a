[package]
name = "testlang"
version = "0.1.0"
edition = "2021"
publish = false

[dependencies]
minreq = "2"
tokio = { version = "1", features = ["rt", "macros"] }
