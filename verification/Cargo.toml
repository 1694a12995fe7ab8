[package]
name = "dining_philosophers"
version = "0.1.0"
edition = "2021"
publish = false

[dependencies]
futures = "*"
rand = "*"
tokio = { version = "*", features = ["rt-multi-thread", "macros", "time"] }
