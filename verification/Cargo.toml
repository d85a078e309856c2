[package]
name = "rate_limiter_suite"
version = "0.1.0"
edition = "2021"
publish = false

[dependencies]
dashmap = "6"
nalgebra = "0.33"
thiserror = "2"
tokio = { version = "1", features = ["macros", "rt", "rt-multi-thread", "sync", "time"] }
