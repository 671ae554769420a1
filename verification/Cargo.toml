[package]
name = "polyfill_fill"
version = "0.1.0"
edition = "2021"
publish = false

[dependencies]
alloy = { version = "1", default-features = false }
chrono = { version = "0.4", default-features = false, features = ["clock", "std"] }
rust_decimal = "1"
tracing = "0.1"
uuid = { version = "1", features = ["v4"] }
