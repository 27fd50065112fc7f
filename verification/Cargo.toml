[package]
name = "event_log_parser"
version = "0.1.0"
edition = "2021"
publish = false

[dependencies]
chrono = { version = "0.4", default-features = false }
memchr = "2"
uuid = "1"
