[package]
name = "spellbook"
version = "0.1.0"
edition = "2021"
publish = false

[dependencies]
futures = "0.3"
hyper = { version = "0.14", features = ["server", "http1", "tcp"] }
