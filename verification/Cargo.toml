[package]
name = "openworkers_conformance"
version = "0.1.0"
edition = "2021"
publish = false

[dependencies]
sha2 = "0.10"
bytes = "1"
serde = { version = "1", features = ["derive"] }
serde_json = "1"
tokio = { version = "1", features = ["rt", "macros", "time", "sync"] }
