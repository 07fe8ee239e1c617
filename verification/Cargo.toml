[package]
name = "numass_processing"
version = "0.1.0"
edition = "2021"
publish = false

[dependencies]
chrono = { version = "0.4", features = ["serde"] }
natord = "1.0"
protobuf = "3"
serde = { version = "1", features = ["derive"] }
tokio = { version = "1", features = ["fs", "rt", "macros"] }
