[package]
name = "easi-job"
version = "0.1.0"
edition = "2021"
publish = false

[dependencies]
fastrand = "=2.5.0"
tokio = { version = "=1.54.1", features = ["macros", "rt", "time"] }
tokio-util = "=0.7.20"
tracing = "=0.1.44"

[dev-dependencies]
tokio = { version = "=1.54.1", features = ["rt", "test-util", "time"] }
