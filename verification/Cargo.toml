[package]
name = "data_structures"
version = "0.1.0"
edition = "2021"
publish = false

[dependencies]
regex = "=1.13.1"
serde = { version = "=1.0.229", features = ["derive"] }
serde_json = "=1.0.151"
tokio = { version = "=1.53.2", features = ["rt", "macros", "sync", "time"] }
uuid = { version = "=1.27.0", features = ["v4", "serde"] }
futures = "=0.3.34"
libc = "=0.2.190"
