[package]
name = "holo_spb"
version = "0.1.0"
edition = "2021"
publish = false

[dependencies]
hmac = "*"
hyper-util = { version = "*", features = ["tokio"] }
ipnetwork = "*"
prost = "*"
serde = { version = "*", features = ["derive"] }
serde_with = { version = "*", features = ["macros"] }
sha2 = "*"
tokio = { version = "*", features = ["macros", "net", "rt", "sync", "time"] }
tokio-stream = "*"
tonic = "*"
tonic-prost = "*"
tower = { version = "*", features = ["util"] }
tracing = "*"
