[package]
name = "seraphim"
version = "0.1.0"
edition = "2021"
publish = false

[dependencies]
tracing = "=0.1.44"
dashmap = "=6.2.1"
z32 = "=1.3.0"
serde = { version = "=1.0.229", features = ["derive"] }
postcard = { version = "=1.1.3", features = ["use-std"] }
tokio = { version = "=1.54.1", features = ["full"] }
tokio-util = { version = "=0.7.20", features = ["codec"] }
tokio-stream = "=0.1.19"
futures-util = { version = "=0.3.34", features = ["sink"] }
colored = "=3.1.1"
tracing-subscriber = "=0.3.23"
iroh = { version = "=1.4.1", default-features = false, features = ["tls-ring"] }
