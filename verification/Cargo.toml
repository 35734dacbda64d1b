[package]
name = "helix"
version = "0.1.0"
edition = "2021"
publish = false

[dependencies]
cranelift = "=0.132.3"
cranelift-jit = "=0.132.3"
cranelift-module = "=0.132.3"
cranelift-native = "=0.132.3"
serde = { version = "=1.0.229", features = ["derive"] }
serde_json = "=1.0.154"
sysinfo = "=0.38.4"
tokio = { version = "=1.48.0", features = ["rt-multi-thread", "net", "io-util", "macros"] }
