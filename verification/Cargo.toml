[package]
name = "defragger"
version = "0.1.0"
edition = "2021"
publish = false

[dependencies]
libc = "=0.2.191"
serde = { version = "=1.0.229", features = ["derive"] }
serde_json = "=1.0.154"
thiserror = "=2.0.21"
zbus = { version = "=5.19.0", features = ["p2p"] }
blocking = "=1.7.0"
futures-lite = "=2.6.1"
