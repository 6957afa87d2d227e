[package]
name = "snap-coin-pay"
version = "0.1.0"
edition = "2021"
publish = false

[dependencies]
async-trait = "=0.1.92"
snap-coin = { version = "=16.1.0", features = ["full-node", "light"] }
thiserror = "=2.0.21"
tokio = { version = "=1.54.1", features = ["full"] }
uuid = { version = "=1.29.0", features = ["v4"] }
