[package]
name = "p2p"
version = "0.1.0"
edition = "2021"
publish = false

[dependencies]
async-trait = "=0.1.92"
parity-scale-codec = { version = "=3.7.5", features = ["derive"] }
rand = "=0.8.8"
schnorrkel = "=0.10.2"
tokio = { version = "=1.54.1", features = ["io-util", "macros", "net", "rt", "sync", "time"] }
