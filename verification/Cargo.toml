[package]
name = "dht_market"
version = "0.1.0"
edition = "2021"
publish = false

[dependencies]
libp2p = { version = "*", default-features = false, features = ["tokio", "tcp", "noise", "yamux", "kad", "mdns", "macros", "rsa"] }
tokio = { version = "*", features = ["rt-multi-thread", "macros", "sync", "time"] }
clap = { version = "*", features = ["derive"] }

[dev-dependencies]
serde_json = "*"
