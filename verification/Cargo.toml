[package]
name = "netharness"
version = "0.1.0"
edition = "2021"
publish = false

[dependencies]
libp2p = { version = "0.53", default-features = false, features = ["tokio", "tcp", "noise", "yamux"] }
netsim = "0.3"
tokio = { version = "1", features = ["rt", "net", "sync", "time"] }
tokio-core = "0.1"
