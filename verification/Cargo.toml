[package]
name = "tezedge_recorder"
version = "0.1.0"
edition = "2021"
publish = false

[dependencies]
bytes = "=1.12.1"
hex = "=0.4.3"
itertools = "=0.15.0"
log = "=0.4.34"
nix = { version = "=0.31.3", features = ["signal"] }
riker = "=0.4.2"
serde = { version = "=1.0.229", features = ["derive"] }
sodiumoxide = "=0.2.7"
thiserror = "=2.0.21"
tokio = { version = "=1.54.1", features = ["rt", "sync"] }
tracing = "=0.1.44"
