[package]
name = "corduit"
version = "0.2.0"
edition = "2021"
publish = false

[dependencies]
blake2 = "0.10"
bytes = "=1.12.1"
courierust = "=1.0.7"
getrandom = "=0.4.3"
nextjson = "=0.1.4"
parking_lot = "=0.12.5"
thiserror = "=2.0.21"
tokio = { version = "=1.54.1", features = ["io-util", "net", "rt", "macros"] }
tracing = "=0.1.44"
