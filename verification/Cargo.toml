[package]
name = "sipx_transport"
version = "0.1.0"
edition = "2021"
publish = false

[dependencies]
rand = "=0.9.5"
bytes = "=1.12.1"
thiserror = "=2.0.21"
tracing = "=0.1.44"
tokio = { version = "=1.54.1", features = ["rt", "net", "sync", "time", "macros", "io-util"] }
tokio-util = "=0.7.20"
hickory-resolver = "=0.26.3"
futures-util = "=0.3.34"
tokio-tungstenite = "=0.30.0"
rustls-pki-types = "1"
