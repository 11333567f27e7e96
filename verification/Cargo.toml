[package]
name = "lsat_proxy"
version = "0.1.0"
edition = "2021"
publish = false

[dependencies]
bitcoin_hashes = "=1.2.0"
hex = "=0.4.3"
macaroon = "=0.3.0"
rand = "=0.8.8"
serde_json = "=1.0.151"
sled = "=0.34.7"
lightning-invoice = "=0.34.1"
serde = { version = "1", features = ["derive"] }
tokio = { version = "1", features = ["full"] }
warp = { version = "=0.4.3", features = ["server"] }
tonic_lnd = "=0.5.1"
hyper = { version = "=1.12.0", features = ["client", "http1"] }
hyper-util = { version = "=0.1.21", features = ["client", "client-legacy", "http1", "tokio"] }
hyper-tls = "=0.6.0"
http-body-util = "=0.1.5"
bytes = "1"
