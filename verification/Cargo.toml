[package]
name = "authority_discovery"
version = "0.1.0"
edition = "2021"
publish = false

[dependencies]
futures = "=0.3.34"
futures-timer = "=3.0.4"
libp2p = { version = "=0.56.0", default-features = false }
sha2 = "=0.10.9"
sp-core = "=43.0.0"

[dev-dependencies]
prost = { version = "=0.14.4", default-features = false, features = ["std"] }
