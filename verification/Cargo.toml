[package]
name = "arbitraj"
version = "5.0.0"
edition = "2021"
publish = false

[dependencies]
alloy = { version = "=0.1.4", default-features = false, features = ["contract", "provider-ws", "signer-local"] }
chrono = { version = "=0.4.45", default-features = false, features = ["clock"] }
colored = "=3.1.1"
dotenvy = "0.15"
eyre = { version = "=0.6.14", default-features = false }
futures-util = { version = "=0.3.34", default-features = false }
revm = { version = "=9.0.0", default-features = false }
tokio = { version = "=1.54.1", default-features = false, features = ["macros", "rt-multi-thread", "time"] }
