[package]
name = "ic_cert_time"
version = "0.1.0"
edition = "2021"
publish = false

[dependencies]
ic-agent = "0.20"
leb128 = "0.2"
serde_cbor = "0.11"
serde_json = "1"
tokio = { version = "1", features = ["macros", "rt-multi-thread"] }
