[package]
name = "endpoint_codec"
version = "0.1.0"
edition = "2021"
publish = false

[dependencies]
serde_json = "1"
http = "*"

[dev-dependencies]
percent-encoding = "2"
