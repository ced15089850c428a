[package]
name = "circularbuf"
version = "0.1.0"
edition = "2021"
publish = false

[dependencies]
tokio = { version = "1", default-features = false }
futures-io = "0.3"
