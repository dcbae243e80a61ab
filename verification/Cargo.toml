[package]
name = "btcore"
version = "0.1.0"
edition = "2021"
publish = false

[dependencies]
sha1 = "0.10"
rand = "0.9"
tokio = { version = "1", default-features = false, features = ["rt-multi-thread", "macros", "net", "io-util", "fs", "time"] }
reqwest = { version = "0.12", default-features = false, features = ["blocking"] }
