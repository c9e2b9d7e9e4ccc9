[package]
name = "pget"
version = "0.1.0"
edition = "2021"
publish = false

[dependencies]
argh = "*"
bytesize = "*"
colored = "*"
futures = "*"
reqwest = { version = "*", default-features = false, features = ["stream"] }
tokio = { version = "*", features = ["macros", "rt-multi-thread", "fs", "io-util", "sync"] }
