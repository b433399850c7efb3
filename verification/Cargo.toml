[package]
name = "syncwhole"
version = "0.1.0"
edition = "2021"
publish = false

[dependencies]
sha2 = "0.10"
tokio = { version = "1", default-features = false, features = ["rt", "time"] }
