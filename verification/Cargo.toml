[package]
name = "spooler"
version = "0.1.0"
edition = "2021"
publish = false

[dependencies]
tokio = { version = "*", features = ["macros", "rt-multi-thread", "net", "io-util", "sync", "time"] }
chrono = "*"
reqwest = { version = "*", default-features = false, features = ["json"] }
pyo3 = "*"
