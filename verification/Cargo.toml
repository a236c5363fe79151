[package]
name = "newbot"
version = "0.1.0"
edition = "2021"
publish = false

[dependencies]
rand = "0.8"
minreq = { version = "2", features = ["json-using-serde"] }
minlambda = "*"
serde = { version = "1", features = ["derive"] }
anyhow = "1"
reqwest = { version = "0.11", default-features = false, features = ["json"] }
serde_urlencoded = "0.7"
tokio = { version = "1", features = ["rt", "macros"] }
