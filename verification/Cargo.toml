[package]
name = "xmlrpc"
version = "0.1.0"
edition = "2021"
publish = false

[dependencies]
base64 = "*"
mime = "*"
reqwest = { version = "*", default-features = false }
tokio = { version = "*", features = ["rt-multi-thread"] }

[dev-dependencies]
iso8601 = "*"
