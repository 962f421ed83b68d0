[package]
name = "anyfast"
version = "0.1.0"
edition = "2021"
publish = false

[dependencies]
fs2 = "0.4"
serde = { version = "1", features = ["derive"] }
serde_json = "1"
directories = "5"
tokio = { version = "1", features = ["rt-multi-thread", "macros", "net", "io-util", "time", "sync"] }
tokio-rustls = "0.26"
tokio-util = "0.7"
webpki-roots = "0.26"
hickory-resolver = "0.24"
reqwest = { version = "0.12", default-features = false, features = ["rustls-tls"] }
