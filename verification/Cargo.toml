[package]
name = "ubercollec"
version = "0.1.0"
edition = "2021"
publish = false

[dependencies]
csv = "1"
chrono = "0.4"
serde = { version = "1", features = ["derive"] }
serde_json = "1"
serde_yaml = "0.9"
rusqlite = { version = "*", features = ["bundled"] }
reqwest = { version = "*", default-features = false, features = ["json", "rustls-tls"] }
tokio = { version = "1", features = ["rt-multi-thread", "time", "macros"] }
flate2 = "1"
tar = "0.4"
image = { version = "*", default-features = false, features = ["png", "jpeg"] }
webp = "*"
