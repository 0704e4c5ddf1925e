[package]
name = "mnemo"
version = "0.1.0"
edition = "2021"
publish = false

[dependencies]
sha2 = "0.10"
zip = { version = "2", default-features = false, features = ["deflate"] }
pdf-extract = "*"
uuid = { version = "1", features = ["v4"] }
rusqlite = { version = "*", features = ["bundled"] }
chrono = "0.4"
