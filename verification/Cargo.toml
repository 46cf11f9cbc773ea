[package]
name = "language"
version = "0.1.0"
edition = "2021"
publish = false

[dependencies]
serde = { version = "1", features = ["derive"] }
serde_json = "1"
unicode-normalization = "*"
uuid = { version = "1", features = ["v7", "serde"] }
base62 = "*"
time = { version = "0.3", features = ["serde", "parsing", "formatting", "macros"] }
rand = "*"
clap = { version = "4", features = ["derive"] }
anyhow = "1"
thiserror = "*"
tracing = "*"
tracing-subscriber = "*"
