[package]
name = "kvs"
version = "0.1.0"
edition = "2021"
publish = false

[dependencies]
bson = "2"
serde = { version = "=1.0.229", features = ["derive"] }
structopt = "=0.3.26"
clap = "=2.34.0"
failure = "=0.1.8"
slog = "=2.8.2"
slog-term = "=2.9.2"
slog-async = "=2.8.0"
